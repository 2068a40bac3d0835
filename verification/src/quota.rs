//! A minimum share of in-network posts in the top of a ranked list.
use vstd::prelude::*;
use crate::candidate::{in_network, spec_in_network, PostCandidate};
use crate::ordering::{
    gathered, is_index_perm, is_reordering, lemma_index_perm_len, lemma_reordering_refl, permute,
};

verus! {

/// Number of in-network posts in `s`.
pub open spec fn count_in(s: Seq<PostCandidate>) -> nat
    decreases s.len(),
{
    if s.len() == 0 {
        0
    } else {
        count_in(s.drop_last()) + if spec_in_network(s.last()) {
            1nat
        } else {
            0nat
        }
    }
}

/// Number of posts in `s` that are not in network.
pub open spec fn count_out(s: Seq<PostCandidate>) -> int {
    s.len() - count_in(s)
}

/// The size of the top that the quota fills: `min(k, len)`.
pub open spec fn quota_top(len: nat, k: nat) -> nat {
    if k < len {
        k
    } else {
        len
    }
}

/// How many in-network posts move up into the top: as many as are wanted beyond
/// those already there, at most as many as there are below the top, and at most
/// as many as the top has out-of-network posts.
pub open spec fn quota_moves(s: Seq<PostCandidate>, k: nat, want: nat) -> nat {
    let top = quota_top(s.len(), k);
    let in_head = count_in(s.take(top as int));
    let out_head = (top - in_head) as nat;
    let in_tail = count_in(s.skip(top as int));
    let need = if want > in_head {
        (want - in_head) as nat
    } else {
        0nat
    };
    if need <= in_tail && need <= out_head {
        need
    } else if in_tail <= out_head {
        in_tail
    } else {
        out_head
    }
}

/// Whether the post at position `p` is in the top after the quota: in the top,
/// every in-network post and the best out-of-network posts that still fit; below
/// the top, the best `quota_moves` in-network posts.
pub open spec fn quota_chosen(s: Seq<PostCandidate>, k: nat, want: nat, p: int) -> bool {
    let top = quota_top(s.len(), k);
    let m = quota_moves(s, k, want);
    let keep_out = (top - count_in(s.take(top as int))) - m;
    if p < top {
        spec_in_network(s[p]) || count_out(s.take(p)) < keep_out
    } else {
        spec_in_network(s[p]) && count_in(s.subrange(top as int, p)) < m
    }
}

/// `quota_chosen` as a predicate on positions.
pub open spec fn quota_pred(s: Seq<PostCandidate>, k: nat, want: nat) -> spec_fn(int) -> bool {
    |p: int| quota_chosen(s, k, want, p)
}

/// The positions below `n` on which `pred` is `keep`, ascending.
pub open spec fn positions_where(pred: spec_fn(int) -> bool, n: nat, keep: bool) -> Seq<usize>
    decreases n,
{
    if n == 0 {
        Seq::empty()
    } else {
        let prev = positions_where(pred, (n - 1) as nat, keep);
        if pred(n - 1) == keep {
            prev.push((n - 1) as usize)
        } else {
            prev
        }
    }
}

/// What the in-network quota makes of a ranked list: when fewer than `want` of the
/// top `min(k, len)` posts are in network, the top takes its in-network posts, the
/// best in-network posts from below it (up to `want` in all) and the best of its
/// out-of-network posts that still fit, all in their given (score) order; the
/// out-of-network posts it pushes out and the rest of the list follow, in their
/// given order.
pub open spec fn in_network_quota(s: Seq<PostCandidate>, k: nat, want: nat) -> Seq<PostCandidate> {
    if s.len() <= 1 || k == 0 || want == 0 || count_in(s.take(quota_top(s.len(), k) as int))
        >= want {
        s
    } else {
        gathered(
            s,
            positions_where(quota_pred(s, k, want), s.len(), true) + positions_where(
                quota_pred(s, k, want),
                s.len(),
                false,
            ),
        )
    }
}

proof fn lemma_count_in_bound(s: Seq<PostCandidate>)
    ensures
        count_in(s) <= s.len(),
    decreases s.len(),
{
    if s.len() > 0 {
        lemma_count_in_bound(s.drop_last());
    }
}

proof fn lemma_count_in_concat(a: Seq<PostCandidate>, b: Seq<PostCandidate>)
    ensures
        count_in(a + b) == count_in(a) + count_in(b),
    decreases b.len(),
{
    if b.len() == 0 {
        assert(a + b =~= a);
    } else {
        lemma_count_in_concat(a, b.drop_last());
        assert((a + b).drop_last() =~= a + b.drop_last());
    }
}

/// One more position of a prefix adds its post to the count.
proof fn lemma_count_in_step(s: Seq<PostCandidate>, lo: int, p: int)
    requires
        0 <= lo <= p < s.len(),
    ensures
        count_in(s.subrange(lo, p + 1)) == count_in(s.subrange(lo, p)) + if spec_in_network(s[p]) {
            1nat
        } else {
            0nat
        },
{
    assert(s.subrange(lo, p + 1).drop_last() =~= s.subrange(lo, p));
}

proof fn lemma_positions_where(pred: spec_fn(int) -> bool, n: nat, keep: bool)
    requires
        n <= usize::MAX,
    ensures
        forall|a: int, b: int|
            0 <= a < b < positions_where(pred, n, keep).len() ==> #[trigger] positions_where(
                pred,
                n,
                keep,
            )[a] < #[trigger] positions_where(pred, n, keep)[b],
        forall|a: int|
            0 <= a < positions_where(pred, n, keep).len() ==> #[trigger] positions_where(
                pred,
                n,
                keep,
            )[a] < n && pred(positions_where(pred, n, keep)[a] as int) == keep,
        forall|x: usize| x < n && pred(x as int) == keep ==> #[trigger] positions_where(
            pred,
            n,
            keep,
        ).contains(x),
    decreases n,
{
    if n > 0 {
        lemma_positions_where(pred, (n - 1) as nat, keep);
        let prev = positions_where(pred, (n - 1) as nat, keep);
        let cur = positions_where(pred, n, keep);
        if pred(n - 1) == keep {
            assert forall|a: int, b: int| 0 <= a < b < cur.len() implies #[trigger] cur[a]
                < #[trigger] cur[b] by {
                if b == prev.len() {
                    assert(cur[a] == prev[a]);
                }
            }
            assert forall|x: usize| x < n && pred(x as int) == keep implies #[trigger] cur.contains(
                x,
            ) by {
                if x < n - 1 {
                    assert(prev.contains(x));
                    let q = choose|q: int| 0 <= q < prev.len() && prev[q] == x;
                    assert(cur[q] == x);
                } else {
                    assert(cur[prev.len() as int] == x);
                }
            }
        }
    }
}

/// The positions where a predicate holds, followed by those where it does not,
/// list every position below `n` exactly once.
pub proof fn lemma_positions_where_perm(pred: spec_fn(int) -> bool, n: nat)
    requires
        n <= usize::MAX,
    ensures
        is_index_perm(positions_where(pred, n, true) + positions_where(pred, n, false), n),
{
    let a = positions_where(pred, n, true);
    let b = positions_where(pred, n, false);
    lemma_positions_where(pred, n, true);
    lemma_positions_where(pred, n, false);
    let o = a + b;
    assert forall|q: int| 0 <= q < o.len() implies #[trigger] o[q] < n by {
        if q < a.len() {
            assert(o[q] == a[q]);
        } else {
            assert(o[q] == b[q - a.len()]);
        }
    }
    assert(o.no_duplicates()) by {
        assert forall|x: int, y: int| 0 <= x < o.len() && 0 <= y < o.len() && x != y implies o[x]
            != o[y] by {
            if x < a.len() && y >= a.len() {
                assert(o[x] == a[x] && o[y] == b[y - a.len()]);
            } else if x >= a.len() && y < a.len() {
                assert(o[x] == b[x - a.len()] && o[y] == a[y]);
            } else if x >= a.len() && y >= a.len() {
                assert(o[x] == b[x - a.len()] && o[y] == b[y - a.len()]);
            } else {
                assert(o[x] == a[x] && o[y] == a[y]);
            }
        }
    }
    assert forall|x: usize| x < n implies #[trigger] o.contains(x) by {
        if pred(x as int) {
            assert(a.contains(x));
            let q = choose|q: int| 0 <= q < a.len() && a[q] == x;
            assert(o[q] == x);
        } else {
            assert(b.contains(x));
            let q = choose|q: int| 0 <= q < b.len() && b[q] == x;
            assert(o[a.len() + q] == x);
        }
    }
    lemma_index_perm_len(o, n);
}

/// Keeps the score order, but moves in-network posts into the top `min(k, len)`
/// until `want` of them are there: the best in-network posts from below the top
/// replace the lowest out-of-network posts of the top; the top and the rest of the
/// list each stay in their given order.
pub fn apply_in_network_quota(ranked: Vec<PostCandidate>, k: usize, want: usize) -> (out: Vec<
    PostCandidate,
>)
    ensures
        out@ == in_network_quota(ranked@, k as nat, want as nat),
        is_reordering(out@, ranked@),
{
    let ghost s0 = ranked@;
    if ranked.len() <= 1 || k == 0 || want == 0 {
        proof {
            lemma_reordering_refl(s0);
        }
        return ranked;
    }
    let len = ranked.len();
    let take = if k < len {
        k
    } else {
        len
    };
    let mut in_head: usize = 0;
    assert(s0.subrange(0, 0) =~= Seq::<PostCandidate>::empty());
    for p in 0..take
        invariant
            take <= len == s0.len(),
            ranked@ == s0,
            in_head == count_in(s0.subrange(0, p as int)),
            in_head <= p,
    {
        proof {
            lemma_count_in_step(s0, 0, p as int);
        }
        if in_network(&ranked[p]) {
            in_head = in_head + 1;
        }
    }
    assert(s0.subrange(0, take as int) =~= s0.take(take as int));
    if in_head >= want {
        proof {
            lemma_reordering_refl(s0);
        }
        return ranked;
    }
    let mut in_tail: usize = 0;
    assert(s0.subrange(take as int, take as int) =~= Seq::<PostCandidate>::empty());
    for p in take..len
        invariant
            take <= len == s0.len(),
            ranked@ == s0,
            in_tail == count_in(s0.subrange(take as int, p as int)),
            in_tail <= p - take,
    {
        proof {
            lemma_count_in_step(s0, take as int, p as int);
        }
        if in_network(&ranked[p]) {
            in_tail = in_tail + 1;
        }
    }
    assert(s0.subrange(take as int, len as int) =~= s0.skip(take as int));
    let need = want - in_head;
    let out_head = take - in_head;
    let m = if need <= in_tail && need <= out_head {
        need
    } else if in_tail <= out_head {
        in_tail
    } else {
        out_head
    };
    assert(m == quota_moves(s0, k as nat, want as nat));
    let keep_out = out_head - m;
    let ghost pred = quota_pred(s0, k as nat, want as nat);
    let mut chosen: Vec<usize> = Vec::new();
    let mut others: Vec<usize> = Vec::new();
    let mut outs: usize = 0;
    let mut promoted: usize = 0;
    assert(s0.take(0) =~= Seq::<PostCandidate>::empty());
    for p in 0..len
        invariant
            take <= len == s0.len(),
            ranked@ == s0,
            pred == quota_pred(s0, k as nat, want as nat),
            keep_out == (take - count_in(s0.take(take as int))) - quota_moves(
                s0,
                k as nat,
                want as nat,
            ),
            m == quota_moves(s0, k as nat, want as nat),
            take == quota_top(s0.len(), k as nat),
            chosen@ == positions_where(pred, p as nat, true),
            others@ == positions_where(pred, p as nat, false),
            p <= take ==> outs == count_out(s0.take(p as int)),
            p > take ==> outs == count_out(s0.take(take as int)),
            p <= take ==> promoted == 0,
            p > take ==> promoted == count_in(s0.subrange(take as int, p as int)),
            outs <= p,
            promoted <= p,
    {
        let is_in = in_network(&ranked[p]);
        let c = if p < take {
            is_in || outs < keep_out
        } else {
            is_in && promoted < m
        };
        proof {
            if p == take {
                assert(s0.subrange(take as int, take as int) =~= Seq::<PostCandidate>::empty());
            }
            assert(c == pred(p as int));
            lemma_count_in_step(s0, 0, p as int);
            assert(s0.subrange(0, p as int) =~= s0.take(p as int));
            assert(s0.subrange(0, p + 1) =~= s0.take(p + 1));
            if p >= take {
                lemma_count_in_step(s0, take as int, p as int);
            }
        }
        if c {
            chosen.push(p);
        } else {
            others.push(p);
        }
        if p < take && !is_in {
            outs = outs + 1;
        }
        if p >= take && is_in {
            promoted = promoted + 1;
        }
    }
    let ghost first = chosen@;
    let mut order = chosen;
    let mut rest = others;
    order.append(&mut rest);
    proof {
        lemma_positions_where_perm(pred, len as nat);
        assert(order@ == first + positions_where(pred, len as nat, false));
    }
    let out = permute(ranked, &order);
    proof {
        assert(out@ == in_network_quota(s0, k as nat, want as nat));
    }
    out
}


/// The smaller of two numbers.
pub open spec fn min_nat(a: int, b: int) -> int {
    if a < b {
        a
    } else {
        b
    }
}

proof fn lemma_count_in_push(x: Seq<PostCandidate>, c: PostCandidate)
    ensures
        count_in(x.push(c)) == count_in(x) + if spec_in_network(c) {
            1nat
        } else {
            0nat
        },
{
    assert(x.push(c).drop_last() =~= x);
}

/// How many posts the top takes among the first `n` positions, and how many of
/// them are in network.
proof fn lemma_chosen_counts(s: Seq<PostCandidate>, k: nat, want: nat, n: nat)
    requires
        s.len() <= usize::MAX,
        n <= s.len(),
        count_in(s.take(quota_top(s.len(), k) as int)) < want,
    ensures
        ({
            let top = quota_top(s.len(), k);
            let in_head = count_in(s.take(top as int));
            let m = quota_moves(s, k, want);
            let keep_out = (top - in_head) - m;
            let c = positions_where(quota_pred(s, k, want), n, true);
            &&& n <= top ==> c.len() == count_in(s.take(n as int)) + min_nat(
                count_out(s.take(n as int)),
                keep_out,
            )
            &&& n <= top ==> count_in(gathered(s, c)) == count_in(s.take(n as int))
            &&& n > top ==> c.len() == in_head + keep_out + min_nat(
                count_in(s.subrange(top as int, n as int)) as int,
                m as int,
            )
            &&& n > top ==> count_in(gathered(s, c)) == in_head + min_nat(
                count_in(s.subrange(top as int, n as int)) as int,
                m as int,
            )
        }),
    decreases n,
{
    let top = quota_top(s.len(), k);
    let in_head = count_in(s.take(top as int));
    let m = quota_moves(s, k, want);
    let pred = quota_pred(s, k, want);
    lemma_count_in_bound(s.take(top as int));
    if n == 0 {
        assert(s.take(0) =~= Seq::<PostCandidate>::empty());
        assert(gathered(s, Seq::<usize>::empty()) =~= Seq::<PostCandidate>::empty());
    } else {
        let p = (n - 1) as int;
        lemma_chosen_counts(s, k, want, (n - 1) as nat);
        let prev = positions_where(pred, (n - 1) as nat, true);
        let cur = positions_where(pred, n, true);
        if pred(p) {
            assert(cur == prev.push(p as usize));
            assert(gathered(s, cur) =~= gathered(s, prev).push(s[p]));
            lemma_count_in_push(gathered(s, prev), s[p]);
        }
        assert(s.take(n as int).drop_last() =~= s.take(p));
        assert(s.take(n as int).last() == s[p]);
        lemma_count_in_bound(s.take(p));
        lemma_count_in_bound(s.take(n as int));
        if p >= top {
            lemma_count_in_step(s, top as int, p);
            if p == top {
                assert(s.subrange(top as int, top as int) =~= Seq::<PostCandidate>::empty());
                assert(s.take(p) =~= s.take(top as int));
            }
        }
    }
}

/// The quota's guarantee: when `want` is at most the size of the top
/// `min(k, len)`, the top afterwards holds as many in-network posts as before, or
/// `want`, or all in-network posts there are, whichever is largest that can be had:
/// `max(before, min(want, all))`.
pub proof fn lemma_in_network_quota_guarantee(s: Seq<PostCandidate>, k: nat, want: nat)
    requires
        want <= k,
        want <= s.len(),
        s.len() <= usize::MAX,
    ensures
        ({
            let top = quota_top(s.len(), k);
            let before = count_in(s.take(top as int));
            let goal = min_nat(want as int, count_in(s) as int);
            count_in(in_network_quota(s, k, want).take(top as int)) == if before < goal {
                goal
            } else {
                before as int
            }
        }),
{
    let top = quota_top(s.len(), k);
    let in_head = count_in(s.take(top as int));
    lemma_count_in_concat(s.take(top as int), s.skip(top as int));
    assert(s.take(top as int) + s.skip(top as int) =~= s);
    lemma_count_in_bound(s.take(top as int));
    lemma_count_in_bound(s.skip(top as int));
    if s.len() <= 1 || k == 0 || want == 0 || in_head >= want {
        if s.len() <= 1 && want == 1 && k > 0 {
            assert(s.take(top as int) =~= s);
        }
        if k == 0 {
            assert(s.take(0) =~= Seq::<PostCandidate>::empty());
        }
    } else {
        let pred = quota_pred(s, k, want);
        let c = positions_where(pred, s.len(), true);
        let o = positions_where(pred, s.len(), false);
        lemma_chosen_counts(s, k, want, s.len());
        assert(s.subrange(top as int, s.len() as int) =~= s.skip(top as int));
        if top == s.len() {
            lemma_chosen_counts(s, k, want, top);
            assert(s.take(top as int) =~= s);
        }
        assert(c.len() == top);
        assert(in_network_quota(s, k, want).take(top as int) =~= gathered(s, c));
    }
}

/// The quota keeps the score order: the top lists its posts in their given order,
/// and so does the rest of the list.
pub proof fn lemma_in_network_quota_keeps_order(s: Seq<PostCandidate>, k: nat, want: nat)
    requires
        s.len() <= usize::MAX,
    ensures
        exists|o: Seq<usize>|
            {
                &&& is_index_perm(o, s.len())
                &&& #[trigger] gathered(s, o) == in_network_quota(s, k, want)
                &&& forall|a: int, b: int|
                    0 <= a < b < quota_top(s.len(), k) ==> o[a] < o[b]
                &&& forall|a: int, b: int|
                    quota_top(s.len(), k) <= a < b < s.len() ==> o[a] < o[b]
            },
{
    let top = quota_top(s.len(), k);
    let in_head = count_in(s.take(top as int));
    if s.len() <= 1 || k == 0 || want == 0 || in_head >= want {
        let o = Seq::new(s.len(), |i: int| i as usize);
        assert(gathered(s, o) =~= s);
        assert(o.no_duplicates());
        assert(is_index_perm(o, s.len()));
    } else {
        let pred = quota_pred(s, k, want);
        let c = positions_where(pred, s.len(), true);
        let r = positions_where(pred, s.len(), false);
        let o = c + r;
        lemma_positions_where_perm(pred, s.len());
        lemma_positions_where(pred, s.len(), true);
        lemma_positions_where(pred, s.len(), false);
        lemma_chosen_counts(s, k, want, s.len());
        lemma_count_in_bound(s.take(top as int));
        lemma_count_in_concat(s.take(top as int), s.skip(top as int));
        assert(s.take(top as int) + s.skip(top as int) =~= s);
        assert(s.subrange(top as int, s.len() as int) =~= s.skip(top as int));
        if top == s.len() {
            lemma_chosen_counts(s, k, want, top);
            assert(s.take(top as int) =~= s);
        }
        assert(c.len() == top);
        assert forall|a: int, b: int| 0 <= a < b < top implies o[a] < o[b] by {
            assert(o[a] == c[a] && o[b] == c[b]);
        }
        assert forall|a: int, b: int| top <= a < b < s.len() implies o[a] < o[b] by {
            assert(o[a] == r[a - top] && o[b] == r[b - top]);
        }
        assert(gathered(s, o) == in_network_quota(s, k, want));
    }
}

} // verus!
