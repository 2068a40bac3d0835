//! Slate selection: post-to-slot assignment order and the in-network quota.
use vstd::prelude::*;
use crate::candidate::{by_score, lemma_by_score, score_key, sort_by_score, PostCandidate};
use crate::ordering::{
    gathered, is_index_perm, is_reordering, lemma_index_perm_len, lemma_reordering_prefix,
    lemma_reordering_refl, lemma_reordering_trans, permute,
};

verus! {

/// `a * b`, or `usize::MAX` where the product does not fit.
pub open spec fn saturating_mul(a: usize, b: usize) -> usize {
    if a * b > usize::MAX {
        usize::MAX
    } else {
        (a * b) as usize
    }
}

/// How many of the best-scored posts compete for the slots: at most `max_n`
/// clamped to `4..=48`, at most twice the slate size, at most all posts.
pub open spec fn hungarian_pool_size(len: usize, k: usize, max_n: usize) -> usize {
    let cap = if max_n < 4 {
        4usize
    } else if max_n > 48 {
        48usize
    } else {
        max_n
    };
    let twice = if saturating_mul(k, 2) > k {
        saturating_mul(k, 2)
    } else {
        k
    };
    let a = if len < cap {
        len
    } else {
        cap
    };
    if a < twice {
        a
    } else {
        twice
    }
}

/// How many slots the assignment fills: the slate size, at most the pool size.
pub open spec fn hungarian_slots(len: usize, k: usize, max_n: usize) -> usize {
    let n = hungarian_pool_size(len, k, max_n);
    if k < n {
        k
    } else {
        n
    }
}

/// The pool is the smallest of three bounds: all posts, `max_n` clamped to
/// `4..=48`, and twice the slate size (saturating at `usize::MAX`, never below
/// `k`). So with enough posts and room, exactly `2k` posts compete for the slots.
pub proof fn lemma_hungarian_pool_size(len: usize, k: usize, max_n: usize)
    ensures
        ({
            let r = hungarian_pool_size(len, k, max_n) as int;
            let cap: int = if max_n < 4 {
                4
            } else if max_n > 48 {
                48
            } else {
                max_n as int
            };
            let twice: int = if 2 * k <= usize::MAX {
                2 * k
            } else {
                usize::MAX as int
            };
            &&& r <= len
            &&& r <= cap
            &&& r <= twice
            &&& (r == len || r == cap || r == twice)
        }),
        2 * k <= len && 2 * k <= max_n <= 48 && 4 <= max_n ==> hungarian_pool_size(len, k, max_n)
            == 2 * k,
        hungarian_slots(len, k, max_n) <= k,
        hungarian_slots(len, k, max_n) <= hungarian_pool_size(len, k, max_n),
        hungarian_slots(len, k, max_n) == k || hungarian_slots(len, k, max_n) == hungarian_pool_size(
            len,
            k,
            max_n,
        ),
{
}

/// The last row among the first `m` that the assignment `col` puts in slot `j`.
pub open spec fn last_row_for_slot(col: Seq<usize>, m: nat, j: usize) -> Option<usize>
    decreases m,
{
    if m == 0 {
        None
    } else if col[m - 1] == j {
        Some((m - 1) as usize)
    } else {
        last_row_for_slot(col, (m - 1) as nat, j)
    }
}

/// Slots `0..s` in order, each giving the last row that `col` puts there,
/// a row given once.
pub open spec fn slot_rows(col: Seq<usize>, m: nat, s: nat) -> Seq<usize>
    decreases s,
{
    if s == 0 {
        Seq::empty()
    } else {
        let prev = slot_rows(col, m, (s - 1) as nat);
        match last_row_for_slot(col, m, (s - 1) as usize) {
            Some(i) => if prev.contains(i) {
                prev
            } else {
                prev.push(i)
            },
            None => prev,
        }
    }
}

/// The rows `0..n` that `taken` does not list, in ascending order.
pub open spec fn unused_rows(taken: Seq<usize>, n: nat) -> Seq<usize>
    decreases n,
{
    if n == 0 {
        Seq::empty()
    } else {
        let prev = unused_rows(taken, (n - 1) as nat);
        if taken.contains((n - 1) as usize) {
            prev
        } else {
            prev.push((n - 1) as usize)
        }
    }
}

/// The order of the pool's rows after an assignment `col` of rows to slots:
/// the rows placed in slots `0..slots`, slot by slot, then the other rows in order.
pub open spec fn assignment_order(col: Seq<usize>, pool_len: nat, slots: nat) -> Seq<usize> {
    let m = if col.len() < pool_len {
        col.len()
    } else {
        pool_len
    };
    let t = slot_rows(col, m, slots);
    t + unused_rows(t, pool_len)
}

/// The slate that an assignment `col` gives: the first `n` posts of `sorted` in
/// assignment order, then the other posts in their order.
pub open spec fn hungarian_slate(sorted: Seq<PostCandidate>, n: nat, slots: nat, col: Seq<usize>) -> Seq<
    PostCandidate,
> {
    gathered(sorted.take(n as int), assignment_order(col, n, slots)) + sorted.skip(n as int)
}

proof fn lemma_last_row_for_slot(col: Seq<usize>, m: nat, j: usize)
    requires
        m <= col.len(),
        m <= usize::MAX,
    ensures
        last_row_for_slot(col, m, j) matches Some(i) ==> i < m && col[i as int] == j,
    decreases m,
{
    if m > 0 && col[m - 1] != j {
        lemma_last_row_for_slot(col, (m - 1) as nat, j);
    }
}

proof fn lemma_slot_rows(col: Seq<usize>, m: nat, s: nat)
    requires
        m <= col.len(),
        m <= usize::MAX,
        s <= usize::MAX,
    ensures
        slot_rows(col, m, s).no_duplicates(),
        forall|k: int|
            0 <= k < slot_rows(col, m, s).len() ==> #[trigger] slot_rows(col, m, s)[k] < m,
    decreases s,
{
    if s > 0 {
        lemma_slot_rows(col, m, (s - 1) as nat);
        lemma_last_row_for_slot(col, m, (s - 1) as usize);
        let prev = slot_rows(col, m, (s - 1) as nat);
        match last_row_for_slot(col, m, (s - 1) as usize) {
            Some(i) => {
                if !prev.contains(i) {
                    let cur = prev.push(i);
                    assert forall|a: int, b: int|
                        0 <= a < cur.len() && 0 <= b < cur.len() && a != b implies cur[a]
                        != cur[b] by {
                        if a == prev.len() {
                            assert(cur[b] == prev[b]);
                        } else if b == prev.len() {
                            assert(cur[a] == prev[a]);
                        }
                    }
                }
            },
            None => {},
        }
    }
}

proof fn lemma_unused_rows(taken: Seq<usize>, n: nat)
    requires
        n <= usize::MAX,
    ensures
        unused_rows(taken, n).no_duplicates(),
        forall|k: int|
            0 <= k < unused_rows(taken, n).len() ==> #[trigger] unused_rows(taken, n)[k] < n
                && !taken.contains(unused_rows(taken, n)[k]),
        forall|x: usize| x < n && !taken.contains(x) ==> #[trigger] unused_rows(taken, n).contains(x),
    decreases n,
{
    if n > 0 {
        lemma_unused_rows(taken, (n - 1) as nat);
        let prev = unused_rows(taken, (n - 1) as nat);
        let cur = unused_rows(taken, n);
        if !taken.contains((n - 1) as usize) {
            assert forall|a: int, b: int| 0 <= a < cur.len() && 0 <= b < cur.len() && a != b implies cur[a]
                != cur[b] by {
                if a == prev.len() {
                    assert(cur[b] == prev[b]);
                } else if b == prev.len() {
                    assert(cur[a] == prev[a]);
                }
            }
            assert forall|x: usize| x < n && !taken.contains(x) implies #[trigger] cur.contains(x) by {
                if x < n - 1 {
                    assert(prev.contains(x));
                    let q = choose|q: int| 0 <= q < prev.len() && prev[q] == x;
                    assert(cur[q] == x);
                } else {
                    assert(cur[prev.len() as int] == x);
                }
            }
        }
    }
}

/// The assignment order lists every row of the pool exactly once.
pub proof fn lemma_assignment_order(col: Seq<usize>, pool_len: nat, slots: nat)
    requires
        pool_len <= usize::MAX,
        slots <= usize::MAX,
    ensures
        is_index_perm(assignment_order(col, pool_len, slots), pool_len),
{
    let m = if col.len() < pool_len {
        col.len()
    } else {
        pool_len
    };
    let t = slot_rows(col, m, slots);
    let u = unused_rows(t, pool_len);
    lemma_slot_rows(col, m, slots);
    lemma_unused_rows(t, pool_len);
    let o = t + u;
    assert forall|k: int| 0 <= k < o.len() implies #[trigger] o[k] < pool_len by {
        if k < t.len() {
            assert(o[k] == t[k]);
        } else {
            assert(o[k] == u[k - t.len()]);
        }
    }
    assert(o.no_duplicates()) by {
        assert forall|a: int, b: int| 0 <= a < o.len() && 0 <= b < o.len() && a != b implies o[a]
            != o[b] by {
            if a < t.len() && b >= t.len() {
                assert(o[b] == u[b - t.len()]);
                assert(!t.contains(u[b - t.len()]));
                assert(t.contains(o[a]));
            } else if a >= t.len() && b < t.len() {
                assert(o[a] == u[a - t.len()]);
                assert(!t.contains(u[a - t.len()]));
                assert(t.contains(o[b]));
            } else if a >= t.len() && b >= t.len() {
                assert(o[a] == u[a - t.len()]);
                assert(o[b] == u[b - t.len()]);
            } else {
                assert(o[a] == t[a] && o[b] == t[b]);
            }
        }
    }
    assert forall|x: usize| x < pool_len implies #[trigger] o.contains(x) by {
        if t.contains(x) {
            let q = choose|q: int| 0 <= q < t.len() && t[q] == x;
            assert(o[q] == x);
        } else {
            assert(u.contains(x));
            let q = choose|q: int| 0 <= q < u.len() && u[q] == x;
            assert(o[t.len() + q] == x);
        }
    }
    lemma_index_perm_len(o, pool_len);
}

/// The order in which the rows of a pool of `pool_len` posts fill the slate
/// after the assignment `col_of_row` (row `i` to slot `col_of_row[i]`).
pub fn assignment_row_order(col_of_row: &Vec<usize>, pool_len: usize, slots: usize) -> (order: Vec<usize>)
    ensures
        order@ == assignment_order(col_of_row@, pool_len as nat, slots as nat),
        is_index_perm(order@, pool_len as nat),
{
    let m = if col_of_row.len() < pool_len {
        col_of_row.len()
    } else {
        pool_len
    };
    let mut slot_to_post: Vec<Option<usize>> = Vec::new();
    for j in 0..slots
        invariant
            slot_to_post@.len() == j,
            forall|q: int| 0 <= q < j ==> #[trigger] slot_to_post@[q] == None::<usize>,
    {
        slot_to_post.push(None);
    }
    for i in 0..m
        invariant
            m <= col_of_row.len(),
            slot_to_post@.len() == slots,
            forall|q: int|
                0 <= q < slots ==> #[trigger] slot_to_post@[q] == last_row_for_slot(
                    col_of_row@,
                    i as nat,
                    q as usize,
                ),
    {
        let j = col_of_row[i];
        if j < slots {
            slot_to_post.set(j, Some(i));
        }
    }
    let mut used: Vec<bool> = Vec::new();
    for r in 0..pool_len
        invariant
            used@.len() == r,
            forall|q: int| 0 <= q < r ==> !#[trigger] used@[q],
    {
        used.push(false);
    }
    let mut order: Vec<usize> = Vec::new();
    proof {
        lemma_slot_rows(col_of_row@, m as nat, 0);
    }
    for j in 0..slots
        invariant
            m <= col_of_row.len(),
            m <= pool_len,
            slot_to_post@.len() == slots,
            used@.len() == pool_len,
            forall|q: int|
                0 <= q < slots ==> #[trigger] slot_to_post@[q] == last_row_for_slot(
                    col_of_row@,
                    m as nat,
                    q as usize,
                ),
            order@ == slot_rows(col_of_row@, m as nat, j as nat),
            forall|r: int| 0 <= r < pool_len ==> #[trigger] used@[r] == order@.contains(r as usize),
    {
        proof {
            lemma_last_row_for_slot(col_of_row@, m as nat, j);
        }
        match slot_to_post[j] {
            Some(i) => {
                if !used[i] {
                    let ghost old_order = order@;
                    let ghost old_used = used@;
                    order.push(i);
                    used.set(i, true);
                    assert forall|r: int| 0 <= r < pool_len implies #[trigger] used@[r]
                        == order@.contains(r as usize) by {
                        assert(order@ == old_order.push(i));
                        if r != i {
                            assert(used@[r] == old_used[r]);
                            if order@.contains(r as usize) {
                                let q = choose|q: int| 0 <= q < order@.len() && order@[q] == r as usize;
                                assert(q < old_order.len());
                                assert(old_order[q] == r as usize);
                            }
                            if old_order.contains(r as usize) {
                                let q = choose|q: int|
                                    0 <= q < old_order.len() && old_order[q] == r as usize;
                                assert(order@[q] == r as usize);
                            }
                        } else {
                            assert(order@[order@.len() - 1] == i);
                        }
                    }
                }
            },
            None => {},
        }
    }
    let ghost t = order@;
    proof {
        lemma_slot_rows(col_of_row@, m as nat, slots as nat);
    }
    for r in 0..pool_len
        invariant
            used@.len() == pool_len,
            forall|q: int| 0 <= q < pool_len ==> #[trigger] used@[q] == t.contains(q as usize),
            order@ == t + unused_rows(t, r as nat),
    {
        if !used[r] {
            order.push(r);
        }
        assert(order@ =~= t + unused_rows(t, (r + 1) as nat));
    }
    proof {
        lemma_assignment_order(col_of_row@, pool_len as nat, slots as nat);
    }
    order
}

/// Splits the sorted posts into the pool that competes for slots and the rest.
fn split_pool(sorted: Vec<PostCandidate>, n: usize) -> (r: (Vec<PostCandidate>, Vec<PostCandidate>))
    requires
        n <= sorted@.len(),
    ensures
        r.0@ == sorted@.take(n as int),
        r.1@ == sorted@.skip(n as int),
{
    let mut pool = sorted;
    let rest = pool.split_off(n);
    assert(pool@ =~= sorted@.take(n as int));
    assert(rest@ =~= sorted@.skip(n as int));
    (pool, rest)
}

/// Optimal post-to-slot matching: the best-scored posts form a pool, `solve`
/// assigns the pool's rows to the `min(k, pool)` slots (row `i` to slot
/// `solve(pool, slots)[i]`), the posts it placed fill the slate slot by slot, then
/// the pool's other posts and the rest follow in score order.
pub fn hungarian_assign<F>(candidates: Vec<PostCandidate>, k: usize, max_n: usize, solve: F) -> (ordered:
    Vec<PostCandidate>) where F: Fn(&Vec<PostCandidate>, usize) -> Vec<usize>
    requires
        forall|pool: &Vec<PostCandidate>, slots: usize| #[trigger] solve.requires((pool, slots)),
    ensures
        is_reordering(ordered@, candidates@),
        candidates@.len() <= 1 || k == 0 ==> ordered@ == candidates@,
        !(candidates@.len() <= 1 || k == 0) ==> exists|pool: Vec<PostCandidate>, col: Vec<usize>|
            {
                &&& pool@ == by_score(candidates@).take(
                    hungarian_pool_size(candidates@.len() as usize, k, max_n) as int,
                )
                &&& #[trigger] solve.ensures(
                    (&pool, hungarian_slots(candidates@.len() as usize, k, max_n)),
                    col,
                )
                &&& ordered@ == hungarian_slate(
                    by_score(candidates@),
                    hungarian_pool_size(candidates@.len() as usize, k, max_n) as nat,
                    hungarian_slots(candidates@.len() as usize, k, max_n) as nat,
                    col@,
                )
            },
{
    if candidates.len() <= 1 || k == 0 {
        proof {
            lemma_reordering_refl(candidates@);
        }
        return candidates;
    }
    let ghost input = candidates@;
    let len = candidates.len();
    let sorted = sort_by_score(candidates);
    proof {
        lemma_by_score(input);
    }
    let cap = if max_n < 4 {
        4
    } else if max_n > 48 {
        48
    } else {
        max_n
    };
    let twice = if k <= usize::MAX / 2 {
        k * 2
    } else {
        usize::MAX
    };
    let twice = if twice > k {
        twice
    } else {
        k
    };
    let a = if len < cap {
        len
    } else {
        cap
    };
    let n = if a < twice {
        a
    } else {
        twice
    };
    assert(n == hungarian_pool_size(len, k, max_n));
    let ghost sorted_seq = sorted@;
    let (pool, rest) = split_pool(sorted, n);
    let slots = if k < n {
        k
    } else {
        n
    };
    let ghost pool_val = pool;
    let col_of_row = solve(&pool, slots);
    let order = assignment_row_order(&col_of_row, n, slots);
    let ghost pool_seq = pool@;
    let mut ordered = permute(pool, &order);
    let mut rest = rest;
    ordered.append(&mut rest);
    proof {
        assert(ordered@ == hungarian_slate(sorted_seq, n as nat, slots as nat, col_of_row@));
        lemma_reordering_prefix(sorted_seq, n as nat, assignment_order(col_of_row@, n as nat, slots as nat));
        lemma_reordering_trans(input, sorted_seq, ordered@);
        assert(solve.ensures((&pool_val, slots), col_of_row));
        assert(slots == hungarian_slots(input.len() as usize, k, max_n));
        assert(pool_val@ == by_score(input).take(hungarian_pool_size(input.len() as usize, k, max_n) as int));
        assert(ordered@ == hungarian_slate(by_score(input), hungarian_pool_size(input.len() as usize, k, max_n) as nat,
            hungarian_slots(input.len() as usize, k, max_n) as nat, col_of_row@));
    }
    ordered
}


proof fn lemma_unused_rows_ascending(taken: Seq<usize>, n: nat)
    requires
        n <= usize::MAX,
    ensures
        forall|a: int, b: int|
            0 <= a < b < unused_rows(taken, n).len() ==> #[trigger] unused_rows(taken, n)[a]
                < #[trigger] unused_rows(taken, n)[b],
    decreases n,
{
    if n > 0 {
        lemma_unused_rows_ascending(taken, (n - 1) as nat);
        lemma_unused_rows(taken, (n - 1) as nat);
        let prev = unused_rows(taken, (n - 1) as nat);
        let cur = unused_rows(taken, n);
        if !taken.contains((n - 1) as usize) {
            assert forall|a: int, b: int| 0 <= a < b < cur.len() implies #[trigger] cur[a]
                < #[trigger] cur[b] by {
                if b == prev.len() {
                    assert(cur[a] == prev[a]);
                }
            }
        }
    }
}

/// The remainder keeps score order: after the posts placed in slots, the slate's
/// posts come in descending score.
pub proof fn lemma_hungarian_remainder_in_score_order(
    s: Seq<PostCandidate>,
    n: nat,
    slots: nat,
    col: Seq<usize>,
)
    requires
        n <= s.len() <= usize::MAX,
        slots <= usize::MAX,
    ensures
        ({
            let res = hungarian_slate(by_score(s), n, slots, col);
            let m = if col.len() < n {
                col.len()
            } else {
                n
            };
            let placed = slot_rows(col, m, slots).len();
            forall|a: int, b: int|
                placed <= a < b < s.len() ==> score_key(#[trigger] res[a]) >= score_key(
                    #[trigger] res[b],
                )
        }),
{
    let sorted = by_score(s);
    lemma_by_score(s);
    let m = if col.len() < n {
        col.len()
    } else {
        n
    };
    let t = slot_rows(col, m, slots);
    let u = unused_rows(t, n);
    lemma_assignment_order(col, n, slots);
    lemma_unused_rows(t, n);
    lemma_unused_rows_ascending(t, n);
    let o = assignment_order(col, n, slots);
    let res = hungarian_slate(sorted, n, slots, col);
    let pool = sorted.take(n as int);
    assert(res.len() == s.len());
    // The position in `sorted` that each remainder position of `res` holds.
    assert forall|a: int, b: int| t.len() <= a < b < s.len() implies score_key(#[trigger] res[a])
        >= score_key(#[trigger] res[b]) by {
        let ia: int = if a < n {
            u[a - t.len()] as int
        } else {
            a
        };
        let ib: int = if b < n {
            u[b - t.len()] as int
        } else {
            b
        };
        if a < n {
            assert(o[a] == u[a - t.len()]);
            assert(res[a] == pool[o[a] as int]);
        }
        if b < n {
            assert(o[b] == u[b - t.len()]);
            assert(res[b] == pool[o[b] as int]);
        }
        assert(res[a] == sorted[ia]);
        assert(res[b] == sorted[ib]);
        assert(ia < ib);
    }
}

} // verus!
