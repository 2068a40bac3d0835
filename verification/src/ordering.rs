//! Stable descending order by integer keys, and moving items into a given order.
use vstd::prelude::*;

verus! {

/// `order` lists every index below `n` exactly once.
pub open spec fn is_index_perm(order: Seq<usize>, n: nat) -> bool {
    &&& order.len() == n
    &&& order.no_duplicates()
    &&& forall|k: int| 0 <= k < order.len() ==> #[trigger] order[k] < n
}

/// The items of `items` picked at the positions that `order` lists, in that order.
pub open spec fn gathered<T>(items: Seq<T>, order: Seq<usize>) -> Seq<T> {
    order.map_values(|i: usize| items[i as int])
}

/// `out` holds the items of `inp`, each exactly once, in some order.
pub open spec fn is_reordering<T>(out: Seq<T>, inp: Seq<T>) -> bool {
    exists|p: Seq<usize>| is_index_perm(p, inp.len()) && #[trigger] gathered(inp, p) == out
}

/// The position in `order` of the first index whose key is below the key of `i`
/// (the length of `order` when there is none).
pub open spec fn first_below(order: Seq<usize>, keys: Seq<i64>, i: usize) -> nat
    decreases order.len(),
{
    if order.len() == 0 {
        0
    } else if keys[order[0] as int] < keys[i as int] {
        0
    } else {
        1 + first_below(order.drop_first(), keys, i)
    }
}

/// Inserts index `i` just before the first index with a smaller key, so that indices
/// whose key equals that of `i` stay ahead of it.
pub open spec fn insert_by_key(order: Seq<usize>, keys: Seq<i64>, i: usize) -> Seq<usize> {
    order.insert(first_below(order, keys, i) as int, i)
}

/// The indices `0..n` ordered by descending key, equal keys in ascending index order:
/// what a stable sort by descending key makes of them.
pub open spec fn desc_order(keys: Seq<i64>, n: nat) -> Seq<usize>
    decreases n,
{
    if n == 0 {
        Seq::empty()
    } else {
        insert_by_key(desc_order(keys, (n - 1) as nat), keys, (n - 1) as usize)
    }
}

/// Keys never increase along `order`, and equal keys appear in ascending index order.
pub open spec fn stably_descending(order: Seq<usize>, keys: Seq<i64>) -> bool {
    forall|a: int, b: int|
        0 <= a < b < order.len() ==> {
            ||| keys[#[trigger] order[a] as int] > keys[#[trigger] order[b] as int]
            ||| (keys[order[a] as int] == keys[order[b] as int] && order[a] < order[b])
        }
}

proof fn lemma_first_below(order: Seq<usize>, keys: Seq<i64>, i: usize)
    ensures
        first_below(order, keys, i) <= order.len(),
        forall|q: int|
            0 <= q < first_below(order, keys, i) ==> keys[#[trigger] order[q] as int]
                >= keys[i as int],
        first_below(order, keys, i) < order.len() ==> keys[order[first_below(
            order,
            keys,
            i,
        ) as int] as int] < keys[i as int],
    decreases order.len(),
{
    if order.len() > 0 && keys[order[0] as int] >= keys[i as int] {
        lemma_first_below(order.drop_first(), keys, i);
        assert forall|q: int| 0 <= q < first_below(order, keys, i) implies keys[#[trigger] order[q] as int]
            >= keys[i as int] by {
            if q > 0 {
                assert(order[q] == order.drop_first()[q - 1]);
            }
        }
    }
}

/// A position with the defining properties of `first_below` is `first_below`.
proof fn lemma_first_below_unique(order: Seq<usize>, keys: Seq<i64>, i: usize, p: nat)
    requires
        p <= order.len(),
        forall|q: int| 0 <= q < p ==> keys[#[trigger] order[q] as int] >= keys[i as int],
        p < order.len() ==> keys[order[p as int] as int] < keys[i as int],
    ensures
        p == first_below(order, keys, i),
{
    lemma_first_below(order, keys, i);
    let f = first_below(order, keys, i);
    if p < f {
        assert(keys[order[p as int] as int] >= keys[i as int]);
    } else if f < p {
        assert(keys[order[f as int] as int] >= keys[i as int]);
    }
}

/// A sequence of distinct indices below `n` that names every index below `n` has length `n`.
pub proof fn lemma_index_perm_len(order: Seq<usize>, n: nat)
    requires
        n <= usize::MAX,
        order.no_duplicates(),
        forall|k: int| 0 <= k < order.len() ==> #[trigger] order[k] < n,
        forall|x: usize| x < n ==> #[trigger] order.contains(x),
    ensures
        order.len() == n,
    decreases n,
{
    if n == 0 {
        if order.len() > 0 {
            assert(order[0] < n);
        }
    } else {
        let last = (n - 1) as usize;
        assert(order.contains(last));
        let p = choose|p: int| 0 <= p < order.len() && order[p] == last;
        let rest = order.remove(p);
        assert forall|k: int| 0 <= k < rest.len() implies #[trigger] rest[k] < (n - 1) as nat by {
            if k < p {
                assert(rest[k] == order[k]);
            } else {
                assert(rest[k] == order[k + 1]);
            }
        }
        assert forall|x: usize| x < (n - 1) as nat implies #[trigger] rest.contains(x) by {
            assert(order.contains(x));
            let q = choose|q: int| 0 <= q < order.len() && order[q] == x;
            if q < p {
                assert(rest[q] == x);
            } else {
                assert(q != p);
                assert(rest[q - 1] == x);
            }
        }
        assert(rest.no_duplicates()) by {
            assert forall|a: int, b: int| 0 <= a < rest.len() && 0 <= b < rest.len() && a != b implies rest[a]
                != rest[b] by {
                let oa = if a < p { a } else { a + 1 };
                let ob = if b < p { b } else { b + 1 };
                assert(rest[a] == order[oa]);
                assert(rest[b] == order[ob]);
            }
        }
        lemma_index_perm_len(rest, (n - 1) as nat);
    }
}

/// The order `desc_order` lists each index once and is a stable descending order.
pub proof fn lemma_desc_order(keys: Seq<i64>, n: nat)
    requires
        n <= keys.len(),
        n <= usize::MAX,
    ensures
        is_index_perm(desc_order(keys, n), n),
        stably_descending(desc_order(keys, n), keys),
    decreases n,
{
    if n > 0 {
        let prev = desc_order(keys, (n - 1) as nat);
        lemma_desc_order(keys, (n - 1) as nat);
        let i = (n - 1) as usize;
        let p = first_below(prev, keys, i) as int;
        lemma_first_below(prev, keys, i);
        let cur = desc_order(keys, n);
        assert(cur == prev.insert(p, i));
        assert forall|k: int| 0 <= k < cur.len() implies #[trigger] cur[k] < n by {
            if k < p {
                assert(cur[k] == prev[k]);
            } else if k > p {
                assert(cur[k] == prev[k - 1]);
            }
        }
        assert(cur.no_duplicates()) by {
            assert forall|a: int, b: int| 0 <= a < cur.len() && 0 <= b < cur.len() && a != b implies cur[a]
                != cur[b] by {
                if a != p && b != p {
                    let pa = if a < p { a } else { a - 1 };
                    let pb = if b < p { b } else { b - 1 };
                    assert(cur[a] == prev[pa]);
                    assert(cur[b] == prev[pb]);
                } else if a == p {
                    let pb = if b < p { b } else { b - 1 };
                    assert(cur[b] == prev[pb]);
                    assert(prev[pb] < i);
                } else {
                    let pa = if a < p { a } else { a - 1 };
                    assert(cur[a] == prev[pa]);
                    assert(prev[pa] < i);
                }
            }
        }
        assert forall|a: int, b: int| 0 <= a < b < cur.len() implies {
            ||| keys[#[trigger] cur[a] as int] > keys[#[trigger] cur[b] as int]
            ||| (keys[cur[a] as int] == keys[cur[b] as int] && cur[a] < cur[b])
        } by {
            if b < p {
                assert(cur[a] == prev[a] && cur[b] == prev[b]);
            } else if a > p {
                assert(cur[a] == prev[a - 1] && cur[b] == prev[b - 1]);
            } else if a < p && b > p {
                assert(cur[a] == prev[a] && cur[b] == prev[b - 1]);
            } else if a == p {
                assert(cur[b] == prev[b - 1]);
                assert(keys[prev[p] as int] < keys[i as int]);
                if b - 1 > p {
                    assert(keys[prev[p] as int] >= keys[prev[b - 1] as int]);
                }
            } else {
                assert(b == p);
                assert(cur[a] == prev[a]);
                assert(prev[a] < i);
            }
        }
    }
}

fn first_below_exec(order: &Vec<usize>, keys: &Vec<i64>, i: usize) -> (p: usize)
    requires
        i < keys.len(),
        forall|k: int| 0 <= k < order.len() ==> #[trigger] order[k] < keys.len(),
    ensures
        p == first_below(order@, keys@, i),
{
    let mut p: usize = 0;
    let mut found = false;
    while !found && p < order.len()
        invariant
            i < keys.len(),
            p <= order.len(),
            forall|k: int| 0 <= k < order.len() ==> #[trigger] order[k] < keys.len(),
            forall|q: int| 0 <= q < p ==> keys@[#[trigger] order@[q] as int] >= keys@[i as int],
            found ==> p < order.len() && keys@[order@[p as int] as int] < keys@[i as int],
        decreases order.len() - p + (if found { 0int } else { 1int }),
    {
        if keys[order[p]] < keys[i] {
            found = true;
        } else {
            p = p + 1;
        }
    }
    proof {
        lemma_first_below_unique(order@, keys@, i, p as nat);
    }
    p
}

/// The indices of `keys` ordered by descending key, equal keys in ascending index order.
pub fn stable_desc_order(keys: &Vec<i64>) -> (order: Vec<usize>)
    ensures
        order@ == desc_order(keys@, keys@.len()),
        is_index_perm(order@, keys@.len()),
        stably_descending(order@, keys@),
{
    let n = keys.len();
    let mut order: Vec<usize> = Vec::new();
    for i in 0..n
        invariant
            n == keys.len(),
            order@ == desc_order(keys@, i as nat),
    {
        proof {
            lemma_desc_order(keys@, i as nat);
            lemma_first_below(order@, keys@, i);
        }
        let p = first_below_exec(&order, keys, i);
        order.insert(p, i);
    }
    proof {
        lemma_desc_order(keys@, n as nat);
    }
    order
}

/// Moves the items into the order that `order` lists.
pub fn permute<T>(items: Vec<T>, order: &Vec<usize>) -> (out: Vec<T>)
    requires
        is_index_perm(order@, items@.len()),
    ensures
        out@ == gathered(items@, order@),
{
    let ghost orig = items@;
    let n = items.len();
    let mut items = items;
    let mut cells: Vec<Option<T>> = Vec::new();
    while items.len() > 0
        invariant
            n == orig.len(),
            cells.len() + items.len() == n,
            items@ == orig.take(items.len() as int),
            forall|j: int| 0 <= j < cells.len() ==> #[trigger] cells@[j] == Some(orig[n - 1 - j]),
        decreases items.len(),
    {
        let x = items.pop().unwrap();
        cells.push(Some(x));
        assert(items@ =~= orig.take(items.len() as int));
    }
    let mut out: Vec<T> = Vec::new();
    for k in 0..n
        invariant
            n == orig.len(),
            is_index_perm(order@, n as nat),
            cells.len() == n,
            out@.len() == k,
            forall|a: int| 0 <= a < k ==> #[trigger] out@[a] == orig[order@[a] as int],
            forall|j: int|
                0 <= j < n && (forall|a: int| 0 <= a < k ==> #[trigger] order@[a] != n - 1 - j)
                    ==> #[trigger] cells@[j] == Some(orig[n - 1 - j]),
    {
        let j = n - 1 - order[k];
        assert(forall|a: int| 0 <= a < k ==> #[trigger] order@[a] != n - 1 - j);
        let cell = cells.remove(j);
        cells.insert(j, None);
        let x = cell.unwrap();
        out.push(x);
        assert forall|jj: int|
            0 <= jj < n && (forall|a: int| 0 <= a < k + 1 ==> #[trigger] order@[a] != n - 1 - jj)
                implies #[trigger] cells@[jj] == Some(orig[n - 1 - jj]) by {
            assert(order@[k as int] != n - 1 - jj);
        }
    }
    assert(out@ =~= gathered(orig, order@));
    out
}


/// Every sequence is a reordering of itself.
pub proof fn lemma_reordering_refl<T>(s: Seq<T>)
    requires
        s.len() <= usize::MAX,
    ensures
        is_reordering(s, s),
{
    let p = Seq::new(s.len(), |i: int| i as usize);
    assert(gathered(s, p) =~= s);
    assert(is_index_perm(p, s.len()));
}

/// A reordering of a reordering is a reordering.
pub proof fn lemma_reordering_trans<T>(a: Seq<T>, b: Seq<T>, c: Seq<T>)
    requires
        is_reordering(b, a),
        is_reordering(c, b),
    ensures
        is_reordering(c, a),
{
    let p = choose|p: Seq<usize>| is_index_perm(p, a.len()) && #[trigger] gathered(a, p) == b;
    let q = choose|q: Seq<usize>| is_index_perm(q, b.len()) && #[trigger] gathered(b, q) == c;
    let r = q.map_values(|x: usize| p[x as int]);
    assert forall|k: int| 0 <= k < r.len() implies #[trigger] r[k] < a.len() by {
        assert(r[k] == p[q[k] as int]);
    }
    assert(r.no_duplicates()) by {
        assert forall|x: int, y: int| 0 <= x < r.len() && 0 <= y < r.len() && x != y implies r[x]
            != r[y] by {
            assert(r[x] == p[q[x] as int]);
            assert(r[y] == p[q[y] as int]);
        }
    }
    assert(gathered(a, r) =~= c);
    assert(is_index_perm(r, a.len()));
}

/// Reordering the first `n` items and keeping the rest in place reorders the whole.
pub proof fn lemma_reordering_prefix<T>(s: Seq<T>, n: nat, o: Seq<usize>)
    requires
        n <= s.len(),
        s.len() <= usize::MAX,
        is_index_perm(o, n),
    ensures
        is_reordering(gathered(s.take(n as int), o) + s.skip(n as int), s),
{
    let tail = Seq::new((s.len() - n) as nat, |i: int| (n + i) as usize);
    let q = o + tail;
    assert forall|k: int| 0 <= k < q.len() implies #[trigger] q[k] < s.len() by {
        if k >= o.len() {
            assert(q[k] == tail[k - o.len()]);
        }
    }
    assert(q.no_duplicates()) by {
        assert forall|x: int, y: int| 0 <= x < q.len() && 0 <= y < q.len() && x != y implies q[x]
            != q[y] by {
            if x < o.len() && y >= o.len() {
                assert(q[y] == tail[y - o.len()]);
                assert(o[x] < n);
            } else if x >= o.len() && y < o.len() {
                assert(q[x] == tail[x - o.len()]);
                assert(o[y] < n);
            } else if x >= o.len() && y >= o.len() {
                assert(q[x] == tail[x - o.len()]);
                assert(q[y] == tail[y - o.len()]);
            } else {
                assert(q[x] == o[x] && q[y] == o[y]);
            }
        }
    }
    assert(is_index_perm(q, s.len()));
    assert(gathered(s, q) =~= gathered(s.take(n as int), o) + s.skip(n as int)) by {
        assert forall|k: int| 0 <= k < q.len() implies #[trigger] gathered(s, q)[k] == (gathered(
            s.take(n as int),
            o,
        ) + s.skip(n as int))[k] by {
            if k < o.len() {
                assert(q[k] == o[k]);
                assert(o[k] < n);
            } else {
                assert(q[k] == tail[k - o.len()]);
            }
        }
    }
}

} // verus!
