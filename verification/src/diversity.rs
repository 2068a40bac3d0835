//! Semantic-id diversity: how often a post's semantic-id prefix has already
//! appeared among better-scored posts.
use vstd::prelude::*;
use std::collections::HashMap;
use crate::candidate::{order_key, total_order_key, PostCandidate};
use crate::ordering::{desc_order, is_index_perm, stable_desc_order};

verus! {

broadcast use vstd::std_specs::hash::group_hash_axioms;

/// The semantic-id prefix of a post: its first two ids, its only id followed by
/// 0, or none when it has no ids.
pub open spec fn spec_sid_key(c: PostCandidate) -> Option<(i32, i32)> {
    match c.semantic_ids {
        Some(ids) => if ids@.len() >= 2 {
            Some((ids@[0], ids@[1]))
        } else if ids@.len() == 1 {
            Some((ids@[0], 0i32))
        } else {
            None
        },
        None => None,
    }
}

/// The semantic-id prefix of a post.
pub fn sid_key(candidate: &PostCandidate) -> (r: Option<(i32, i32)>)
    ensures
        r == spec_sid_key(*candidate),
{
    match &candidate.semantic_ids {
        Some(ids) => {
            if ids.len() >= 2 {
                Some((ids[0], ids[1]))
            } else if ids.len() == 1 {
                Some((ids[0], 0))
            } else {
                None
            }
        },
        None => None,
    }
}

/// Two posts with at least two semantic ids share a prefix exactly when their
/// first ids agree and their second ids agree; a post without ids has none.
pub proof fn lemma_sid_key_prefix(a: PostCandidate, b: PostCandidate)
    ensures
        a.semantic_ids is None ==> spec_sid_key(a) is None,
        (a.semantic_ids matches Some(x) && x@.len() == 0) ==> spec_sid_key(a) is None,
        (a.semantic_ids matches Some(x) && x@.len() >= 1) ==> spec_sid_key(a) is Some,
        a.semantic_ids is Some && b.semantic_ids is Some && a.semantic_ids.unwrap()@.len() >= 2
            && b.semantic_ids.unwrap()@.len() >= 2 ==> (spec_sid_key(a) == spec_sid_key(b) <==> (
            a.semantic_ids.unwrap()@[0] == b.semantic_ids.unwrap()@[0] && a.semantic_ids.unwrap()@[1]
                == b.semantic_ids.unwrap()@[1])),
{
}

/// Among the posts at positions `0..p` of `order`, how many have the prefix `key`.
pub open spec fn same_key_before(
    keys: Seq<Option<(i32, i32)>>,
    order: Seq<usize>,
    p: nat,
    key: (i32, i32),
) -> nat
    decreases p,
{
    if p == 0 {
        0
    } else {
        same_key_before(keys, order, (p - 1) as nat, key) + if keys[order[p - 1] as int] == Some(
            key,
        ) {
            1nat
        } else {
            0nat
        }
    }
}

/// The semantic-id prefixes of a sequence of posts.
pub open spec fn sid_keys(s: Seq<PostCandidate>) -> Seq<Option<(i32, i32)>> {
    s.map_values(|c: PostCandidate| spec_sid_key(c))
}

/// The score keys of the first `n` scores given as bits.
pub open spec fn bits_keys(bits: Seq<u64>, n: nat) -> Seq<i64> {
    Seq::new(n, |i: int| total_order_key(bits[i]))
}

/// For the post at position `p` of the score order, how many posts ranked above it
/// share its prefix; none when it has no prefix.
pub open spec fn repeat_count_at(
    keys: Seq<Option<(i32, i32)>>,
    order: Seq<usize>,
    p: int,
) -> Option<u32> {
    match keys[order[p] as int] {
        Some(key) => Some(same_key_before(keys, order, p as nat, key) as u32),
        None => None,
    }
}

/// A prefix as one 64-bit number: each id shifted to be non-negative, the first
/// in the high half.
pub open spec fn sid_code(key: (i32, i32)) -> u64 {
    ((key.0 as int + 0x8000_0000) * 0x1_0000_0000 + (key.1 as int + 0x8000_0000)) as u64
}

proof fn lemma_sid_code_injective(a: (i32, i32), b: (i32, i32))
    ensures
        sid_code(a) == sid_code(b) ==> a == b,
        0 <= (a.0 as int + 0x8000_0000) * 0x1_0000_0000 + (a.1 as int + 0x8000_0000) <= u64::MAX,
{
    let x1 = a.0 as int + 0x8000_0000;
    let y1 = a.1 as int + 0x8000_0000;
    let x2 = b.0 as int + 0x8000_0000;
    let y2 = b.1 as int + 0x8000_0000;
    assert(0 <= x1 * 0x1_0000_0000 + y1 <= u64::MAX) by (nonlinear_arith)
        requires
            0 <= x1 < 0x1_0000_0000,
            0 <= y1 < 0x1_0000_0000,
    ;
    assert(0 <= x2 * 0x1_0000_0000 + y2 <= u64::MAX) by (nonlinear_arith)
        requires
            0 <= x2 < 0x1_0000_0000,
            0 <= y2 < 0x1_0000_0000,
    ;
    if x1 * 0x1_0000_0000 + y1 == x2 * 0x1_0000_0000 + y2 {
        assert(x1 == x2 && y1 == y2) by (nonlinear_arith)
            requires
                0 <= x1 < 0x1_0000_0000,
                0 <= y1 < 0x1_0000_0000,
                0 <= x2 < 0x1_0000_0000,
                0 <= y2 < 0x1_0000_0000,
                x1 * 0x1_0000_0000 + y1 == x2 * 0x1_0000_0000 + y2,
        ;
    }
}

fn code_of(key: (i32, i32)) -> (c: u64)
    ensures
        c == sid_code(key),
{
    proof {
        lemma_sid_code_injective(key, key);
    }
    let hi = (key.0 as i64 + 0x8000_0000) as u64;
    let lo = (key.1 as i64 + 0x8000_0000) as u64;
    assert(hi * 0x1_0000_0000 <= u64::MAX - lo) by (nonlinear_arith)
        requires
            hi < 0x1_0000_0000,
            lo < 0x1_0000_0000,
    ;
    hi * 0x1_0000_0000 + lo
}

proof fn lemma_same_key_before_bound(
    keys: Seq<Option<(i32, i32)>>,
    order: Seq<usize>,
    p: nat,
    key: (i32, i32),
)
    ensures
        same_key_before(keys, order, p, key) <= p,
    decreases p,
{
    if p > 0 {
        lemma_same_key_before_bound(keys, order, (p - 1) as nat, key);
    }
}

/// For each post, how many posts with the same semantic-id prefix rank above it
/// when posts are ordered by descending score (`score_bits[i]` the bits of post
/// `i`'s score), earlier posts first on equal scores; none for posts without a
/// prefix.
pub fn sid_repeat_counts(candidates: &[PostCandidate], score_bits: &[u64]) -> (counts: Vec<
    Option<u32>,
>)
    requires
        candidates@.len() <= score_bits@.len(),
        candidates@.len() <= u32::MAX,
    ensures
        counts@.len() == candidates@.len(),
        forall|p: int|
            0 <= p < candidates@.len() ==> counts@[#[trigger] desc_order(
                bits_keys(score_bits@, candidates@.len()),
                candidates@.len(),
            )[p] as int] == repeat_count_at(
                sid_keys(candidates@),
                desc_order(bits_keys(score_bits@, candidates@.len()), candidates@.len()),
                p,
            ),
{
    let n = candidates.len();
    let mut keys: Vec<i64> = Vec::new();
    let mut sids: Vec<Option<(i32, i32)>> = Vec::new();
    let mut counts: Vec<Option<u32>> = Vec::new();
    for i in 0..n
        invariant
            n == candidates@.len(),
            n <= score_bits@.len(),
            keys@.len() == i,
            sids@.len() == i,
            counts@.len() == i,
            forall|j: int| 0 <= j < i ==> #[trigger] keys@[j] == total_order_key(score_bits@[j]),
            forall|j: int| 0 <= j < i ==> #[trigger] sids@[j] == spec_sid_key(candidates@[j]),
            forall|j: int| 0 <= j < i ==> #[trigger] counts@[j] == None::<u32>,
    {
        keys.push(order_key(score_bits[i]));
        sids.push(sid_key(&candidates[i]));
        counts.push(None);
    }
    let ghost sk = sid_keys(candidates@);
    assert(keys@ =~= bits_keys(score_bits@, n as nat));
    assert(sids@ =~= sk);
    let order = stable_desc_order(&keys);
    let ghost o = order@;
    let mut seen: HashMap<u64, u32> = HashMap::new();
    for p in 0..n
        invariant
            n == candidates@.len(),
            n <= u32::MAX,
            is_index_perm(o, n as nat),
            order@ == o,
            sids@ == sk,
            sk.len() == n,
            counts@.len() == n,
            forall|key: (i32, i32)|
                #![trigger seen@.contains_key(sid_code(key))]
                seen@.contains_key(sid_code(key)) <==> same_key_before(sk, o, p as nat, key) > 0,
            forall|key: (i32, i32)|
                #![trigger seen@[sid_code(key)]]
                seen@.contains_key(sid_code(key)) ==> seen@[sid_code(key)] == same_key_before(
                    sk,
                    o,
                    p as nat,
                    key,
                ) - 1,
            forall|q: int| 0 <= q < p ==> counts@[#[trigger] o[q] as int] == repeat_count_at(sk, o, q),
            forall|i: int|
                0 <= i < n && (forall|q: int| 0 <= q < p ==> #[trigger] o[q] != i) ==> counts@[i]
                    == None::<u32>,
    {
        let i = order[p];
        let ghost before = counts@;
        match sids[i] {
            None => {},
            Some(key) => {
                let code = code_of(key);
                let k: u32 = match seen.get(&code) {
                    Some(c) => {
                        proof {
                            lemma_same_key_before_bound(sk, o, p as nat, key);
                            assert(seen@.contains_key(sid_code(key)));
                            assert(*c == seen@[sid_code(key)]);
                        }
                        let k = *c + 1;
                        seen.insert(code, k);
                        k
                    },
                    None => {
                        seen.insert(code, 0);
                        0
                    },
                };
                counts.set(i, Some(k));
            },
        }
        proof {
            assert forall|key: (i32, i32)|
                #![trigger seen@.contains_key(sid_code(key))]
                seen@.contains_key(sid_code(key)) <==> same_key_before(sk, o, (p + 1) as nat, key)
                    > 0 by {
                if let Some(k2) = sk[i as int] {
                    lemma_sid_code_injective(key, k2);
                }
            }
            assert forall|key: (i32, i32)|
                #![trigger seen@[sid_code(key)]]
                seen@.contains_key(sid_code(key)) implies seen@[sid_code(key)] == same_key_before(
                    sk,
                    o,
                    (p + 1) as nat,
                    key,
                ) - 1 by {
                if let Some(k2) = sk[i as int] {
                    lemma_sid_code_injective(key, k2);
                }
            }
            assert forall|q: int| 0 <= q < p + 1 implies counts@[#[trigger] o[q] as int]
                == repeat_count_at(sk, o, q) by {
                if q < p {
                    assert(o[q] != o[p as int]);
                }
            }
            assert forall|ii: int|
                0 <= ii < n && (forall|q: int| 0 <= q < p + 1 ==> #[trigger] o[q] != ii) implies counts@[ii]
                == None::<u32> by {
                assert(o[p as int] != ii);
            }
        }
    }
    counts
}


/// Later posts with the same prefix count more repeats: of two posts sharing a
/// prefix, the one lower in the score order has the strictly larger count.
pub proof fn lemma_repeat_counts_increase(
    keys: Seq<Option<(i32, i32)>>,
    order: Seq<usize>,
    p: int,
    q: int,
    key: (i32, i32),
)
    requires
        0 <= p < q <= order.len(),
        keys[order[p] as int] == Some(key),
    ensures
        same_key_before(keys, order, p as nat, key) < same_key_before(keys, order, q as nat, key),
    decreases q - p,
{
    if q > p + 1 {
        lemma_repeat_counts_increase(keys, order, p, q - 1, key);
    }
}

} // verus!
