//! How alike two posts are: same author, same original post, or shared semantic ids.
use vstd::prelude::*;
use crate::candidate::{original_tweet_id, spec_original_tweet_id, PostCandidate};

verus! {

/// The fraction `num / den`, kept exact.
#[derive(Clone, Copy, Debug)]
pub struct Ratio {
    pub num: usize,
    pub den: usize,
}

/// How many ids of `a` (counted with repetition) occur in `b`.
pub open spec fn overlap(a: Seq<i32>, b: Seq<i32>) -> nat
    decreases a.len(),
{
    if a.len() == 0 {
        0
    } else {
        overlap(a.drop_last(), b) + if b.contains(a.last()) {
            1nat
        } else {
            0nat
        }
    }
}

/// The number of semantic ids a post carries.
pub open spec fn sid_len(c: PostCandidate) -> nat {
    match c.semantic_ids {
        Some(ids) => ids@.len(),
        None => 0,
    }
}

/// Jaccard similarity of the posts' semantic ids, as `overlap / union` with
/// `union = |a| + |b| - overlap`; `0 / 1` when either has no ids.
pub open spec fn spec_sid_jaccard(a: PostCandidate, b: PostCandidate) -> (nat, nat) {
    match (a.semantic_ids, b.semantic_ids) {
        (Some(sa), Some(sb)) => if sa@.len() == 0 || sb@.len() == 0 {
            (0, 1)
        } else {
            let o = overlap(sa@, sb@);
            let u = sa@.len() + sb@.len() - o;
            if u == 0 {
                (0, 1)
            } else {
                (o, u as nat)
            }
        },
        _ => (0, 1),
    }
}

/// Similarity of two posts: `1 / 1` for the same (non-zero) author or the same
/// original post, else the Jaccard similarity of their semantic ids.
pub open spec fn spec_similarity(a: PostCandidate, b: PostCandidate) -> (nat, nat) {
    if a.author_id != 0 && a.author_id == b.author_id {
        (1, 1)
    } else if spec_original_tweet_id(a) == spec_original_tweet_id(b) {
        (1, 1)
    } else {
        spec_sid_jaccard(a, b)
    }
}

proof fn lemma_overlap_bound(a: Seq<i32>, b: Seq<i32>)
    ensures
        overlap(a, b) <= a.len(),
    decreases a.len(),
{
    if a.len() > 0 {
        lemma_overlap_bound(a.drop_last(), b);
    }
}

fn contains_id(ids: &Vec<i32>, x: i32) -> (r: bool)
    ensures
        r == ids@.contains(x),
{
    for i in 0..ids.len()
        invariant
            forall|j: int| 0 <= j < i ==> ids@[j] != x,
    {
        if ids[i] == x {
            return true;
        }
    }
    false
}

/// Jaccard similarity of the posts' semantic ids as an exact fraction.
pub fn sid_jaccard(a: &PostCandidate, b: &PostCandidate) -> (r: Ratio)
    requires
        sid_len(*a) + sid_len(*b) <= usize::MAX,
    ensures
        (r.num as nat, r.den as nat) == spec_sid_jaccard(*a, *b),
        r.den > 0,
{
    let sa = match &a.semantic_ids {
        Some(v) => v,
        None => {
            return Ratio { num: 0, den: 1 };
        },
    };
    let sb = match &b.semantic_ids {
        Some(v) => v,
        None => {
            return Ratio { num: 0, den: 1 };
        },
    };
    if sa.len() == 0 || sb.len() == 0 {
        return Ratio { num: 0, den: 1 };
    }
    let mut count: usize = 0;
    for i in 0..sa.len()
        invariant
            count == overlap(sa@.take(i as int), sb@),
            count <= i,
    {
        proof {
            assert(sa@.take(i + 1).drop_last() =~= sa@.take(i as int));
        }
        if contains_id(sb, sa[i]) {
            count = count + 1;
        }
    }
    assert(sa@.take(sa@.len() as int) =~= sa@);
    let union = (sa.len() - count) + sb.len();
    if union == 0 {
        Ratio { num: 0, den: 1 }
    } else {
        Ratio { num: count, den: union }
    }
}

/// How alike two posts are, as an exact fraction.
pub fn similarity(a: &PostCandidate, b: &PostCandidate) -> (r: Ratio)
    requires
        sid_len(*a) + sid_len(*b) <= usize::MAX,
    ensures
        (r.num as nat, r.den as nat) == spec_similarity(*a, *b),
        r.den > 0,
{
    if a.author_id != 0 && a.author_id == b.author_id {
        return Ratio { num: 1, den: 1 };
    }
    if original_tweet_id(a) == original_tweet_id(b) {
        return Ratio { num: 1, den: 1 };
    }
    sid_jaccard(a, b)
}

/// Posts by the same (known) author, or standing for the same original post (two
/// reposts of one post, or a post and a repost of it), are fully similar.
pub proof fn lemma_same_author_or_original_fully_similar(a: PostCandidate, b: PostCandidate)
    ensures
        a.author_id != 0 && a.author_id == b.author_id ==> spec_similarity(a, b) == (1nat, 1nat),
        spec_original_tweet_id(a) == spec_original_tweet_id(b) ==> spec_similarity(a, b) == (
            1nat,
            1nat,
        ),
        a.retweeted_tweet_id is Some && a.retweeted_tweet_id == b.retweeted_tweet_id
            ==> spec_similarity(a, b) == (1nat, 1nat),
        a.retweeted_tweet_id is None && b.retweeted_tweet_id == Some(a.tweet_id) ==> spec_similarity(
            a,
            b,
        ) == (1nat, 1nat),
        a.tweet_id == b.tweet_id && a.retweeted_tweet_id is None && b.retweeted_tweet_id is None
            ==> spec_similarity(a, b) == (1nat, 1nat),
{
}

/// A post is fully similar to itself.
pub proof fn lemma_similarity_reflexive(a: PostCandidate)
    ensures
        spec_similarity(a, a) == (1nat, 1nat),
{
}

/// When the first post's ids are distinct, the Jaccard similarity is at most one.
pub proof fn lemma_sid_jaccard_at_most_one(a: PostCandidate, b: PostCandidate)
    requires
        a.semantic_ids matches Some(sa) && sa@.no_duplicates(),
    ensures
        spec_sid_jaccard(a, b).0 <= spec_sid_jaccard(a, b).1,
        spec_sid_jaccard(a, b).1 > 0,
{
    match (a.semantic_ids, b.semantic_ids) {
        (Some(sa), Some(sb)) => {
            if sa@.len() > 0 && sb@.len() > 0 {
                lemma_overlap_bound(sa@, sb@);
                lemma_overlap_le_other(sa@, sb@);
            }
        },
        _ => {},
    }
}

/// The set of semantic ids a post carries (empty when it has none).
pub open spec fn sid_set(c: PostCandidate) -> Set<i32> {
    match c.semantic_ids {
        Some(ids) => ids@.to_set(),
        None => Set::empty(),
    }
}

/// For two posts whose semantic ids are present, non-empty and free of repeats, the
/// Jaccard similarity is the size of the intersection of their id sets over the size
/// of their union, and it does not depend on the order of the two posts.
pub proof fn lemma_sid_jaccard_is_set_jaccard(a: PostCandidate, b: PostCandidate)
    requires
        a.semantic_ids matches Some(sa) && sa@.len() > 0 && sa@.no_duplicates(),
        b.semantic_ids matches Some(sb) && sb@.len() > 0 && sb@.no_duplicates(),
    ensures
        spec_sid_jaccard(a, b).0 == sid_set(a).intersect(sid_set(b)).len(),
        spec_sid_jaccard(a, b).1 == sid_set(a).union(sid_set(b)).len(),
        spec_sid_jaccard(a, b) == spec_sid_jaccard(b, a),
{
    let sa = a.semantic_ids.unwrap()@;
    let sb = b.semantic_ids.unwrap()@;
    lemma_overlap_is_common_set(sa, sb);
    lemma_overlap_is_common_set(sb, sa);
    assert(sb.to_set().intersect(sa.to_set()) =~= sa.to_set().intersect(sb.to_set()));
    assert(sb.to_set().union(sa.to_set()) =~= sa.to_set().union(sb.to_set()));
    sa.unique_seq_to_set();
    sb.unique_seq_to_set();
    broadcast use vstd::seq_lib::seq_to_set_is_finite;
    vstd::set_lib::lemma_set_intersect_union_lens(sa.to_set(), sb.to_set());
    assert(sa.to_set() + sb.to_set() == sa.to_set().union(sb.to_set()));
    vstd::set_lib::lemma_len_union_ind(sa.to_set(), sb.to_set());
}

/// For distinct ids, the overlap counts the ids the two sequences share.
proof fn lemma_overlap_is_common_set(a: Seq<i32>, b: Seq<i32>)
    requires
        a.no_duplicates(),
    ensures
        overlap(a, b) == a.to_set().intersect(b.to_set()).len(),
{
    let p = |x: i32| b.contains(x);
    let common = a.filter(p);
    lemma_overlap_is_filter_len(a, b);
    lemma_filter_no_dup(a, p);
    common.unique_seq_to_set();
    assert(common.to_set() =~= a.to_set().intersect(b.to_set())) by {
        assert forall|x: i32| common.to_set().contains(x) implies a.to_set().intersect(
            b.to_set(),
        ).contains(x) by {
            let q = choose|q: int| 0 <= q < common.len() && common[q] == x;
            a.lemma_filter_pred(p, q);
            a.lemma_filter_contains_rev(p, x);
        }
        assert forall|x: i32| a.to_set().intersect(b.to_set()).contains(x) implies common.to_set().contains(
            x,
        ) by {
            let q = choose|q: int| 0 <= q < a.len() && a[q] == x;
            a.lemma_filter_contains(p, q);
        }
    }
}

/// Distinct ids of `a` that occur in `b` are at most as many as `b` has.
proof fn lemma_overlap_le_other(a: Seq<i32>, b: Seq<i32>)
    requires
        a.no_duplicates(),
    ensures
        overlap(a, b) <= b.len(),
{
    let common = a.filter(|x: i32| b.contains(x));
    lemma_overlap_is_filter_len(a, b);
    assert(common.no_duplicates()) by {
        lemma_filter_no_dup(a, |x: i32| b.contains(x));
    }
    common.unique_seq_to_set();
    assert(common.to_set().subset_of(b.to_set())) by {
        assert forall|x: i32| common.to_set().contains(x) implies b.to_set().contains(x) by {
            assert(common.contains(x));
            let q = choose|q: int| 0 <= q < common.len() && common[q] == x;
            broadcast use vstd::seq_lib::group_filter_ensures;
            assert(b.contains(common[q]));
        }
    }
    b.lemma_cardinality_of_set();
    vstd::set_lib::lemma_len_subset(common.to_set(), b.to_set());
}

proof fn lemma_overlap_is_filter_len(a: Seq<i32>, b: Seq<i32>)
    ensures
        overlap(a, b) == a.filter(|x: i32| b.contains(x)).len(),
    decreases a.len(),
{
    reveal_with_fuel(Seq::<_>::filter, 1);
    if a.len() > 0 {
        lemma_overlap_is_filter_len(a.drop_last(), b);
    }
}

proof fn lemma_filter_within(a: Seq<i32>, p: spec_fn(i32) -> bool)
    ensures
        forall|i: int| 0 <= i < a.filter(p).len() ==> a.contains(#[trigger] a.filter(p)[i]),
    decreases a.len(),
{
    reveal_with_fuel(Seq::<_>::filter, 1);
    if a.len() > 0 {
        let init = a.drop_last();
        lemma_filter_within(init, p);
        let f = a.filter(p);
        assert forall|i: int| 0 <= i < f.len() implies a.contains(#[trigger] f[i]) by {
            if i < init.filter(p).len() {
                assert(f[i] == init.filter(p)[i]);
                assert(init.contains(f[i]));
                let q = choose|q: int| 0 <= q < init.len() && init[q] == f[i];
                assert(a[q] == f[i]);
            } else {
                assert(f[i] == a.last());
                assert(a[a.len() - 1] == f[i]);
            }
        }
    }
}

proof fn lemma_filter_no_dup(a: Seq<i32>, p: spec_fn(i32) -> bool)
    requires
        a.no_duplicates(),
    ensures
        a.filter(p).no_duplicates(),
    decreases a.len(),
{
    reveal_with_fuel(Seq::<_>::filter, 1);
    if a.len() > 0 {
        let init = a.drop_last();
        assert(init.no_duplicates()) by {
            assert forall|i: int, j: int| 0 <= i < init.len() && 0 <= j < init.len() && i != j implies init[i]
                != init[j] by {
                assert(init[i] == a[i] && init[j] == a[j]);
            }
        }
        lemma_filter_no_dup(init, p);
        lemma_filter_within(init, p);
        let f = init.filter(p);
        if p(a.last()) {
            assert forall|i: int, j: int|
                0 <= i < f.push(a.last()).len() && 0 <= j < f.push(a.last()).len() && i != j implies f.push(
                a.last(),
            )[i] != f.push(a.last())[j] by {
                if i == f.len() && j < f.len() {
                    assert(init.contains(f[j]));
                    let q = choose|q: int| 0 <= q < init.len() && init[q] == f[j];
                    assert(a[q] == f[j]);
                    assert(a[a.len() - 1] == a.last());
                } else if j == f.len() && i < f.len() {
                    assert(init.contains(f[i]));
                    let q = choose|q: int| 0 <= q < init.len() && init[q] == f[i];
                    assert(a[q] == f[i]);
                    assert(a[a.len() - 1] == a.last());
                }
            }
        }
    }
}

} // verus!
