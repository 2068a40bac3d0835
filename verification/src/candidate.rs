//! The post candidate that the mixer ranks, and its score order.
use vstd::prelude::*;
use crate::ordering::{
    desc_order, gathered, is_index_perm, is_reordering, lemma_desc_order, permute,
    stable_desc_order, stably_descending,
};

verus! {

/// A post that the mixer ranks, with the plain values that the logic reads.
///
/// `score_bits` holds the ranking score as the bits of an IEEE-754 double
/// (`f64::to_bits`); the logic only orders posts by it.
#[derive(Clone, Debug)]
pub struct PostCandidate {
    pub tweet_id: u64,
    pub author_id: u64,
    pub score_bits: Option<u64>,
    pub in_network: Option<bool>,
    pub language_code: Option<String>,
    pub semantic_ids: Option<Vec<i32>>,
    pub in_reply_to_tweet_id: Option<u64>,
    pub retweeted_tweet_id: Option<u64>,
    pub quoted_tweet_id: Option<u64>,
    pub view_count: Option<u64>,
    pub reply_count: Option<i64>,
    pub repost_count: Option<i64>,
    pub quote_count: Option<i64>,
    pub fav_count: Option<i64>,
    pub is_mutual_follow_author: Option<bool>,
    pub following_replied_user_ids: Vec<u64>,
    pub score_explain: Option<String>,
}

impl Default for PostCandidate {
    fn default() -> (c: Self)
        ensures
            c.tweet_id == 0 && c.author_id == 0,
            c.score_bits is None && c.in_network is None && c.language_code is None,
            c.semantic_ids is None && c.in_reply_to_tweet_id is None,
            c.retweeted_tweet_id is None && c.quoted_tweet_id is None,
            c.view_count is None && c.reply_count is None && c.repost_count is None,
            c.quote_count is None && c.fav_count is None && c.is_mutual_follow_author is None,
            c.following_replied_user_ids@.len() == 0 && c.score_explain is None,
    {
        PostCandidate {
            tweet_id: 0,
            author_id: 0,
            score_bits: None,
            in_network: None,
            language_code: None,
            semantic_ids: None,
            in_reply_to_tweet_id: None,
            retweeted_tweet_id: None,
            quoted_tweet_id: None,
            view_count: None,
            reply_count: None,
            repost_count: None,
            quote_count: None,
            fav_count: None,
            is_mutual_follow_author: None,
            following_replied_user_ids: Vec::new(),
            score_explain: None,
        }
    }
}

/// An original post: neither a reply nor a repost.
pub open spec fn spec_is_original(c: PostCandidate) -> bool {
    c.in_reply_to_tweet_id is None && c.retweeted_tweet_id is None
}

/// True when the post is neither a reply nor a repost.
pub fn is_original(candidate: &PostCandidate) -> (r: bool)
    ensures
        r == spec_is_original(*candidate),
{
    candidate.in_reply_to_tweet_id.is_none() && candidate.retweeted_tweet_id.is_none()
}

/// The post is in the viewer's network (`in_network == Some(true)`).
pub open spec fn spec_in_network(c: PostCandidate) -> bool {
    c.in_network == Some(true)
}

/// True when the post is known to come from the viewer's network.
pub fn in_network(candidate: &PostCandidate) -> (r: bool)
    ensures
        r == spec_in_network(*candidate),
{
    match candidate.in_network {
        Some(b) => b,
        None => false,
    }
}

/// The id of the post that this one reposts, or its own id.
pub open spec fn spec_original_tweet_id(c: PostCandidate) -> u64 {
    match c.retweeted_tweet_id {
        Some(id) => id,
        None => c.tweet_id,
    }
}

/// The id of the post that this one reposts, or its own id when it is no repost.
pub fn original_tweet_id(candidate: &PostCandidate) -> (id: u64)
    ensures
        id == spec_original_tweet_id(*candidate),
{
    match candidate.retweeted_tweet_id {
        Some(id) => id,
        None => candidate.tweet_id,
    }
}

/// The bits of negative infinity, the score that a post without one ranks by.
pub const NEG_INFINITY_BITS: u64 = 0xfff0_0000_0000_0000u64;

/// The IEEE-754 total order on doubles, as an integer key of their bits:
/// keys compare as the doubles do under `f64::total_cmp`.
pub open spec fn total_order_key(bits: u64) -> i64 {
    if bits < 0x8000_0000_0000_0000u64 {
        bits as i64
    } else {
        (0x7fff_ffff_ffff_ffffint - bits) as i64
    }
}

/// The IEEE-754 total order (`f64::total_cmp`) on doubles given by their bits:
/// a clear sign bit ranks above a set one; with the sign clear, larger bits are
/// larger doubles; with it set, larger bits are smaller (more negative) doubles.
pub open spec fn total_cmp_less(x: u64, y: u64) -> bool {
    let neg_x = x >= 0x8000_0000_0000_0000u64;
    let neg_y = y >= 0x8000_0000_0000_0000u64;
    if !neg_x && !neg_y {
        x < y
    } else if neg_x && neg_y {
        y < x
    } else {
        neg_x
    }
}

/// The key orders doubles exactly as the total order does: strictly monotone, so
/// distinct bit patterns get distinct keys.
pub proof fn lemma_total_order_key_monotone(x: u64, y: u64)
    ensures
        total_cmp_less(x, y) <==> total_order_key(x) < total_order_key(y),
        x != y ==> total_order_key(x) != total_order_key(y),
        x == y || total_cmp_less(x, y) || total_cmp_less(y, x),
{
}

/// The total-order key of a double given by its bits.
pub fn order_key(bits: u64) -> (k: i64)
    ensures
        k == total_order_key(bits),
{
    if bits < 0x8000_0000_0000_0000u64 {
        bits as i64
    } else {
        let m = (bits - 0x8000_0000_0000_0000u64) as i64;
        -m - 1
    }
}

/// The key by which a post ranks: its score, or negative infinity without one.
pub open spec fn score_key(c: PostCandidate) -> i64 {
    match c.score_bits {
        Some(b) => total_order_key(b),
        None => total_order_key(NEG_INFINITY_BITS),
    }
}

/// The ranking keys of a sequence of posts.
pub open spec fn score_keys(s: Seq<PostCandidate>) -> Seq<i64> {
    s.map_values(|c: PostCandidate| score_key(c))
}

/// The posts in descending score order, posts with equal scores in their given
/// order: what a stable sort by descending score makes of them.
pub open spec fn by_score(s: Seq<PostCandidate>) -> Seq<PostCandidate> {
    gathered(s, desc_order(score_keys(s), s.len()))
}

/// The ranking key of one post.
pub fn candidate_score_key(candidate: &PostCandidate) -> (k: i64)
    ensures
        k == score_key(*candidate),
{
    match candidate.score_bits {
        Some(b) => order_key(b),
        None => order_key(NEG_INFINITY_BITS),
    }
}

/// Sorts posts by descending score; posts with equal scores keep their order.
pub fn sort_by_score(candidates: Vec<PostCandidate>) -> (sorted: Vec<PostCandidate>)
    ensures
        sorted@ == by_score(candidates@),
{
    let n = candidates.len();
    let mut keys: Vec<i64> = Vec::new();
    for i in 0..n
        invariant
            n == candidates.len(),
            keys@.len() == i,
            forall|j: int| 0 <= j < i ==> #[trigger] keys@[j] == score_key(candidates@[j]),
    {
        let k = candidate_score_key(&candidates[i]);
        keys.push(k);
    }
    assert(keys@ =~= score_keys(candidates@));
    let order = stable_desc_order(&keys);
    permute(candidates, &order)
}

/// Sorting by score only reorders: every post stays, once, and keys never
/// increase along the result, equal keys keeping their given order.
pub proof fn lemma_by_score(s: Seq<PostCandidate>)
    requires
        s.len() <= usize::MAX,
    ensures
        is_reordering(by_score(s), s),
        by_score(s).len() == s.len(),
        forall|a: int, b: int|
            0 <= a < b < s.len() ==> score_key(#[trigger] by_score(s)[a]) >= score_key(
                #[trigger] by_score(s)[b],
            ),
        stably_descending(desc_order(score_keys(s), s.len()), score_keys(s)),
{
    let o = desc_order(score_keys(s), s.len());
    lemma_desc_order(score_keys(s), s.len());
    assert(is_index_perm(o, s.len()));
    assert(gathered(s, o) == by_score(s));
    assert forall|a: int, b: int| 0 <= a < b < s.len() implies score_key(
        #[trigger] by_score(s)[a],
    ) >= score_key(#[trigger] by_score(s)[b]) by {
        assert(by_score(s)[a] == s[o[a] as int]);
        assert(by_score(s)[b] == s[o[b] as int]);
        assert(score_keys(s)[o[a] as int] == score_key(s[o[a] as int]));
        assert(score_keys(s)[o[b] as int] == score_key(s[o[b] as int]));
    }
}

} // verus!
