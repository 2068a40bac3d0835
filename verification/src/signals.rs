//! The shape conditions under which the score multipliers and the rare-event
//! score look at a post at all.
use vstd::prelude::*;
use crate::candidate::{in_network, is_original, spec_in_network, spec_is_original, PostCandidate};

verus! {

/// A post the reply-farm gate may tax: out of network, and a reply or a quote.
pub open spec fn spec_reply_farm_candidate(c: PostCandidate) -> bool {
    !spec_in_network(c) && (c.in_reply_to_tweet_id is Some || c.quoted_tweet_id is Some)
}

/// Whether the reply-farm gate looks at the post's reply and like counts: only
/// for out-of-network replies and quotes.
pub fn reply_farm_candidate(candidate: &PostCandidate) -> (r: bool)
    ensures
        r == spec_reply_farm_candidate(*candidate),
{
    if in_network(candidate) {
        return false;
    }
    candidate.in_reply_to_tweet_id.is_some() || candidate.quoted_tweet_id.is_some()
}

/// A reciprocal conversation: an in-network original post (no reply, no repost)
/// whose author follows the viewer back or that people the viewer follows replied to.
pub open spec fn spec_reciprocal_conversation(c: PostCandidate) -> bool {
    &&& spec_in_network(c)
    &&& c.in_reply_to_tweet_id is None
    &&& c.retweeted_tweet_id is None
    &&& (c.is_mutual_follow_author == Some(true) || c.following_replied_user_ids@.len() > 0)
}

/// Whether the reciprocal-conversation boost applies to the post.
pub fn reciprocal_conversation(candidate: &PostCandidate) -> (r: bool)
    ensures
        r == spec_reciprocal_conversation(*candidate),
{
    if !in_network(candidate) {
        return false;
    }
    if candidate.in_reply_to_tweet_id.is_some() || candidate.retweeted_tweet_id.is_some() {
        return false;
    }
    let mutual = match candidate.is_mutual_follow_author {
        Some(b) => b,
        None => false,
    };
    mutual || candidate.following_replied_user_ids.len() > 0
}

/// A post that may be a rare event: original, and not quoting another post.
pub open spec fn spec_rare_event_candidate(c: PostCandidate) -> bool {
    spec_is_original(c) && c.quoted_tweet_id is None
}

/// Whether the rare-event score looks at the post's age and engagement: only for
/// original posts that quote nothing.
pub fn rare_event_candidate(candidate: &PostCandidate) -> (r: bool)
    ensures
        r == spec_rare_event_candidate(*candidate),
{
    is_original(candidate) && candidate.quoted_tweet_id.is_none()
}

/// Which posts each shape condition admits, in terms of the post's fields: the
/// reply-farm gate looks only at out-of-network replies and quotes; the
/// reciprocal boost only at in-network posts that are neither replies nor reposts,
/// by a mutual follow or replied to by people the viewer follows; the rare-event
/// score only at posts that are neither replies, reposts nor quotes.
pub proof fn lemma_signal_shapes(c: PostCandidate)
    ensures
        spec_reply_farm_candidate(c) <==> (c.in_network != Some(true) && (c.in_reply_to_tweet_id is Some
            || c.quoted_tweet_id is Some)),
        spec_reciprocal_conversation(c) ==> c.in_network == Some(true)
            && c.in_reply_to_tweet_id is None && c.retweeted_tweet_id is None,
        c.in_reply_to_tweet_id is Some || c.retweeted_tweet_id is Some
            ==> !spec_reciprocal_conversation(c),
        c.in_network == Some(true) && c.in_reply_to_tweet_id is None && c.retweeted_tweet_id is None
            ==> (spec_reciprocal_conversation(c) <==> (c.is_mutual_follow_author == Some(true)
            || c.following_replied_user_ids@.len() > 0)),
        spec_rare_event_candidate(c) <==> (c.retweeted_tweet_id is None && c.in_reply_to_tweet_id is None
            && c.quoted_tweet_id is None),
        spec_is_original(c) <==> (c.retweeted_tweet_id is None && c.in_reply_to_tweet_id is None),
{
}

} // verus!
