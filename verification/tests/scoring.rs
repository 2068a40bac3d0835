use home_mixer::candidate::PostCandidate;
use home_mixer::debug::DebugSideEffect;
use home_mixer::diversity::{sid_key, sid_repeat_counts};
use home_mixer::signals::{rare_event_candidate, reciprocal_conversation, reply_farm_candidate};
use home_mixer::similarity::{sid_jaccard, similarity};

fn with_sids(id: u64, sids: Option<Vec<i32>>) -> PostCandidate {
    PostCandidate { tweet_id: id, semantic_ids: sids, ..Default::default() }
}

fn diversity_multiplier(count: Option<u32>, decay: f64, floor: f64) -> f64 {
    match count {
        Some(k) => (1.0 - floor) * decay.powf(f64::from(k)) + floor,
        None => 1.0,
    }
}

#[test]
fn sid_diversity_decays_later_same_prefix() {
    let a = PostCandidate { tweet_id: 1, semantic_ids: Some(vec![7, 8, 9]), ..Default::default() };
    let b = PostCandidate { tweet_id: 2, semantic_ids: Some(vec![7, 8, 1]), ..Default::default() };
    let scores = vec![2.0f64, 1.0];
    let bits: Vec<u64> = scores.iter().map(|s| s.to_bits()).collect();
    let counts = sid_repeat_counts(&[a, b], &bits);
    assert_eq!(counts, vec![Some(0), Some(1)]);
    let m: Vec<f64> = counts.iter().map(|c| diversity_multiplier(*c, 0.5, 0.25)).collect();
    assert!((m[0] - 1.0).abs() < 1e-12);
    let expected = 0.75 * 0.5 + 0.25;
    assert!((m[1] - expected).abs() < 1e-12);
}

#[test]
fn sid_repeat_counts_follow_score_order_and_ties() {
    let posts = vec![
        with_sids(1, Some(vec![1, 2])),
        with_sids(2, Some(vec![1, 2, 3])),
        with_sids(3, None),
        with_sids(4, Some(vec![1])),
        with_sids(5, Some(vec![1, 0])),
        with_sids(6, Some(vec![1, 2])),
    ];
    // scores: post 6 best, then 1 and 2 tied (1 first), then 4, 5, 3.
    let scores = [1.0f64, 1.0, -1.0, 0.5, 0.25, 9.0];
    let bits: Vec<u64> = scores.iter().map(|s| s.to_bits()).collect();
    let counts = sid_repeat_counts(&posts, &bits);
    assert_eq!(counts, vec![Some(1), Some(2), None, Some(0), Some(1), Some(0)]);
}

#[test]
fn sid_key_takes_first_two_ids() {
    assert_eq!(sid_key(&with_sids(1, Some(vec![4, 5, 6]))), Some((4, 5)));
    assert_eq!(sid_key(&with_sids(1, Some(vec![4]))), Some((4, 0)));
    assert_eq!(sid_key(&with_sids(1, Some(vec![]))), None);
    assert_eq!(sid_key(&with_sids(1, None)), None);
    assert_eq!(sid_key(&with_sids(1, Some(vec![i32::MIN, i32::MAX]))), Some((i32::MIN, i32::MAX)));
}

#[test]
fn sid_jaccard_counts_overlap_over_union() {
    let a = with_sids(1, Some(vec![1, 2, 3]));
    let b = with_sids(2, Some(vec![2, 3, 4, 5]));
    let r = sid_jaccard(&a, &b);
    assert_eq!((r.num, r.den), (2, 5));
    let none = with_sids(3, None);
    let r = sid_jaccard(&a, &none);
    assert_eq!((r.num, r.den), (0, 1));
    let empty = with_sids(4, Some(vec![]));
    let r = sid_jaccard(&empty, &a);
    assert_eq!((r.num, r.den), (0, 1));
    // repeated ids count each time
    let dup = with_sids(5, Some(vec![2, 2]));
    let r = sid_jaccard(&dup, &b);
    assert_eq!((r.num, r.den), (2, 4));
}

#[test]
fn similarity_same_author_or_original() {
    let a = PostCandidate { tweet_id: 1, author_id: 10, ..Default::default() };
    let b = PostCandidate { tweet_id: 2, author_id: 10, ..Default::default() };
    let r = similarity(&a, &b);
    assert_eq!((r.num, r.den), (1, 1));
    let c = PostCandidate { tweet_id: 3, author_id: 11, retweeted_tweet_id: Some(1), ..Default::default() };
    let r = similarity(&a, &c);
    assert_eq!((r.num, r.den), (1, 1));
    let d = PostCandidate { tweet_id: 4, author_id: 12, semantic_ids: Some(vec![1]), ..Default::default() };
    let e = PostCandidate { tweet_id: 5, author_id: 13, semantic_ids: Some(vec![1, 2]), ..Default::default() };
    let r = similarity(&d, &e);
    assert_eq!((r.num, r.den), (1, 2));
    // author 0 is unknown, not shared
    let f = PostCandidate { tweet_id: 6, author_id: 0, ..Default::default() };
    let g = PostCandidate { tweet_id: 7, author_id: 0, ..Default::default() };
    let r = similarity(&f, &g);
    assert_eq!((r.num, r.den), (0, 1));
}

#[test]
fn debug_line_lists_posts() {
    let side = DebugSideEffect;
    let a = PostCandidate { tweet_id: 12, author_id: 0, ..Default::default() };
    let b = PostCandidate {
        tweet_id: 18446744073709551615,
        author_id: 1090,
        score_explain: Some("score=1.0000".to_string()),
        ..Default::default()
    };
    assert_eq!(
        side.debug_line(42, &[a, b]),
        "debug_side_effect: viewer=42 [post=12 author=0, post=18446744073709551615 author=1090 explain=score=1.0000]"
    );
    assert_eq!(side.debug_line(7, &[]), "debug_side_effect: viewer=7 []");
}

#[test]
fn traces_only_listed_viewers() {
    let side = DebugSideEffect;
    assert!(side.traces(&[3, 5, 8], 5));
    assert!(!side.traces(&[3, 5, 8], 4));
    assert!(!side.traces(&[], 4));
}

#[test]
fn reply_farm_gate_spares_in_network_and_originals() {
    let in_net = PostCandidate { in_network: Some(true), in_reply_to_tweet_id: Some(1), ..Default::default() };
    assert!(!reply_farm_candidate(&in_net));
    let original = PostCandidate { in_network: Some(false), ..Default::default() };
    assert!(!reply_farm_candidate(&original));
    let quote = PostCandidate { in_network: Some(false), quoted_tweet_id: Some(9), ..Default::default() };
    assert!(reply_farm_candidate(&quote));
    let reply = PostCandidate { in_reply_to_tweet_id: Some(9), ..Default::default() };
    assert!(reply_farm_candidate(&reply));
}

#[test]
fn reciprocal_needs_in_network_original_conversation() {
    let mutual = PostCandidate { in_network: Some(true), is_mutual_follow_author: Some(true), ..Default::default() };
    assert!(reciprocal_conversation(&mutual));
    let replied = PostCandidate { in_network: Some(true), following_replied_user_ids: vec![4], ..Default::default() };
    assert!(reciprocal_conversation(&replied));
    let quiet = PostCandidate { in_network: Some(true), ..Default::default() };
    assert!(!reciprocal_conversation(&quiet));
    let stranger = PostCandidate { in_network: Some(false), is_mutual_follow_author: Some(true), ..Default::default() };
    assert!(!reciprocal_conversation(&stranger));
    let repost = PostCandidate {
        in_network: Some(true),
        is_mutual_follow_author: Some(true),
        retweeted_tweet_id: Some(2),
        ..Default::default()
    };
    assert!(!reciprocal_conversation(&repost));
}

#[test]
fn rare_events_need_original_unquoted_posts() {
    assert!(rare_event_candidate(&PostCandidate::default()));
    let reply = PostCandidate { in_reply_to_tweet_id: Some(1), ..Default::default() };
    assert!(!rare_event_candidate(&reply));
    let quote = PostCandidate { quoted_tweet_id: Some(1), ..Default::default() };
    assert!(!rare_event_candidate(&quote));
}

#[test]
fn a_post_is_fully_similar_to_itself() {
    let a = PostCandidate { tweet_id: 3, author_id: 0, semantic_ids: Some(vec![1, 2]), ..Default::default() };
    let r = similarity(&a, &a);
    assert_eq!((r.num, r.den), (1, 1));
}

#[test]
fn sid_jaccard_is_set_jaccard_and_symmetric() {
    // {1, 2, 3, 4} and {3, 4, 5}: two shared ids out of five distinct ones.
    let a = with_sids(1, Some(vec![4, 1, 3, 2]));
    let b = with_sids(2, Some(vec![5, 3, 4]));
    let ab = sid_jaccard(&a, &b);
    let ba = sid_jaccard(&b, &a);
    assert_eq!((ab.num, ab.den), (2, 5));
    assert_eq!((ba.num, ba.den), (2, 5));
    let same = sid_jaccard(&a, &a);
    assert_eq!((same.num, same.den), (4, 4));
}
