use home_mixer::candidate::{is_original, order_key, original_tweet_id, sort_by_score, PostCandidate};
use home_mixer::hungarian::pad_square;
use home_mixer::mmr::mmr_order;
use home_mixer::quota::apply_in_network_quota;
use home_mixer::similarity::similarity;
use home_mixer::slate::{assignment_row_order, hungarian_assign};

fn post(id: u64, author: u64, score: f64, in_network: bool, sids: Option<Vec<i32>>) -> PostCandidate {
    PostCandidate {
        tweet_id: id,
        author_id: author,
        score_bits: Some(score.to_bits()),
        in_network: Some(in_network),
        semantic_ids: sids,
        ..Default::default()
    }
}

fn ids(v: &[PostCandidate]) -> Vec<u64> {
    v.iter().map(|c| c.tweet_id).collect()
}

fn quota_want(k: usize, len: usize, fraction: f64) -> usize {
    ((k.min(len) as f64) * fraction.clamp(0.0, 1.0)).ceil() as usize
}

#[test]
fn quota_pulls_in_network_into_top_k() {
    let posts = vec![
        post(1, 1, 5.0, false, None),
        post(2, 2, 4.0, false, None),
        post(3, 3, 3.0, true, None),
    ];
    let want = quota_want(2, posts.len(), 0.5);
    let ranked = apply_in_network_quota(posts, 2, want);
    assert_eq!(ranked[0].tweet_id, 1);
    assert_eq!(ranked[1].tweet_id, 3);
}

#[test]
fn quota_keeps_score_order_in_top_and_rest() {
    let posts = vec![
        post(1, 1, 5.0, false, None),
        post(2, 2, 4.0, false, None),
        post(3, 3, 3.0, true, None),
        post(4, 4, 2.0, false, None),
        post(5, 5, 1.0, true, None),
    ];
    let want = quota_want(2, posts.len(), 1.0);
    assert_eq!(want, 2);
    let ranked = apply_in_network_quota(posts, 2, want);
    assert_eq!(ids(&ranked), vec![3, 5, 1, 2, 4]);
}

#[test]
fn quota_replaces_lowest_out_of_network_with_best_in_network_below() {
    let posts = vec![
        post(1, 1, 9.0, false, None),
        post(2, 2, 8.0, true, None),
        post(3, 3, 7.0, false, None),
        post(4, 4, 6.0, false, None),
        post(5, 5, 5.0, true, None),
        post(6, 6, 4.0, false, None),
        post(7, 7, 3.0, true, None),
    ];
    // top 4 holds one in-network post; three are wanted; two are available below.
    let ranked = apply_in_network_quota(posts, 4, 3);
    assert_eq!(ids(&ranked), vec![1, 2, 5, 7, 3, 4, 6]);
}

#[test]
fn quota_leaves_order_when_already_met_or_off() {
    let make = || vec![post(1, 1, 3.0, true, None), post(2, 2, 2.0, false, None), post(3, 3, 1.0, true, None)];
    assert_eq!(ids(&apply_in_network_quota(make(), 2, 1)), vec![1, 2, 3]);
    assert_eq!(ids(&apply_in_network_quota(make(), 2, 0)), vec![1, 2, 3]);
    assert_eq!(ids(&apply_in_network_quota(make(), 0, 2)), vec![1, 2, 3]);
    assert_eq!(ids(&apply_in_network_quota(vec![post(1, 1, 1.0, false, None)], 5, 1)), vec![1]);
}

#[test]
fn quota_stops_when_no_in_network_below() {
    let posts = vec![post(1, 1, 3.0, false, None), post(2, 2, 2.0, false, None), post(3, 3, 1.0, false, None)];
    assert_eq!(ids(&apply_in_network_quota(posts, 2, 2)), vec![1, 2, 3]);
}

#[test]
fn pad_square_keeps_values() {
    let p = pad_square(&[vec![5.0, 1.0]], 0.0);
    assert_eq!(p.len(), 2);
    assert_eq!(p[0][0], 5.0);
}

#[test]
fn pad_square_fills_missing_with_zero() {
    let p = pad_square(&[vec![1, 2, 3], vec![4]], 0);
    assert_eq!(p, vec![vec![1, 2, 3], vec![4, 0, 0], vec![0, 0, 0]]);
    let q = pad_square(&[vec![1], vec![2], vec![3]], 9);
    assert_eq!(q, vec![vec![1, 9, 9], vec![2, 9, 9], vec![3, 9, 9]]);
    let e: Vec<Vec<i32>> = pad_square(&[], 0);
    assert!(e.is_empty());
}

#[test]
fn sort_by_score_is_descending_and_stable() {
    let mut unscored = post(5, 5, 0.0, false, None);
    unscored.score_bits = None;
    let posts = vec![
        post(1, 1, 1.0, false, None),
        unscored,
        post(2, 2, 3.0, false, None),
        post(3, 3, 1.0, false, None),
        post(4, 4, -2.5, false, None),
        post(6, 6, f64::INFINITY, false, None),
    ];
    let sorted = sort_by_score(posts);
    assert_eq!(ids(&sorted), vec![6, 2, 1, 3, 4, 5]);
}

#[test]
fn order_key_follows_total_order() {
    let values = [f64::NEG_INFINITY, -1e300, -2.0, -0.0, 0.0, 1e-300, 2.0, f64::INFINITY];
    for w in values.windows(2) {
        assert!(order_key(w[0].to_bits()) < order_key(w[1].to_bits()));
        assert_eq!(
            order_key(w[0].to_bits()).cmp(&order_key(w[1].to_bits())),
            w[0].total_cmp(&w[1])
        );
    }
}

#[test]
fn assignment_row_order_places_slots_then_rest() {
    // rows 0..4, two slots: row 2 in slot 0, row 0 in slot 1.
    assert_eq!(assignment_row_order(&vec![1, 3, 0, 2], 4, 2), vec![2, 0, 1, 3]);
    // a later row put in the same slot wins.
    assert_eq!(assignment_row_order(&vec![0, 0, 1], 3, 2), vec![1, 2, 0]);
    // an assignment shorter than the pool.
    assert_eq!(assignment_row_order(&vec![1], 3, 2), vec![0, 1, 2]);
}

#[test]
fn hungarian_assign_orders_by_assignment() {
    let posts = vec![
        post(1, 1, 1.0, false, None),
        post(2, 2, 3.0, false, None),
        post(3, 3, 2.0, false, None),
    ];
    // sorted: 2, 3, 1; the solver swaps the first two rows.
    let out = hungarian_assign(posts, 2, 10, |pool: &Vec<PostCandidate>, slots: usize| {
        assert_eq!(ids(pool), vec![2, 3, 1]);
        assert_eq!(slots, 2);
        vec![1, 0, 2]
    });
    assert_eq!(ids(&out), vec![3, 2, 1]);
}

#[test]
fn hungarian_assign_pool_is_twice_k_and_rest_keeps_order() {
    let posts: Vec<PostCandidate> = (0..8).map(|i| post(i, i, i as f64, false, None)).collect();
    let out = hungarian_assign(posts, 2, 48, |pool: &Vec<PostCandidate>, slots: usize| {
        assert_eq!(pool.len(), 4);
        assert_eq!(slots, 2);
        vec![3, 2, 1, 0]
    });
    // pool 7, 6, 5, 4: slot 0 gets row 3 (post 4), slot 1 row 2 (post 5).
    assert_eq!(ids(&out), vec![4, 5, 7, 6, 3, 2, 1, 0]);
}

#[test]
fn hungarian_assign_small_inputs_unchanged() {
    let out = hungarian_assign(vec![post(1, 1, 1.0, false, None)], 3, 10, |_p: &Vec<PostCandidate>, _s: usize| vec![]);
    assert_eq!(ids(&out), vec![1]);
    let two = vec![post(1, 1, 1.0, false, None), post(2, 2, 2.0, false, None)];
    let out = hungarian_assign(two, 0, 10, |_p: &Vec<PostCandidate>, _s: usize| vec![]);
    assert_eq!(ids(&out), vec![1, 2]);
}

#[test]
fn hungarian_assign_max_n_is_clamped_to_at_least_four() {
    let posts: Vec<PostCandidate> = (0..10).map(|i| post(i, i, i as f64, false, None)).collect();
    let out = hungarian_assign(posts, 5, 1, |pool: &Vec<PostCandidate>, slots: usize| {
        assert_eq!(pool.len(), 4);
        assert_eq!(slots, 4);
        vec![9, 9, 9, 9]
    });
    assert_eq!(ids(&out), vec![9, 8, 7, 6, 5, 4, 3, 2, 1, 0]);
}

#[test]
fn original_and_repost_ids() {
    let plain = post(10, 1, 0.0, false, None);
    assert!(is_original(&plain));
    assert_eq!(original_tweet_id(&plain), 10);
    let repost = PostCandidate { retweeted_tweet_id: Some(7), ..post(11, 1, 0.0, false, None) };
    assert!(!is_original(&repost));
    assert_eq!(original_tweet_id(&repost), 7);
    let reply = PostCandidate { in_reply_to_tweet_id: Some(3), ..post(12, 1, 0.0, false, None) };
    assert!(!is_original(&reply));
}

fn score(c: &PostCandidate) -> f64 {
    f64::from_bits(c.score_bits.unwrap())
}

fn mmr_pick(lambda: f64) -> impl Fn(&Vec<PostCandidate>, &Vec<PostCandidate>) -> usize {
    move |selected: &Vec<PostCandidate>, left: &Vec<PostCandidate>| {
        let mut best_i = 0;
        let mut best_mmr = f64::NEG_INFINITY;
        let mut best_sim = f64::INFINITY;
        for (i, c) in left.iter().enumerate() {
            let max_sim = selected
                .iter()
                .map(|s| {
                    let r = similarity(c, s);
                    r.num as f64 / r.den as f64
                })
                .fold(0.0_f64, f64::max);
            let mmr = lambda * score(c) - (1.0 - lambda) * max_sim;
            if mmr > best_mmr || (mmr == best_mmr && max_sim < best_sim) {
                best_mmr = mmr;
                best_sim = max_sim;
                best_i = i;
            }
        }
        best_i
    }
}

#[test]
fn mmr_avoids_same_author_when_lambda_allows() {
    let ranked = mmr_order(
        vec![
            post(1, 10, 10.0, true, None),
            post(2, 10, 9.0, true, None),
            post(3, 11, 8.0, true, None),
        ],
        2,
        mmr_pick(0.5),
    );
    assert_eq!(ranked[0].tweet_id, 1);
    assert_eq!(ranked[1].tweet_id, 3);
}

#[test]
fn mmr_order_leads_with_best_score_and_keeps_the_rest_in_score_order() {
    let posts = vec![
        post(4, 4, 2.0, false, None),
        post(1, 1, 9.0, false, None),
        post(3, 3, 5.0, false, None),
        post(5, 5, 1.0, false, None),
        post(2, 2, 7.0, false, None),
    ];
    // The chooser always takes the last post left: 5, then 4.
    let ranked = mmr_order(posts, 3, |_: &Vec<PostCandidate>, left: &Vec<PostCandidate>| left.len() - 1);
    assert_eq!(ids(&ranked), vec![1, 5, 4, 2, 3]);
}

#[test]
fn mmr_order_hands_the_chooser_what_is_chosen_and_left() {
    let posts = vec![post(1, 1, 3.0, false, None), post(2, 2, 2.0, false, None), post(3, 3, 1.0, false, None)];
    let ranked = mmr_order(posts, 3, |chosen: &Vec<PostCandidate>, left: &Vec<PostCandidate>| {
        assert_eq!(chosen.len() + left.len(), 3);
        assert_eq!(chosen[0].tweet_id, 1);
        0
    });
    assert_eq!(ids(&ranked), vec![1, 2, 3]);
}

#[test]
fn mmr_order_leaves_short_lists_and_zero_k_alone() {
    let never = |_: &Vec<PostCandidate>, _: &Vec<PostCandidate>| -> usize { panic!("no pick expected") };
    let posts = vec![post(1, 1, 1.0, false, None), post(2, 2, 2.0, false, None)];
    assert_eq!(ids(&mmr_order(posts, 0, never)), vec![1, 2]);
    assert_eq!(ids(&mmr_order(vec![post(7, 7, 1.0, false, None)], 3, never)), vec![7]);
    let posts = vec![post(1, 1, 1.0, false, None), post(2, 2, 2.0, false, None)];
    assert_eq!(ids(&mmr_order(posts, 1, never)), vec![2, 1]);
}
