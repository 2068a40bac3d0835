use home_mixer::candidate::PostCandidate;
use home_mixer::language::{languages_match, LanguageLockFilter};

fn post(id: u64, in_network: bool, lang: Option<&str>) -> PostCandidate {
    PostCandidate {
        tweet_id: id,
        in_network: Some(in_network),
        language_code: lang.map(str::to_string),
        ..Default::default()
    }
}

#[test]
fn drops_oon_other_language_keeps_follows_and_unknown() {
    let filter = LanguageLockFilter;
    // The viewer's language is "en-US" and the lock is switched on.
    assert!(filter.enable(true, "en-US"));
    let result = filter.filter(
        "en-US",
        vec![
            post(1, true, Some("ja")),
            post(2, false, Some("ja")),
            post(3, false, Some("en")),
            post(4, false, None),
        ],
    );
    let kept: Vec<u64> = result.kept.iter().map(|c| c.tweet_id).collect();
    assert_eq!(kept, vec![1, 3, 4]);
    assert_eq!(result.removed.len(), 1);
    assert_eq!(result.removed[0].tweet_id, 2);
}

#[test]
fn disabled_when_flag_off() {
    let filter = LanguageLockFilter;
    // The viewer's language is "en" and the lock is switched off.
    assert!(!filter.enable(false, "en"));
}

#[test]
fn enable_needs_a_viewer_language() {
    let filter = LanguageLockFilter;
    assert!(filter.enable(true, "en"));
    assert!(!filter.enable(true, ""));
    assert!(!filter.enable(true, "  \t\n"));
}

#[test]
fn languages_match_compares_primary_subtags_ignoring_case() {
    assert!(languages_match("en-US", "en"));
    assert!(languages_match("EN", "en_GB"));
    assert!(languages_match("  pt-BR ", "PT"));
    assert!(!languages_match("en", "ja"));
    assert!(!languages_match("en", "eng"));
    assert!(!languages_match("zh-Hant", "ja-JP"));
}

#[test]
fn languages_match_when_either_side_is_empty() {
    assert!(languages_match("", "ja"));
    assert!(languages_match("en", "   "));
    assert!(languages_match("\u{3000}", "de"));
}

#[test]
fn languages_match_is_symmetric_and_reflexive() {
    let codes = ["en", "en-US", "EN_gb", "ja", "", " fr ", "-", "_x"];
    for a in codes.iter() {
        assert!(languages_match(a, a));
        for b in codes.iter() {
            assert_eq!(languages_match(a, b), languages_match(b, a));
        }
    }
}

#[test]
fn empty_primary_subtags_match_each_other() {
    // "-x" and "_y" both have an empty primary subtag.
    assert!(languages_match("-x", "_y"));
    assert!(!languages_match("-x", "en"));
}

#[test]
fn lock_keeps_in_network_and_partitions_the_rest() {
    let filter = LanguageLockFilter;
    let posts = vec![
        post(1, true, Some("de")),
        post(2, false, Some("DE-at")),
        post(3, false, Some("fr")),
        post(4, false, Some("")),
        post(5, true, None),
        post(6, false, Some("fr-CA")),
    ];
    let result = filter.filter("de", posts);
    let kept: Vec<u64> = result.kept.iter().map(|c| c.tweet_id).collect();
    let removed: Vec<u64> = result.removed.iter().map(|c| c.tweet_id).collect();
    assert_eq!(kept, vec![1, 2, 4, 5]);
    assert_eq!(removed, vec![3, 6]);
}

#[test]
fn unknown_in_network_flag_is_not_in_network() {
    let filter = LanguageLockFilter;
    let c = PostCandidate {
        tweet_id: 9,
        in_network: None,
        language_code: Some("ja".to_string()),
        ..Default::default()
    };
    let result = filter.filter("en", vec![c]);
    assert!(result.kept.is_empty());
    assert_eq!(result.removed[0].tweet_id, 9);
}

#[test]
fn locking_the_kept_posts_again_removes_nothing() {
    let filter = LanguageLockFilter;
    let posts = vec![
        post(1, false, Some("en-GB")),
        post(2, false, Some("pt")),
        post(3, true, Some("pt")),
        post(4, false, None),
    ];
    let first = filter.filter("en", posts);
    let kept: Vec<u64> = first.kept.iter().map(|c| c.tweet_id).collect();
    assert_eq!(kept, vec![1, 3, 4]);
    let second = filter.filter("en", first.kept.clone());
    let again: Vec<u64> = second.kept.iter().map(|c| c.tweet_id).collect();
    assert_eq!(again, kept);
    assert!(second.removed.is_empty());
}
