use oasis_simulation::config::{
    choose_recsys, parse_platform, parse_recsys, split_csv, Platform, RecSysKind,
};

#[test]
fn platforms_parse() {
    assert_eq!(parse_platform("x"), Ok(Platform::X));
    assert_eq!(parse_platform(" Twitter "), Ok(Platform::X));
    assert_eq!(parse_platform("REDDIT"), Ok(Platform::Reddit));
    assert_eq!(
        parse_platform("mastodon"),
        Err("不正なプラットフォーム: \"mastodon\" (x / reddit)".to_string())
    );
}

#[test]
fn recommenders_parse() {
    assert_eq!(parse_recsys("interest"), Ok(RecSysKind::Interest));
    assert_eq!(parse_recsys("X"), Ok(RecSysKind::Interest));
    assert_eq!(parse_recsys("hot_score"), Ok(RecSysKind::HotScore));
    assert_eq!(parse_recsys("HotScore"), Ok(RecSysKind::HotScore));
    assert_eq!(parse_recsys("reddit"), Ok(RecSysKind::HotScore));
    assert_eq!(parse_recsys("off"), Ok(RecSysKind::Off));
    assert_eq!(parse_recsys(" ablation"), Ok(RecSysKind::Off));
    assert_eq!(
        parse_recsys("random"),
        Err("不正な推薦器種別: \"random\" (interest / hot-score / none)".to_string())
    );
}

#[test]
fn setting_labels_parse_back() {
    for p in [Platform::X, Platform::Reddit] {
        assert_eq!(parse_platform(p.label()), Ok(p));
    }
    for k in [RecSysKind::Interest, RecSysKind::HotScore, RecSysKind::Off] {
        assert_eq!(parse_recsys(k.label()), Ok(k));
    }
    assert_eq!(RecSysKind::Off.label(), "none");
    assert_eq!(RecSysKind::HotScore.label(), "hot-score");
}

#[test]
fn platform_defaults() {
    assert_eq!(RecSysKind::default_for(Platform::X), RecSysKind::Interest);
    assert_eq!(RecSysKind::default_for(Platform::Reddit), RecSysKind::HotScore);
    assert_eq!(choose_recsys(Platform::Reddit, None), Ok(RecSysKind::HotScore));
    assert_eq!(choose_recsys(Platform::Reddit, Some("none")), Ok(RecSysKind::Off));
    assert!(choose_recsys(Platform::X, Some("?")).is_err());
}

#[test]
fn csv_items_are_trimmed_and_non_empty() {
    assert_eq!(split_csv(" 200, 1000 ,,"), vec!["200".to_string(), "1000".to_string()]);
    assert!(split_csv("").is_empty());
    assert!(split_csv(" , ").is_empty());
    assert_eq!(split_csv("a"), vec!["a".to_string()]);
}
