use oasis_simulation::parse::{parse_action, ActionKind};

#[test]
fn parses_post() {
    let t = "THOUGHT: I want to share.\nACTION: post\nTARGET: -\nCONTENT: Nuclear energy is safe.";
    let d = parse_action(t);
    assert_eq!(d.kind, ActionKind::Post);
    assert_eq!(d.target, None);
    assert_eq!(d.content.as_deref(), Some("Nuclear energy is safe."));
}

#[test]
fn parses_repost_with_target() {
    let t = "ACTION: repost\nTARGET: [3]\nCONTENT: -";
    let d = parse_action(t);
    assert_eq!(d.kind, ActionKind::Repost);
    assert_eq!(d.target, Some(3));
    assert_eq!(d.content, None);
}

#[test]
fn unknown_action_is_none() {
    let d = parse_action("ACTION: ponder\nTARGET: -");
    assert_eq!(d.kind, ActionKind::Idle);
}

#[test]
fn case_insensitive_keys() {
    let d = parse_action("action: like\ntarget: 2");
    assert_eq!(d.kind, ActionKind::Like);
    assert_eq!(d.target, Some(2));
}

#[test]
fn synonyms_name_the_same_kind() {
    assert_eq!(ActionKind::parse(" Tweet "), ActionKind::Post);
    assert_eq!(ActionKind::parse("RETWEET"), ActionKind::Repost);
    assert_eq!(ActionKind::parse("share"), ActionKind::Repost);
    assert_eq!(ActionKind::parse("upvote"), ActionKind::Like);
    assert_eq!(ActionKind::parse("follow"), ActionKind::Follow);
    assert_eq!(ActionKind::parse("sleep"), ActionKind::Idle);
}

#[test]
fn action_labels_parse_back() {
    for k in [
        ActionKind::Post,
        ActionKind::Repost,
        ActionKind::Like,
        ActionKind::Follow,
        ActionKind::Idle,
    ] {
        assert_eq!(ActionKind::parse(k.label()), k);
    }
    assert_eq!(ActionKind::Idle.label(), "none");
}

#[test]
fn first_line_with_a_key_wins() {
    let d = parse_action("ACTION: like\nACTION: post\nTARGET: 7\nTARGET: 8");
    assert_eq!(d.kind, ActionKind::Like);
    assert_eq!(d.target, Some(7));
}

#[test]
fn colons_and_spaces_are_dropped() {
    let d = parse_action("  ACTION::  follow  \n  TARGET ::: post 4 then 2\nCONTENT:   hi there  ");
    assert_eq!(d.kind, ActionKind::Follow);
    assert_eq!(d.target, Some(42));
    assert_eq!(d.content.as_deref(), Some("hi there"));
}

#[test]
fn missing_fields_are_safe() {
    let d = parse_action("nothing here");
    assert_eq!(d.kind, ActionKind::Idle);
    assert_eq!(d.target, None);
    assert_eq!(d.content, None);
    let d = parse_action("TARGET: none\nCONTENT:");
    assert_eq!(d.target, None);
    assert_eq!(d.content, None);
}

#[test]
fn oversized_target_is_dropped() {
    let d = parse_action("TARGET: 99999999999999999999999999");
    assert_eq!(d.target, None);
}
