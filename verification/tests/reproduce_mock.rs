use oasis_simulation::parse::{parse_action, ActionKind};
use oasis_simulation::prompts::action_prompt;
use oasis_simulation::reproduce_mock::{first_feed_index, reproduce_reply};
use oasis_simulation::world::Post;

#[test]
fn reads_first_feed_index() {
    let prompt = "Your recommended feed (post_index | author_id | content):\n\
                  [7] author=3 | hello\n[2] author=4 | world\n";
    assert_eq!(first_feed_index(prompt), Some(7));
}

#[test]
fn empty_feed_has_no_index() {
    let prompt = "Your recommended feed is empty.\n";
    assert_eq!(first_feed_index(prompt), None);
}

#[test]
fn reply_reposts_when_feed_present() {
    let prompt = "Your recommended feed (post_index | author_id | content):\n\
                  [5] author=1 | take\n";
    let r = reproduce_reply(prompt);
    assert!(r.contains("ACTION: repost"));
    assert!(r.contains("TARGET: 5"));
}

#[test]
fn reply_posts_when_feed_empty() {
    let r = reproduce_reply("Your recommended feed is empty.\n");
    assert!(r.contains("ACTION: post"));
}

#[test]
fn does_not_pick_up_memory_section_brackets() {
    let prompt = "Your recent memory:\n- [old note]\n\n\
                  Your recommended feed (post_index | author_id | content):\n\
                  [9] author=2 | fresh\n";
    assert_eq!(first_feed_index(prompt), Some(9));
}

#[test]
fn reply_is_exact() {
    let prompt = "post_index | author_id | content):\n[12] author=1 | x\n";
    assert_eq!(
        reproduce_reply(prompt),
        "THOUGHT: this resonates, I will amplify it.\nACTION: repost\nTARGET: 12\nCONTENT: -"
    );
    assert_eq!(
        reproduce_reply("no feed here"),
        "THOUGHT: I will share my own view.\nACTION: post\nTARGET: -\nCONTENT: My stance on the topic."
    );
}

#[test]
fn feed_listing_ends_at_the_next_marker() {
    let prompt = "post_index | author_id | content\nno entry\npost_index | author_id | content [4]";
    assert_eq!(first_feed_index(prompt), None);
}

#[test]
fn index_without_digits_is_none() {
    let prompt = "post_index | author_id | content):\n[x] author=1 | x\n";
    assert_eq!(first_feed_index(prompt), None);
}

#[test]
fn reply_parses_back_as_meant() {
    let prompt = "post_index | author_id | content):\n[31] author=1 | x\n";
    let d = parse_action(&reproduce_reply(prompt));
    assert_eq!(d.kind, ActionKind::Repost);
    assert_eq!(d.target, Some(31));
    assert_eq!(d.content, None);
    let d = parse_action(&reproduce_reply("Your recommended feed is empty.\n"));
    assert_eq!(d.kind, ActionKind::Post);
    assert_eq!(d.target, None);
    assert_eq!(d.content.as_deref(), Some("My stance on the topic."));
}

#[test]
fn scripted_leader_reposts_the_head_of_its_prompt_feed() {
    let posts = vec![
        Post::new(1, "first".to_string(), 0, 0),
        Post::new(2, "second [8] post_index".to_string(), 1, 1),
        Post::new(3, "third".to_string(), 2, 2),
    ];
    let memory = vec!["[5] remembered".to_string()];
    let feed = vec![9, 2, 0];
    let prompt = action_prompt("user0", "bio", "0.25", &memory, &feed, &posts);
    assert_eq!(first_feed_index(&prompt), Some(2));
    let d = parse_action(&reproduce_reply(&prompt));
    assert_eq!(d.kind, ActionKind::Repost);
    assert_eq!(d.target, Some(2));

    let none_visible = vec![7, 8];
    let prompt = action_prompt("user0", "bio", "0.25", &memory, &none_visible, &posts);
    assert_eq!(first_feed_index(&prompt), None);
    let d = parse_action(&reproduce_reply(&prompt));
    assert_eq!(d.kind, ActionKind::Post);
}
