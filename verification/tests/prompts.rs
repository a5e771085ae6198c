use oasis_simulation::prompts::action_prompt;
use oasis_simulation::world::Post;

const INSTRUCTIONS: &str = "Think step by step, then choose exactly one action. Reply in this exact format:\n\
THOUGHT: <one sentence>\n\
ACTION: <post|repost|like|follow|none>\n\
TARGET: <post_index for repost/like/follow, or - for post/none>\n\
CONTENT: <text for post, or - otherwise>\n";

#[test]
fn prompt_with_memory_and_feed() {
    let posts = vec![
        Post::new(4, "hello".to_string(), 0, 0),
        Post::new(5, "world".to_string(), 1, 1),
    ];
    let memory: Vec<String> = ["m1", "m2", "m3", "m4"].iter().map(|s| s.to_string()).collect();
    let feed = vec![1, 7, 0];
    let p = action_prompt("user3", "solar power", "-0.50", &memory, &feed, &posts);
    let expected = format!(
        "You are an agent on a social media platform. Decide your next single action.\n\n\
Your name: user3\n\
Your bio: solar power\n\
Your current opinion (-1=against, +1=in favor): -0.50\n\n\
Your recent memory:\n- m4\n- m3\n- m2\n\n\
Your recommended feed (post_index | author_id | content):\n\
[1] author=5 | world\n\
[0] author=4 | hello\n\n{}",
        INSTRUCTIONS
    );
    assert_eq!(p, expected);
}

#[test]
fn prompt_without_memory_or_feed() {
    let posts: Vec<Post> = Vec::new();
    let p = action_prompt("user0", "b", "0.00", &Vec::new(), &vec![3], &posts);
    let expected = format!(
        "You are an agent on a social media platform. Decide your next single action.\n\n\
Your name: user0\n\
Your bio: b\n\
Your current opinion (-1=against, +1=in favor): 0.00\n\n\
Your recent memory: (none)\n\n\
Your recommended feed is empty.\n\n{}",
        INSTRUCTIONS
    );
    assert_eq!(p, expected);
}
