use oasis_simulation::config::RecSysKind;
use oasis_simulation::recsys::build_feed;
use oasis_simulation::world::{embed, Post};

/// Interest match between a bio and a text: cosine similarity of their
/// bag-of-words embeddings.
fn interest(bio: &str, text: &str) -> f64 {
    let a = embed(bio);
    let b = embed(text);
    let mut dot = 0.0;
    let mut na = 0.0;
    let mut nb = 0.0;
    for i in 0..a.len() {
        dot += a[i] as f64 * b[i] as f64;
        na += (a[i] * a[i]) as f64;
        nb += (b[i] * b[i]) as f64;
    }
    if na == 0.0 || nb == 0.0 {
        0.0
    } else {
        dot / (na.sqrt() * nb.sqrt())
    }
}

/// An integer key that orders as the real score does.
fn key(x: f64) -> u64 {
    let x = if x == 0.0 { 0.0 } else { x };
    let b = x.to_bits();
    if b >> 63 == 1 {
        !b
    } else {
        b | (1 << 63)
    }
}

fn scores(bio: &str, posts: &[Post]) -> Vec<u64> {
    posts.iter().map(|p| key(interest(bio, &p.content))).collect()
}

#[test]
fn interest_feed_excludes_self_and_is_deterministic() {
    let posts = vec![
        Post::new(1, "climate energy policy".into(), 1, 0),
        Post::new(0, "should be excluded self".into(), 1, 1),
        Post::new(3, "climate energy".into(), 2, 2),
    ];
    // Agent 0 follows agent 1 (the chain 0-1-2-3).
    let follows = vec![1];
    let score = scores("climate energy policy", &posts);
    let f1 = build_feed(RecSysKind::Interest, 2, 2, 0, &follows, &posts, &score);
    let f2 = build_feed(RecSysKind::Interest, 2, 2, 0, &follows, &posts, &score);
    assert_eq!(f1, f2);
    assert!(!f1.contains(&1), "self post must be excluded");
    assert_eq!(f1, vec![0, 2]);
}

#[test]
fn none_feed_only_uses_follows() {
    let posts = vec![
        Post::new(1, "from follow".into(), 1, 0),
        Post::new(3, "from stranger".into(), 2, 1),
    ];
    let follows = vec![1];
    let score = vec![0, 0];
    let f = build_feed(RecSysKind::Off, 2, 2, 0, &follows, &posts, &score);
    assert_eq!(f, vec![0]);
}

#[test]
fn interest_feed_takes_k_in_then_k_out() {
    let posts = vec![
        Post::new(1, "a".into(), 1, 0),
        Post::new(2, "b".into(), 1, 1),
        Post::new(1, "c".into(), 3, 2),
        Post::new(2, "d".into(), 2, 3),
        Post::new(1, "e".into(), 2, 4),
        Post::new(9, "own".into(), 5, 5),
    ];
    let follows = vec![1];
    let score = vec![5, 9, 5, 1, 7, 100];
    let f = build_feed(RecSysKind::Interest, 2, 1, 9, &follows, &posts, &score);
    // In-network by score, then recency: 4 (7), 2 (5, newer), then 0.
    // Out-of-network: 1 (9) before 3 (1).
    assert_eq!(f, vec![4, 2, 1]);
}

#[test]
fn hot_score_feed_ranks_everyone() {
    let posts = vec![
        Post::new(1, "a".into(), 1, 0),
        Post::new(2, "b".into(), 4, 1),
        Post::new(3, "c".into(), 4, 2),
        Post::new(0, "own".into(), 9, 3),
    ];
    let follows: Vec<u64> = Vec::new();
    let score = vec![3, 3, 3, 50];
    let f = build_feed(RecSysKind::HotScore, 1, 1, 0, &follows, &posts, &score);
    // Equal scores: newer first, then smaller index.
    assert_eq!(f, vec![1, 2]);
}

#[test]
fn none_feed_is_latest_followed_posts() {
    let posts = vec![
        Post::new(1, "a".into(), 5, 0),
        Post::new(1, "b".into(), 7, 1),
        Post::new(2, "c".into(), 6, 2),
        Post::new(4, "d".into(), 9, 3),
    ];
    let follows = vec![1, 2];
    let score = vec![0, 0, 0, 0];
    let f = build_feed(RecSysKind::Off, 2, 5, 0, &follows, &posts, &score);
    assert_eq!(f, vec![1, 2]);
}
