use oasis_simulation::world::{embed, Post, EMBED_DIM};

#[test]
fn embed_is_deterministic() {
    assert_eq!(embed("hello world"), embed("hello world"));
    assert_ne!(embed("hello"), embed("world"));
}

#[test]
fn embed_counts_words_per_bucket() {
    let e = embed("hello world");
    assert_eq!(e.len(), EMBED_DIM);
    let mut expected = vec![0u64; EMBED_DIM];
    // FNV-1a("hello") % 32 == 11, FNV-1a("world") % 32 == 19.
    expected[11] = 1;
    expected[19] = 1;
    assert_eq!(e, expected);
}

#[test]
fn embed_ignores_case_and_punctuation() {
    assert_eq!(embed("Hello, WORLD!"), embed("hello world"));
    assert_eq!(embed("  hello--hello  "), {
        let mut v = vec![0u64; EMBED_DIM];
        v[11] = 2;
        v
    });
    assert_eq!(embed(""), vec![0u64; EMBED_DIM]);
    assert_eq!(embed("!!! ..."), vec![0u64; EMBED_DIM]);
}

#[test]
fn fresh_post_has_no_votes() {
    let p = Post::new(3, "hi".to_string(), 7, 2);
    assert_eq!((p.author, p.ts, p.root), (3, 7, 2));
    assert_eq!((p.upvotes, p.downvotes, p.reposts), (0, 0, 0));
    assert_eq!(p.content, "hi");
}
