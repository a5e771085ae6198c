use oasis_simulation::metrics::{
    cascade_max_breadth, cascade_rows, cascade_sizes, max_cascade_size, propagation_reach, tally,
};
use oasis_simulation::world::Post;

#[test]
fn cascade_size_counts_root_group() {
    let posts = vec![
        Post::new(0, "root".into(), 0, 0),
        Post::new(1, "repost".into(), 1, 0),
        Post::new(2, "repost".into(), 1, 0),
        Post::new(3, "other root".into(), 0, 3),
    ];
    assert_eq!(max_cascade_size(&posts), 3);
    assert_eq!(cascade_max_breadth(&posts), 2);
}

#[test]
fn empty_store_has_zero_metrics() {
    let posts: Vec<Post> = Vec::new();
    assert_eq!(max_cascade_size(&posts), 0);
    assert_eq!(cascade_max_breadth(&posts), 0);
    assert_eq!(propagation_reach(&posts), 0);
    assert!(cascade_sizes(&posts).is_empty());
    assert!(cascade_rows(&posts).is_empty());
}

#[test]
fn cascade_table_is_sorted_and_adds_up() {
    let posts = vec![
        Post::new(7, "a".into(), 0, 0),
        Post::new(8, "b".into(), 0, 1),
        Post::new(9, "a".into(), 1, 0),
        Post::new(7, "b".into(), 2, 1),
        Post::new(7, "b".into(), 2, 1),
    ];
    let sizes = cascade_sizes(&posts);
    assert_eq!(sizes, vec![(0, 2), (1, 3)]);
    let total: usize = sizes.iter().map(|s| s.1).sum();
    assert_eq!(total, posts.len());
    assert_eq!(max_cascade_size(&posts), 3);
    assert_eq!(cascade_max_breadth(&posts), 2);
    assert_eq!(propagation_reach(&posts), 3);
    let rows = cascade_rows(&posts);
    assert_eq!(rows.len(), 2);
    assert_eq!((rows[0].root_post, rows[0].author, rows[0].size), (0, 7, 2));
    assert_eq!((rows[1].root_post, rows[1].author, rows[1].size), (1, 8, 3));
}

#[test]
fn cascade_row_of_a_missing_root_has_author_zero() {
    let posts = vec![Post::new(5, "dangling".into(), 0, 9)];
    let rows = cascade_rows(&posts);
    assert_eq!(rows.len(), 1);
    assert_eq!((rows[0].root_post, rows[0].author, rows[0].size), (9, 0, 1));
}

#[test]
fn tally_counts_each_key_once_in_order() {
    let keys = vec![(3, 1), (1, 2), (3, 1), (1, 1), (3, 0)];
    assert_eq!(tally(&keys), vec![((1, 1), 1), ((1, 2), 1), ((3, 0), 1), ((3, 1), 2)]);
}
