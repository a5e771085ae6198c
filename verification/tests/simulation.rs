use oasis_simulation::simulation::{agent_name, interest_of, seed_posts, select_leaders};

#[test]
fn names_and_interests() {
    assert_eq!(agent_name(12), "user12");
    assert_eq!(interest_of(0), "nuclear energy policy and climate");
    assert_eq!(interest_of(7), "renewable solar wind power");
    assert_eq!(interest_of(5), "education science research funding");
}

#[test]
fn seed_posts_start_cascades() {
    let ids = vec![0, 1, 2, 3];
    let posts = seed_posts(&ids, 2);
    assert_eq!(posts.len(), 2);
    assert_eq!(posts[1].content, "Initial take on nuclear energy policy by user1.");
    assert_eq!((posts[1].author, posts[1].ts, posts[1].root), (1, 0, 1));
    assert_eq!(seed_posts(&ids, 0).len(), 1);
    assert_eq!(seed_posts(&ids, 9).len(), 4);
}

#[test]
fn leaders_outrank_the_rest() {
    let agents = vec![(0, 3), (1, 7), (2, 3), (3, 9), (4, 1)];
    let leaders = select_leaders(&agents, 3);
    assert_eq!(leaders, vec![3, 1, 0]);
    assert_eq!(select_leaders(&agents, 10).len(), 5);
    assert!(select_leaders(&agents, 0).is_empty());
}
