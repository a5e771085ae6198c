use oasis_simulation::mechanisms::{
    apply_actions, is_leader, peripheral_decision, remember, remember_feed_head, route_agents,
    DriftWeight,
    Effect, FeedRecommendationMechanism, LlmBudget, MetricsMechanism, PostStepMechanism,
};
use oasis_simulation::metrics::{cascade_max_breadth, max_cascade_size, propagation_reach};
use oasis_simulation::parse::{ActionDecision, ActionKind};
use oasis_simulation::world::Post;

fn decision(kind: ActionKind, target: Option<usize>, content: Option<&str>) -> ActionDecision {
    ActionDecision { kind, target, content: content.map(|s| s.to_string()) }
}

#[test]
fn actions_update_the_store() {
    let mut posts = vec![Post::new(1, "seed".into(), 0, 0), Post::new(2, "other".into(), 0, 1)];
    let decisions = vec![
        (3, decision(ActionKind::Post, None, Some("mine"))),
        (4, decision(ActionKind::Post, None, None)),
        (5, decision(ActionKind::Repost, Some(0), None)),
        (6, decision(ActionKind::Like, Some(1), None)),
        (7, decision(ActionKind::Like, Some(99), None)),
        (8, decision(ActionKind::Follow, Some(1), None)),
        (2, decision(ActionKind::Follow, Some(1), None)),
        (9, decision(ActionKind::Repost, Some(42), None)),
        (10, decision(ActionKind::Idle, Some(0), None)),
    ];
    let (acted, effects) = apply_actions(&mut posts, &decisions, 4);
    assert_eq!(acted, 6);
    assert_eq!(posts.len(), 5);
    assert_eq!((posts[2].author, posts[2].content.as_str(), posts[2].ts, posts[2].root), (3, "mine", 4, 2));
    assert_eq!((posts[3].author, posts[3].content.as_str(), posts[3].root), (4, "Agent 4 posts.", 3));
    assert_eq!((posts[4].author, posts[4].content.as_str(), posts[4].root), (5, "seed", 0));
    assert_eq!(posts[0].reposts, 1);
    assert_eq!(posts[1].upvotes, 1);
    assert_eq!(
        effects,
        vec![
            Effect::Published { agent: 3, post: 2 },
            Effect::Published { agent: 4, post: 3 },
            Effect::Published { agent: 5, post: 4 },
            Effect::Drift { agent: 5, source: 0, weight: DriftWeight::Full },
            Effect::Drift { agent: 6, source: 1, weight: DriftWeight::Half },
            Effect::Followed { agent: 8, author: 2 },
        ]
    );
}

#[test]
fn repost_of_a_repost_stays_in_the_cascade() {
    let mut posts = vec![Post::new(1, "seed".into(), 0, 0)];
    let first = vec![(2, decision(ActionKind::Repost, Some(0), None))];
    apply_actions(&mut posts, &first, 1);
    let second = vec![(3, decision(ActionKind::Repost, Some(1), None))];
    apply_actions(&mut posts, &second, 2);
    assert_eq!(posts.len(), 3);
    assert_eq!(posts[2].root, 0);
    assert_eq!(posts[1].reposts, 1);
    assert_eq!(posts[0].reposts, 1);
}

#[test]
fn convergence_after_patience_idle_steps() {
    let mut m = PostStepMechanism::new(2);
    assert!(!m.record_step(0));
    assert!(!m.record_step(3));
    assert_eq!(m.zero_streak(), 0);
    assert!(!m.record_step(0));
    assert!(m.record_step(0));
    assert_eq!(m.zero_streak(), 2);
    let mut z = PostStepMechanism::new(0);
    assert!(z.record_step(0));
    assert_eq!(m.name(), "post_step");
    assert_eq!(FeedRecommendationMechanism.name(), "feed_recommendation");
    assert_eq!(MetricsMechanism.name(), "metrics");
}

#[test]
fn memory_keeps_the_newest_ten() {
    let mut mem: Vec<String> = Vec::new();
    for i in 0..12 {
        remember(&mut mem, format!("m{i}"));
    }
    assert_eq!(mem.len(), 10);
    assert_eq!(mem[0], "m2");
    assert_eq!(mem[9], "m11");
}

#[test]
fn agents_remember_their_feed_head() {
    let posts = vec![Post::new(1, "a".into(), 0, 0), Post::new(2, "b".into(), 0, 1)];
    let mut mem = vec!["old".to_string()];
    remember_feed_head(&mut mem, &vec![1, 0], &posts);
    assert_eq!(mem, vec!["old".to_string(), "b".to_string()]);
    remember_feed_head(&mut mem, &vec![5], &posts);
    remember_feed_head(&mut mem, &vec![], &posts);
    assert_eq!(mem.len(), 2);
}

#[test]
fn budget_routes_leaders_until_spent() {
    let mut b = LlmBudget::new(2);
    assert!(!b.route(false));
    assert!(b.route(true));
    assert!(b.route(true));
    assert!(!b.route(true));
    assert_eq!(b.remaining(), 0);
    let leaders = vec![4, 8];
    assert!(is_leader(&leaders, 8));
    assert!(!is_leader(&leaders, 5));
}

#[test]
fn no_leader_never_calls_the_model() {
    let mut b = LlmBudget::new(5);
    let calls = (0..20).filter(|_| b.route(false)).count();
    assert_eq!(calls, 0);
    assert_eq!(b.remaining(), 5);
}

#[test]
fn peripheral_policy() {
    let d = peripheral_decision(7, Some(3), true, true);
    assert_eq!((d.kind, d.target, d.content), (ActionKind::Repost, Some(3), None));
    let d = peripheral_decision(7, Some(3), true, false);
    assert_eq!((d.kind, d.target), (ActionKind::Like, Some(3)));
    let d = peripheral_decision(7, None, true, true);
    assert_eq!((d.kind, d.content.as_deref()), (ActionKind::Post, Some("Agent 7 shares a thought.")));
    let d = peripheral_decision(7, Some(3), false, false);
    assert_eq!(d.kind, ActionKind::Idle);
}

#[test]
fn leaders_are_routed_first_come_while_calls_remain() {
    let mut b = LlmBudget::new(2);
    let r = route_agents(&mut b, &vec![1, 3, 5], &vec![0, 1, 2, 3, 5, 1]);
    assert_eq!(r, vec![false, true, false, true, false, false]);
    assert_eq!(b.remaining(), 0);
    let mut b = LlmBudget::new(4);
    let r = route_agents(&mut b, &vec![], &vec![0, 1, 2]);
    assert_eq!(r, vec![false, false, false]);
    assert_eq!(b.remaining(), 4);
}

#[test]
fn diffusion_metrics_only_grow() {
    let mut posts = vec![Post::new(1, "seed".into(), 0, 0), Post::new(2, "other".into(), 0, 1)];
    let mut last = (max_cascade_size(&posts), cascade_max_breadth(&posts), propagation_reach(&posts));
    for step in 1..5u64 {
        let decisions = vec![
            (step + 10, decision(ActionKind::Repost, Some(0), None)),
            (step + 20, decision(ActionKind::Like, Some(1), None)),
            (step + 30, decision(ActionKind::Post, None, Some("new"))),
        ];
        apply_actions(&mut posts, &decisions, step);
        let now = (max_cascade_size(&posts), cascade_max_breadth(&posts), propagation_reach(&posts));
        assert!(now.0 >= last.0 && now.1 >= last.1 && now.2 >= last.2);
        last = now;
    }
    assert_eq!(last, (5, 1, 10));
}
