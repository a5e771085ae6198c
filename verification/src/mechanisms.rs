//! The per-step rules of the simulation.
//!
//! Each step runs six phases: activation, feed recommendation, action
//! choice, information propagation, metrics and post-step bookkeeping.
//! This module holds the rules those phases apply to plain state; the
//! driver supplies randomness, real-valued opinions and the follow graph.
use vstd::prelude::*;

use crate::metrics::{authors, cascade_level, cascade_size, lemma_metrics_grow_with_store};
use crate::parse::{ActionDecision, ActionKind, DecisionView};
use crate::text::{decimal, push_decimal, push_str};
use crate::world::{fresh_post, posts_view, roots_well_formed, Post, PostView};

verus! {

// ------------------------------------------------------------------------
// Information propagation (interaction phase)
// ------------------------------------------------------------------------

/// How strongly an agent's opinion moves toward a post it engaged with.
#[derive(Debug, Clone, Copy, PartialEq, Eq, Structural)]
pub enum DriftWeight {
    /// A repost: the full drift coefficient.
    Full,
    /// A like: half the drift coefficient.
    Half,
}

/// A consequence of an action that lives outside the post store.
#[derive(Debug, Clone, Copy, PartialEq, Eq, Structural)]
pub enum Effect {
    /// `agent` created post `post`; its opinion is snapshotted now.
    Published { agent: u64, post: usize },
    /// `agent`'s opinion drifts toward the opinion of post `source`.
    Drift { agent: u64, source: usize, weight: DriftWeight },
    /// `agent` now follows `author`.
    Followed { agent: u64, author: u64 },
}

/// The text of a post whose author gave none: `Agent <id> posts.`
pub open spec fn default_post_text(agent: u64) -> Seq<char> {
    "Agent "@ + decimal(agent as nat) + " posts."@
}

/// The state propagation threads through the decisions of one step:
/// the post store, the number of agents that acted, and the effects.
pub struct Propagation {
    pub posts: Seq<PostView>,
    pub acted: nat,
    pub effects: Seq<Effect>,
}

/// Applies one agent's decision.
///
/// - post: a new post that is its own cascade root;
/// - repost of an existing post: a new post with the same text in the same
///   cascade, the source's repost count goes up, the opinion drifts fully;
/// - like with a target: counts as acting; an existing target gains an
///   upvote and the opinion drifts by half;
/// - follow of an existing post by someone else: a new follow edge;
/// - anything else changes nothing.
pub open spec fn propagate_one(st: Propagation, agent: u64, d: DecisionView, now: u64) -> Propagation {
    let n = st.posts.len();
    match d.kind {
        ActionKind::Post => {
            let text = match d.content {
                Some(c) => c,
                None => default_post_text(agent),
            };
            Propagation {
                posts: st.posts.push(fresh_post(agent, text, now, n as usize)),
                acted: st.acted + 1,
                effects: st.effects.push(Effect::Published { agent, post: n as usize }),
            }
        },
        ActionKind::Repost => match d.target {
            Some(t) => if t < n {
                let src = st.posts[t as int];
                Propagation {
                    posts: st.posts.update(t as int, PostView { reposts: (src.reposts + 1) as u64, ..src }).push(
                        fresh_post(agent, src.content, now, src.root),
                    ),
                    acted: st.acted + 1,
                    effects: st.effects.push(Effect::Published { agent, post: n as usize }).push(
                        Effect::Drift { agent, source: t, weight: DriftWeight::Full },
                    ),
                }
            } else {
                st
            },
            None => st,
        },
        ActionKind::Like => match d.target {
            Some(t) => if t < n {
                let src = st.posts[t as int];
                Propagation {
                    posts: st.posts.update(t as int, PostView { upvotes: (src.upvotes + 1) as u64, ..src }),
                    acted: st.acted + 1,
                    effects: st.effects.push(Effect::Drift { agent, source: t, weight: DriftWeight::Half }),
                }
            } else {
                Propagation { acted: st.acted + 1, ..st }
            },
            None => st,
        },
        ActionKind::Follow => match d.target {
            Some(t) => if t < n && st.posts[t as int].author != agent {
                Propagation {
                    acted: st.acted + 1,
                    effects: st.effects.push(Effect::Followed { agent, author: st.posts[t as int].author }),
                    ..st
                }
            } else {
                st
            },
            None => st,
        },
        ActionKind::Idle => st,
    }
}

/// What one decision does to the post store, in terms of the posts
/// before and after:
/// - a like of an existing post raises that post's upvotes by one and no
///   other count; a like of a missing post changes no post but still
///   counts as acting;
/// - a repost of an existing post raises that post's repost count by one
///   and no other count, and appends a post by the agent with the same
///   text in the same cascade;
/// - a post appends a post by the agent that starts its own cascade;
/// - follows and idle decisions leave the store as it was;
/// - earlier posts keep their author, text, time and cascade;
/// - the effects recorded: a like drifts the agent halfway toward the
///   liked post, a repost publishes and drifts fully toward its source, a
///   post publishes, a follow of someone else's post adds a follow of its
///   author; a follow of one's own or a missing post, an idle decision and
///   a targeted action without a target change nothing.
pub proof fn lemma_decision_effect(st: Propagation, agent: u64, d: DecisionView, now: u64, t: usize)
    requires
        counters_have_room(st.posts, 1),
        st.posts.len() < usize::MAX,
    ensures
        ({
            let n = st.posts.len();
            let out = propagate_one(st, agent, d, now);
            &&& forall|j: int| 0 <= j < n ==> {
                &&& (#[trigger] out.posts[j]).author == st.posts[j].author
                &&& out.posts[j].content == st.posts[j].content
                &&& out.posts[j].ts == st.posts[j].ts
                &&& out.posts[j].root == st.posts[j].root
                &&& out.posts[j].downvotes == st.posts[j].downvotes
            }
            &&& (d.kind == ActionKind::Like && d.target == Some(t) && t < n) ==> {
                &&& out.posts.len() == n
                &&& out.posts[t as int].upvotes == st.posts[t as int].upvotes + 1
                &&& forall|j: int| 0 <= j < n && j != t ==> #[trigger] out.posts[j].upvotes == st.posts[j].upvotes
                &&& forall|j: int| 0 <= j < n ==> #[trigger] out.posts[j].reposts == st.posts[j].reposts
                &&& out.acted == st.acted + 1
            }
            &&& (d.kind == ActionKind::Like && d.target == Some(t) && t >= n) ==> out.posts == st.posts
                && out.acted == st.acted + 1
            &&& (d.kind == ActionKind::Repost && d.target == Some(t) && t < n) ==> {
                &&& out.posts.len() == n + 1
                &&& out.posts[t as int].reposts == st.posts[t as int].reposts + 1
                &&& forall|j: int| 0 <= j < n && j != t ==> #[trigger] out.posts[j].reposts == st.posts[j].reposts
                &&& forall|j: int| 0 <= j < n ==> #[trigger] out.posts[j].upvotes == st.posts[j].upvotes
                &&& out.posts[n as int].author == agent
                &&& out.posts[n as int].content == st.posts[t as int].content
                &&& out.posts[n as int].root == st.posts[t as int].root
                &&& out.posts[n as int].ts == now
                &&& out.posts[n as int].upvotes == 0 && out.posts[n as int].reposts == 0
                &&& out.acted == st.acted + 1
            }
            &&& d.kind == ActionKind::Post ==> {
                &&& out.posts.len() == n + 1
                &&& forall|j: int| 0 <= j < n ==> #[trigger] out.posts[j] == st.posts[j]
                &&& out.posts[n as int].author == agent
                &&& out.posts[n as int].root == n
                &&& out.posts[n as int].ts == now
                &&& out.posts[n as int].content == match d.content {
                    Some(c) => c,
                    None => default_post_text(agent),
                }
                &&& out.acted == st.acted + 1
            }
            &&& (d.kind == ActionKind::Follow || d.kind == ActionKind::Idle) ==> out.posts == st.posts
            &&& (d.kind == ActionKind::Like && d.target == Some(t) && t < n) ==> out.effects == st.effects.push(
                Effect::Drift { agent, source: t, weight: DriftWeight::Half },
            )
            &&& (d.kind == ActionKind::Repost && d.target == Some(t) && t < n) ==> out.effects
                == st.effects.push(Effect::Published { agent, post: n as usize }).push(
                Effect::Drift { agent, source: t, weight: DriftWeight::Full },
            )
            &&& d.kind == ActionKind::Post ==> out.effects == st.effects.push(
                Effect::Published { agent, post: n as usize },
            )
            &&& (d.kind == ActionKind::Follow && d.target == Some(t) && t < n && st.posts[t as int].author
                != agent) ==> out.effects == st.effects.push(
                Effect::Followed { agent, author: st.posts[t as int].author },
            ) && out.acted == st.acted + 1
            &&& (d.kind == ActionKind::Follow && d.target == Some(t) && (t >= n || st.posts[t as int].author
                == agent)) ==> out == st
            &&& d.kind == ActionKind::Idle ==> out == st
            &&& (d.kind != ActionKind::Idle && d.kind != ActionKind::Post && d.target is None) ==> out == st
        }),
{
    let n = st.posts.len();
    let out = propagate_one(st, agent, d, now);
    lemma_propagate_one_shape(st, agent, d, now);
    assert forall|j: int| 0 <= j < n implies {
        &&& (#[trigger] out.posts[j]).author == st.posts[j].author
        &&& out.posts[j].content == st.posts[j].content
        &&& out.posts[j].ts == st.posts[j].ts
        &&& out.posts[j].root == st.posts[j].root
        &&& out.posts[j].downvotes == st.posts[j].downvotes
    } by {
        assert(post_kept(st.posts[j], out.posts[j]));
    }
    if d.kind == ActionKind::Post {
        assert forall|j: int| 0 <= j < n implies #[trigger] out.posts[j] == st.posts[j] by {}
    }
    if d.target == Some(t) && t < n {
        assert forall|j: int| 0 <= j < n && j != t implies #[trigger] out.posts[j].upvotes == st.posts[j].upvotes
            && out.posts[j].reposts == st.posts[j].reposts by {
            assert(out.posts[j] == st.posts[j]);
        }
    }
}

/// Applies a step's decisions in order.
pub open spec fn propagate_all(st: Propagation, decisions: Seq<(u64, DecisionView)>, now: u64) -> Propagation
    decreases decisions.len(),
{
    if decisions.len() == 0 {
        st
    } else {
        let last = decisions.last();
        propagate_one(propagate_all(st, decisions.drop_last(), now), last.0, last.1, now)
    }
}

/// The value of a list of per-agent decisions.
pub open spec fn decisions_view(d: Seq<(u64, ActionDecision)>) -> Seq<(u64, DecisionView)> {
    d.map_values(|x: (u64, ActionDecision)| (x.0, x.1@))
}

/// No vote or repost counter can overflow within `steps` increments.
pub open spec fn counters_have_room(posts: Seq<PostView>, steps: nat) -> bool {
    forall|j: int|
        0 <= j < posts.len() ==> #[trigger] posts[j].upvotes + steps <= u64::MAX
            && posts[j].reposts + steps <= u64::MAX
}

/// The text of a post whose author gave none.
fn default_post_string(agent: u64) -> (r: String)
    ensures
        r@ == default_post_text(agent),
{
    let mut s = String::new();
    push_str(&mut s, "Agent ");
    push_decimal(&mut s, agent);
    push_str(&mut s, " posts.");
    assert(s@ =~= default_post_text(agent));
    s
}

/// Applies a step's decisions (in the given order, one per agent) to the
/// post store; returns how many agents acted and the effects on opinions
/// and the follow graph, in the order they happened.
pub fn apply_actions(posts: &mut Vec<Post>, decisions: &Vec<(u64, ActionDecision)>, now: u64) -> (r: (usize, Vec<Effect>))
    requires
        counters_have_room(posts_view(old(posts)@), decisions@.len()),
        old(posts)@.len() + decisions@.len() < usize::MAX,
    ensures
        ({
            let out = propagate_all(
                Propagation { posts: posts_view(old(posts)@), acted: 0, effects: seq![] },
                decisions_view(decisions@),
                now,
            );
            &&& posts_view(final(posts)@) == out.posts
            &&& r.0 as nat == out.acted
            &&& r.1@ == out.effects
        }),
{
    let ghost start = Propagation { posts: posts_view(posts@), acted: 0, effects: seq![] };
    let ghost dv = decisions_view(decisions@);
    let mut acted: usize = 0;
    let mut effects: Vec<Effect> = Vec::new();
    let n = decisions.len();
    let mut i: usize = 0;
    assert(dv.take(0) =~= Seq::<(u64, DecisionView)>::empty());
    while i < n
        invariant
            n == decisions.len(),
            dv == decisions_view(decisions@),
            0 <= i <= n,
            acted <= i,
            ({
                let out = propagate_all(start, dv.take(i as int), now);
                &&& posts_view(posts@) == out.posts
                &&& acted as nat == out.acted
                &&& effects@ == out.effects
            }),
            counters_have_room(posts_view(posts@), (n - i) as nat),
            posts@.len() <= start.posts.len() + i,
            start.posts.len() + n < usize::MAX,
        decreases n - i,
    {
        let ghost before = Propagation { posts: posts_view(posts@), acted: acted as nat, effects: effects@ };
        let agent = decisions[i].0;
        let d = &decisions[i].1;
        assert(dv[i as int] == (agent, d@));
        assert(dv.take(i + 1).drop_last() =~= dv.take(i as int));
        let len = posts.len();
        match d.kind {
            ActionKind::Post => {
                let text = match &d.content {
                    Some(c) => c.clone(),
                    None => default_post_string(agent),
                };
                posts.push(Post::new(agent, text, now, len));
                effects.push(Effect::Published { agent, post: len });
                acted = acted + 1;
                assert(posts_view(posts@) =~= propagate_one(before, agent, d@, now).posts);
            },
            ActionKind::Repost => {
                if let Some(t) = d.target {
                    if t < len {
                        let root = posts[t].root;
                        let text = posts[t].content.clone();
                        posts.push(Post::new(agent, text, now, root));
                        posts[t].reposts = posts[t].reposts + 1;
                        effects.push(Effect::Published { agent, post: len });
                        effects.push(Effect::Drift { agent, source: t, weight: DriftWeight::Full });
                        acted = acted + 1;
                        assert(posts_view(posts@) =~= propagate_one(before, agent, d@, now).posts);
                    }
                }
            },
            ActionKind::Like => {
                if let Some(t) = d.target {
                    if t < len {
                        posts[t].upvotes = posts[t].upvotes + 1;
                        effects.push(Effect::Drift { agent, source: t, weight: DriftWeight::Half });
                        assert(posts_view(posts@) =~= propagate_one(before, agent, d@, now).posts);
                    }
                    acted = acted + 1;
                }
            },
            ActionKind::Follow => {
                if let Some(t) = d.target {
                    if t < len && posts[t].author != agent {
                        effects.push(Effect::Followed { agent, author: posts[t].author });
                        acted = acted + 1;
                    }
                }
            },
            ActionKind::Idle => {},
        }
        proof {
            lemma_propagate_one_shape(before, agent, d@, now);
            lemma_propagate_len(start, dv.take(i as int), now);
            assert forall|j: int| 0 <= j < posts_view(posts@).len() implies #[trigger] posts_view(posts@)[j].upvotes
                + (n - i - 1) <= u64::MAX && posts_view(posts@)[j].reposts + (n - i - 1) <= u64::MAX by {
                if j < before.posts.len() {
                    assert(before.posts[j].upvotes + (n - i) <= u64::MAX);
                }
            }
        }
        i = i + 1;
    }
    assert(dv.take(n as int) =~= dv);
    (acted, effects)
}

} // verus!

verus! {

/// What an earlier post keeps when the store moves on: everything but its
/// vote and repost counts, which can only grow.
pub open spec fn post_kept(before: PostView, after: PostView) -> bool {
    &&& after.author == before.author
    &&& after.content == before.content
    &&& after.ts == before.ts
    &&& after.downvotes == before.downvotes
    &&& after.root == before.root
    &&& after.upvotes >= before.upvotes
    &&& after.reposts >= before.reposts
}

/// `r` is the cascade root of some post.
pub open spec fn root_of_some(posts: Seq<PostView>, r: usize) -> bool {
    exists|t: int| 0 <= t < posts.len() && r == #[trigger] posts[t].root
}

/// Decisions append at most one post each.
proof fn lemma_propagate_len(st: Propagation, decisions: Seq<(u64, DecisionView)>, now: u64)
    ensures
        st.posts.len() <= propagate_all(st, decisions, now).posts.len() <= st.posts.len() + decisions.len(),
    decreases decisions.len(),
{
    if decisions.len() > 0 {
        lemma_propagate_len(st, decisions.drop_last(), now);
    }
}

/// One decision changes existing posts only in their counters (by at
/// most one) and appends at most one fresh post.
proof fn lemma_propagate_one_shape(st: Propagation, agent: u64, d: DecisionView, now: u64)
    requires
        counters_have_room(st.posts, 1),
        st.posts.len() < usize::MAX,
    ensures
        ({
            let out = propagate_one(st, agent, d, now);
            &&& st.posts.len() <= out.posts.len() <= st.posts.len() + 1
            &&& st.acted <= out.acted <= st.acted + 1
            &&& forall|j: int| 0 <= j < st.posts.len() ==> {
                &&& post_kept(st.posts[j], #[trigger] out.posts[j])
                &&& out.posts[j].upvotes <= st.posts[j].upvotes + 1
                &&& out.posts[j].reposts <= st.posts[j].reposts + 1
            }
            &&& out.posts.len() > st.posts.len() ==> {
                let p = out.posts[st.posts.len() as int];
                &&& p.upvotes == 0
                &&& p.reposts == 0
                &&& (p.root == st.posts.len() || root_of_some(st.posts, p.root))
            }
        }),
{
    let n = st.posts.len();
    match d.kind {
        ActionKind::Repost => {
            match d.target {
                Some(t) => {
                    if t < n {
                        let out = propagate_one(st, agent, d, now);
                        let tt = t as int;
                        assert(0 <= tt < st.posts.len() && out.posts[st.posts.len() as int].root
                            == st.posts[tt].root);
                        assert(root_of_some(st.posts, out.posts[st.posts.len() as int].root));
                        assert forall|j: int| 0 <= j < n implies {
                            &&& post_kept(st.posts[j], #[trigger] out.posts[j])
                            &&& out.posts[j].upvotes <= st.posts[j].upvotes + 1
                            &&& out.posts[j].reposts <= st.posts[j].reposts + 1
                        } by {
                            if j == t {
                                assert(out.posts[j].reposts == st.posts[j].reposts + 1);
                            } else {
                                assert(out.posts[j] == st.posts[j]);
                            }
                        }
                    }
                },
                None => {},
            }
        },
        _ => {},
    }
}

/// One decision keeps cascade links well formed.
proof fn lemma_propagate_one(st: Propagation, agent: u64, d: DecisionView, now: u64)
    requires
        roots_well_formed(st.posts),
        counters_have_room(st.posts, 1),
        st.posts.len() < usize::MAX,
    ensures
        roots_well_formed(propagate_one(st, agent, d, now).posts),
{
    lemma_propagate_one_shape(st, agent, d, now);
    let out = propagate_one(st, agent, d, now);
    let n = st.posts.len();
    assert forall|i: int| 0 <= i < out.posts.len() implies {
        &&& #[trigger] out.posts[i].root <= i
        &&& out.posts[out.posts[i].root as int].root == out.posts[i].root
    } by {
        if i < n {
            assert(post_kept(st.posts[i], out.posts[i]));
            let r = st.posts[i].root as int;
            assert(post_kept(st.posts[r], out.posts[r]));
        } else {
            let r = out.posts[i].root as int;
            if r < n {
                assert(root_of_some(st.posts, r as usize));
                let t = choose|t: int| 0 <= t < n && r == #[trigger] st.posts[t].root;
                assert(st.posts[t].root <= t);
                assert(post_kept(st.posts[r], out.posts[r]));
            }
        }
    }
}

/// Information propagation keeps every post's cascade root an earlier post
/// that is itself a cascade origin; it only appends posts (at most one per
/// decision), keeps every earlier post's author, text, time, downvotes and
/// cascade, only raises vote and repost counts, and counts at most one
/// acting agent per decision.
pub proof fn lemma_propagation_preserves_store(st: Propagation, decisions: Seq<(u64, DecisionView)>, now: u64)
    requires
        roots_well_formed(st.posts),
        counters_have_room(st.posts, decisions.len()),
        st.posts.len() + decisions.len() <= usize::MAX,
    ensures
        ({
            let out = propagate_all(st, decisions, now);
            &&& roots_well_formed(out.posts)
            &&& st.posts.len() <= out.posts.len() <= st.posts.len() + decisions.len()
            &&& forall|j: int| 0 <= j < st.posts.len() ==> post_kept(st.posts[j], #[trigger] out.posts[j])
            &&& st.acted <= out.acted <= st.acted + decisions.len()
            &&& counters_have_room(out.posts, 0)
        }),
    decreases decisions.len(),
{
    if decisions.len() > 0 {
        let rest = decisions.drop_last();
        lemma_propagate_len(st, rest, now);
        lemma_propagation_preserves_store(st, rest, now);
        let mid = propagate_all(st, rest, now);
        assert(counters_have_room(mid.posts, 1)) by {
            assert forall|j: int| 0 <= j < mid.posts.len() implies #[trigger] mid.posts[j].upvotes + 1
                <= u64::MAX && mid.posts[j].reposts + 1 <= u64::MAX by {
                if j < st.posts.len() {
                    lemma_counters_bounded(st, rest, now, j);
                } else {
                    lemma_counters_bounded(st, rest, now, j);
                }
            }
        }
        lemma_propagate_one(mid, decisions.last().0, decisions.last().1, now);
        lemma_propagate_one_shape(mid, decisions.last().0, decisions.last().1, now);
        let out = propagate_all(st, decisions, now);
        assert forall|j: int| 0 <= j < st.posts.len() implies post_kept(st.posts[j], #[trigger] out.posts[j]) by {
            assert(post_kept(st.posts[j], mid.posts[j]));
        }
        assert forall|j: int| 0 <= j < out.posts.len() implies #[trigger] out.posts[j].upvotes + 0
            <= u64::MAX && out.posts[j].reposts + 0 <= u64::MAX by {}
    }
}

/// After `k` decisions, every counter grew by at most `k`.
proof fn lemma_counters_bounded(st: Propagation, decisions: Seq<(u64, DecisionView)>, now: u64, j: int)
    requires
        counters_have_room(st.posts, decisions.len() + 1),
        decisions.len() < u64::MAX,
        st.posts.len() + decisions.len() <= usize::MAX,
        0 <= j < propagate_all(st, decisions, now).posts.len(),
    ensures
        ({
            let out = propagate_all(st, decisions, now);
            &&& out.posts[j].upvotes + 1 <= u64::MAX
            &&& out.posts[j].reposts + 1 <= u64::MAX
            &&& j < st.posts.len() ==> out.posts[j].upvotes <= st.posts[j].upvotes + decisions.len()
            &&& j < st.posts.len() ==> out.posts[j].reposts <= st.posts[j].reposts + decisions.len()
            &&& j >= st.posts.len() ==> out.posts[j].upvotes <= decisions.len()
            &&& j >= st.posts.len() ==> out.posts[j].reposts <= decisions.len()
        }),
    decreases decisions.len(),
{
    if decisions.len() > 0 {
        let rest = decisions.drop_last();
        let mid = propagate_all(st, rest, now);
        let out = propagate_all(st, decisions, now);
        let d = decisions.last().1;
        lemma_propagate_len(st, rest, now);
        assert(counters_have_room(mid.posts, 1)) by {
            assert forall|k: int| 0 <= k < mid.posts.len() implies #[trigger] mid.posts[k].upvotes + 1
                <= u64::MAX && mid.posts[k].reposts + 1 <= u64::MAX by {
                lemma_counters_bounded(st, rest, now, k);
            }
        }
        lemma_propagate_one_shape(mid, decisions.last().0, d, now);
        if j < mid.posts.len() {
            lemma_counters_bounded(st, rest, now, j);
        }
        if j < st.posts.len() {
            assert(st.posts[j].upvotes + decisions.len() + 1 <= u64::MAX);
        }
    } else {
        assert(st.posts[j].upvotes + 1 <= u64::MAX);
    }
}

/// Information propagation only ever grows the diffusion metrics: over a
/// step, no cascade gets smaller, no cascade level narrower, and the
/// information reaches no fewer agents.
pub proof fn lemma_propagation_grows_metrics(st: Propagation, decisions: Seq<(u64, DecisionView)>, now: u64)
    requires
        roots_well_formed(st.posts),
        counters_have_room(st.posts, decisions.len()),
        st.posts.len() + decisions.len() <= usize::MAX,
    ensures
        ({
            let out = propagate_all(st, decisions, now).posts;
            &&& forall|r: usize| #[trigger] cascade_size(st.posts, r) <= cascade_size(out, r)
            &&& forall|r: usize, ts: u64| #[trigger] cascade_level(st.posts, r, ts) <= cascade_level(out, r, ts)
            &&& authors(st.posts).len() <= authors(out).len()
        }),
{
    lemma_propagation_preserves_store(st, decisions, now);
    let out = propagate_all(st, decisions, now).posts;
    assert forall|j: int| 0 <= j < st.posts.len() implies {
        &&& (#[trigger] out[j]).author == st.posts[j].author
        &&& out[j].ts == st.posts[j].ts
        &&& out[j].root == st.posts[j].root
    } by {
        assert(post_kept(st.posts[j], out[j]));
    }
    lemma_metrics_grow_with_store(st.posts, out);
}

} // verus!

verus! {

// ------------------------------------------------------------------------
// Feed recommendation and metrics phases
// ------------------------------------------------------------------------

/// The feed recommendation phase: every active agent's feed is rebuilt by
/// [`crate::recsys::build_feed`].
pub struct FeedRecommendationMechanism;

impl FeedRecommendationMechanism {
    /// The phase's name.
    pub fn name(&self) -> (r: &'static str)
        ensures
            r@ == "feed_recommendation"@,
    {
        "feed_recommendation"
    }
}

/// The metrics phase: the number of agents that acted and the
/// polarization index are recorded every step.
pub struct MetricsMechanism;

impl MetricsMechanism {
    /// The phase's name.
    pub fn name(&self) -> (r: &'static str)
        ensures
            r@ == "metrics"@,
    {
        "metrics"
    }
}

// ------------------------------------------------------------------------
// Post-step phase: memory and convergence
// ------------------------------------------------------------------------

/// How many memories an agent keeps.
pub const MEMORY_CAP: usize = 10;

/// The post-step phase: active agents remember the head of their feed, and
/// the run stops once `patience` consecutive steps saw no action.
pub struct PostStepMechanism {
    patience: usize,
    zero_streak: usize,
}

impl PostStepMechanism {
    /// The number of consecutive idle steps that stops the run.
    pub closed spec fn patience_value(&self) -> nat {
        self.patience as nat
    }

    /// The number of consecutive idle steps seen so far.
    pub closed spec fn streak_value(&self) -> nat {
        self.zero_streak as nat
    }

    /// A phase that stops after `patience` idle steps (at least one).
    pub fn new(patience: usize) -> (m: Self)
        ensures
            m.patience_value() == if patience < 1 {
                1
            } else {
                patience as nat
            },
            m.streak_value() == 0,
    {
        PostStepMechanism { patience: if patience < 1 {
            1
        } else {
            patience
        }, zero_streak: 0 }
    }

    /// The phase's name.
    pub fn name(&self) -> (r: &'static str)
        ensures
            r@ == "post_step"@,
    {
        "post_step"
    }

    /// The number of consecutive idle steps seen so far.
    pub fn zero_streak(&self) -> (r: usize)
        ensures
            r as nat == self.streak_value(),
    {
        self.zero_streak
    }

    /// Records how many agents acted this step; returns whether the run has
    /// converged and should stop.
    pub fn record_step(&mut self, action_count: usize) -> (stop: bool)
        requires
            old(self).streak_value() < usize::MAX,
        ensures
            final(self).patience_value() == old(self).patience_value(),
            final(self).streak_value() == next_streak(old(self).streak_value(), action_count),
            stop == (final(self).streak_value() >= final(self).patience_value()),
    {
        if action_count == 0 {
            self.zero_streak = self.zero_streak + 1;
        } else {
            self.zero_streak = 0;
        }
        self.zero_streak >= self.patience
    }
}

/// The idle streak after one more step that saw `action_count` actions.
pub open spec fn next_streak(streak: nat, action_count: usize) -> nat {
    if action_count == 0 {
        streak + 1
    } else {
        0
    }
}

/// The idle streak of a fresh post-step phase after steps that saw the
/// given action counts.
pub open spec fn streak_after(counts: Seq<usize>) -> nat
    decreases counts.len(),
{
    if counts.len() == 0 {
        0
    } else {
        next_streak(streak_after(counts.drop_last()), counts.last())
    }
}

/// The last `k` steps saw no action.
pub open spec fn last_idle(counts: Seq<usize>, k: nat) -> bool {
    &&& k <= counts.len()
    &&& forall|i: int| counts.len() - k <= i < counts.len() ==> #[trigger] counts[i] == 0
}

proof fn lemma_streak_is_idle_suffix(counts: Seq<usize>)
    ensures
        last_idle(counts, streak_after(counts)),
        streak_after(counts) < counts.len() ==> counts[counts.len() - streak_after(counts) - 1] != 0,
    decreases counts.len(),
{
    if counts.len() > 0 {
        let rest = counts.drop_last();
        lemma_streak_is_idle_suffix(rest);
        if counts.last() == 0 {
            let s = streak_after(counts);
            assert forall|i: int| counts.len() - s <= i < counts.len() implies #[trigger] counts[i] == 0 by {
                if i < counts.len() - 1 {
                    assert(counts[i] == rest[i]);
                }
            }
        }
    }
}

/// Convergence: a post-step phase, fed the action counts of successive
/// steps, asks to stop after a step exactly when the last `patience` steps
/// (that one included) saw no action.
pub proof fn lemma_stops_after_idle_steps(patience: nat, counts: Seq<usize>)
    ensures
        (streak_after(counts) >= patience) <==> last_idle(counts, patience),
{
    lemma_streak_is_idle_suffix(counts);
    let s = streak_after(counts);
    if last_idle(counts, patience) && s < patience {
        assert(counts[counts.len() - s - 1] == 0);
    }
}

/// The memory after remembering `item`: the newest `MEMORY_CAP` entries.
pub open spec fn remembered(mem: Seq<Seq<char>>, item: Seq<char>) -> Seq<Seq<char>> {
    let m = mem.push(item);
    if m.len() > MEMORY_CAP {
        m.skip(m.len() - MEMORY_CAP)
    } else {
        m
    }
}

/// The values of a list of strings.
pub open spec fn texts(v: Seq<String>) -> Seq<Seq<char>> {
    v.map_values(|s: String| s@)
}

/// Adds `item` to a memory, dropping the oldest entries beyond the cap.
pub fn remember(memory: &mut Vec<String>, item: String)
    ensures
        texts(final(memory)@) == remembered(texts(old(memory)@), item@),
        final(memory)@.len() <= MEMORY_CAP,
{
    let ghost m = texts(old(memory)@).push(item@);
    memory.push(item);
    assert(texts(memory@) =~= m);
    let ghost dropped: int = 0;
    while memory.len() > MEMORY_CAP
        invariant
            0 <= dropped,
            memory@.len() + dropped == m.len(),
            m.len() > MEMORY_CAP ==> memory@.len() >= MEMORY_CAP,
            m.len() <= MEMORY_CAP ==> dropped == 0,
            texts(memory@) == m.skip(dropped),
        decreases memory.len(),
    {
        let ghost before = memory@;
        memory.remove(0);
        assert forall|k: int| 0 <= k < memory@.len() implies #[trigger] texts(memory@)[k] == m.skip(
            dropped + 1,
        )[k] by {
            assert(memory@[k] == before[k + 1]);
            assert(texts(before)[k + 1] == m.skip(dropped)[k + 1]);
        }
        proof {
            dropped = dropped + 1;
        }
        assert(texts(memory@) =~= m.skip(dropped));
    }
    assert(m.skip(0) =~= m);
}

/// The text of the first post of a feed, if it names a post.
pub open spec fn head_text(feed: Seq<usize>, posts: Seq<PostView>) -> Option<Seq<char>> {
    if feed.len() > 0 && (feed[0] as int) < posts.len() {
        Some(posts[feed[0] as int].content)
    } else {
        None
    }
}

/// An active agent remembers the text at the head of its feed.
pub fn remember_feed_head(memory: &mut Vec<String>, feed: &Vec<usize>, posts: &Vec<Post>)
    ensures
        match head_text(feed@, posts_view(posts@)) {
            Some(t) => texts(final(memory)@) == remembered(texts(old(memory)@), t),
            None => final(memory)@ == old(memory)@,
        },
{
    if feed.len() > 0 && feed[0] < posts.len() {
        let i = feed[0];
        assert(posts_view(posts@)[i as int] == posts@[i as int]@);
        let text = posts[i].content.clone();
        remember(memory, text);
    }
}

// ------------------------------------------------------------------------
// Action choice: who asks the language model
// ------------------------------------------------------------------------

/// The budget of language-model calls of a run.
pub struct LlmBudget {
    remaining: usize,
}

impl LlmBudget {
    /// The calls still allowed.
    pub closed spec fn remaining_value(&self) -> nat {
        self.remaining as nat
    }

    /// A budget of `calls` calls.
    pub fn new(calls: usize) -> (b: Self)
        ensures
            b.remaining_value() == calls,
    {
        LlmBudget { remaining: calls }
    }

    /// The calls still allowed.
    pub fn remaining(&self) -> (r: usize)
        ensures
            r as nat == self.remaining_value(),
    {
        self.remaining
    }

    /// Whether an agent decides with the language model: only leaders do,
    /// and only while calls remain. A call that is granted is charged.
    pub fn route(&mut self, is_leader: bool) -> (use_llm: bool)
        ensures
            use_llm == (is_leader && old(self).remaining_value() > 0),
            final(self).remaining_value() == if use_llm {
                (old(self).remaining_value() - 1) as nat
            } else {
                old(self).remaining_value()
            },
    {
        if is_leader && self.remaining > 0 {
            self.remaining = self.remaining - 1;
            true
        } else {
            false
        }
    }
}

/// Routing a sequence of agents (`true` for a leader) from a budget: the
/// number of model calls granted and the budget left.
pub open spec fn route_all(budget: nat, leaders: Seq<bool>) -> (nat, nat)
    decreases leaders.len(),
{
    if leaders.len() == 0 {
        (0, budget)
    } else {
        let (calls, left) = route_all(budget, leaders.drop_last());
        if leaders.last() && left > 0 {
            ((calls + 1) as nat, (left - 1) as nat)
        } else {
            (calls, left)
        }
    }
}

/// The number of leaders in a sequence.
pub open spec fn leader_count(leaders: Seq<bool>) -> nat
    decreases leaders.len(),
{
    if leaders.len() == 0 {
        0
    } else {
        leader_count(leaders.drop_last()) + if leaders.last() {
            1nat
        } else {
            0nat
        }
    }
}

/// The model-call budget is never exceeded: over any sequence of agents,
/// the calls granted are the leaders served first-come until the budget
/// runs out, i.e. `min(budget, leaders)`, and calls plus budget left equal
/// the budget.
pub proof fn lemma_budget_caps_calls(budget: nat, leaders: Seq<bool>)
    ensures
        route_all(budget, leaders).0 + route_all(budget, leaders).1 == budget,
        route_all(budget, leaders).0 == if leader_count(leaders) < budget {
            leader_count(leaders)
        } else {
            budget
        },
    decreases leaders.len(),
{
    if leaders.len() > 0 {
        lemma_budget_caps_calls(budget, leaders.drop_last());
    }
}

/// For each active agent, whether it is a leader.
pub open spec fn leader_flags(active: Seq<u64>, leaders: Seq<u64>) -> Seq<bool> {
    Seq::new(active.len(), |i: int| leaders.contains(active[i]))
}

/// Decides, for the active agents in order, which ask the language model:
/// leaders, first come first served, while calls remain; each call granted
/// is charged to the budget.
pub fn route_agents(budget: &mut LlmBudget, leaders: &Vec<u64>, active: &Vec<u64>) -> (r: Vec<bool>)
    ensures
        ({
            let flags = leader_flags(active@, leaders@);
            let b = old(budget).remaining_value();
            &&& r@.len() == active@.len()
            &&& forall|i: int|
                0 <= i < r@.len() ==> #[trigger] r@[i] == (flags[i] && route_all(b, flags.take(i)).1 > 0)
            &&& leader_count(r@) == route_all(b, flags).0
            &&& final(budget).remaining_value() == route_all(b, flags).1
        }),
{
    let ghost flags = leader_flags(active@, leaders@);
    let ghost b = budget.remaining_value();
    let mut r: Vec<bool> = Vec::new();
    let mut i: usize = 0;
    while i < active.len()
        invariant
            0 <= i <= active.len(),
            flags == leader_flags(active@, leaders@),
            r@.len() == i,
            forall|j: int| 0 <= j < i ==> #[trigger] r@[j] == (flags[j] && route_all(b, flags.take(j)).1 > 0),
            leader_count(r@) == route_all(b, flags.take(i as int)).0,
            budget.remaining_value() == route_all(b, flags.take(i as int)).1,
        decreases active.len() - i,
    {
        let lead = is_leader(leaders, active[i]);
        let ghost before = r@;
        let use_llm = budget.route(lead);
        r.push(use_llm);
        assert(flags.take(i + 1).drop_last() =~= flags.take(i as int));
        assert(flags.take(i + 1).last() == lead);
        assert(r@.drop_last() =~= before);
        i = i + 1;
    }
    assert(flags.take(active.len() as int) =~= flags);
    r
}

/// A run without leaders asks the model nothing: only leaders are ever
/// routed to it.
pub proof fn lemma_no_leaders_no_calls(budget: nat, leaders: Seq<bool>)
    requires
        forall|i: int| 0 <= i < leaders.len() ==> !#[trigger] leaders[i],
    ensures
        route_all(budget, leaders).0 == 0,
    decreases leaders.len(),
{
    if leaders.len() > 0 {
        let rest = leaders.drop_last();
        assert forall|i: int| 0 <= i < rest.len() implies !#[trigger] rest[i] by {
            assert(leaders[i] == rest[i]);
        }
        lemma_no_leaders_no_calls(budget, rest);
        assert(!leaders[leaders.len() - 1]);
    }
}

/// Whether `agent` is among `leaders`.
pub fn is_leader(leaders: &Vec<u64>, agent: u64) -> (r: bool)
    ensures
        r == leaders@.contains(agent),
{
    let mut i: usize = 0;
    while i < leaders.len()
        invariant
            0 <= i <= leaders.len(),
            forall|j: int| 0 <= j < i ==> leaders@[j] != agent,
        decreases leaders.len() - i,
    {
        if leaders[i] == agent {
            return true;
        }
        i = i + 1;
    }
    false
}

// ------------------------------------------------------------------------
// Action choice: the peripheral agents' simple policy
// ------------------------------------------------------------------------

/// The text of a peripheral agent's post: `Agent <id> shares a thought.`
pub open spec fn thought_text(agent: u64) -> Seq<char> {
    "Agent "@ + decimal(agent as nat) + " shares a thought."@
}

/// The simple policy of an agent that does not ask the model.
///
/// With a non-empty feed the agent first draws whether it engages (with
/// probability 0.8 × its activity); an engaged agent reposts (`coin`) or
/// likes the head of its feed. An agent that does not engage draws `coin`
/// (probability 0.3 × its activity) to write a post, or stays idle.
pub open spec fn peripheral_choice(agent: u64, feed_head: Option<usize>, engage: bool, coin: bool) -> DecisionView {
    if engage && feed_head is Some {
        DecisionView {
            kind: if coin {
                ActionKind::Repost
            } else {
                ActionKind::Like
            },
            target: feed_head,
            content: None,
        }
    } else if coin {
        DecisionView { kind: ActionKind::Post, target: None, content: Some(thought_text(agent)) }
    } else {
        DecisionView { kind: ActionKind::Idle, target: None, content: None }
    }
}

/// The simple policy, case by case: an agent that does not engage acts the
/// same whatever its feed holds, writing its thought when the post coin
/// comes up and idling otherwise; an agent that engages with a feed head
/// reposts it on the coin and likes it otherwise; engaging without a feed
/// is the same as not engaging.
pub proof fn lemma_peripheral_policy(agent: u64, head: Option<usize>, other: Option<usize>, engage: bool, coin: bool)
    ensures
        peripheral_choice(agent, head, false, coin) == peripheral_choice(agent, other, false, coin),
        !engage && coin ==> peripheral_choice(agent, head, engage, coin) == (DecisionView {
            kind: ActionKind::Post,
            target: None,
            content: Some(thought_text(agent)),
        }),
        !coin && (!engage || head is None) ==> peripheral_choice(agent, head, engage, coin) == (DecisionView {
            kind: ActionKind::Idle,
            target: None,
            content: None,
        }),
        engage && head is Some ==> peripheral_choice(agent, head, engage, coin) == (DecisionView {
            kind: if coin {
                ActionKind::Repost
            } else {
                ActionKind::Like
            },
            target: head,
            content: None,
        }),
        head is None ==> peripheral_choice(agent, head, engage, coin) == peripheral_choice(agent, head, false, coin),
{
}

/// The simple policy's decision, given the outcomes of its draws.
pub fn peripheral_decision(agent: u64, feed_head: Option<usize>, engage: bool, coin: bool) -> (r: ActionDecision)
    ensures
        r@ == peripheral_choice(agent, feed_head, engage, coin),
{
    if engage && feed_head.is_some() {
        ActionDecision {
            kind: if coin {
                ActionKind::Repost
            } else {
                ActionKind::Like
            },
            target: feed_head,
            content: None,
        }
    } else if coin {
        let mut s = String::new();
        push_str(&mut s, "Agent ");
        push_decimal(&mut s, agent);
        push_str(&mut s, " shares a thought.");
        assert(s@ =~= thought_text(agent));
        ActionDecision { kind: ActionKind::Post, target: None, content: Some(s) }
    } else {
        ActionDecision { kind: ActionKind::Idle, target: None, content: None }
    }
}

} // verus!