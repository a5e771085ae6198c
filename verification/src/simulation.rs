//! Setting up a run: agent names and interests, the seed posts that start
//! the first cascades, and the choice of opinion leaders (the agents with
//! the most connections, who decide with the language model).
use vstd::prelude::*;

use crate::rank::{left_out, top_k, top_positions, RankKey};
use crate::text::{decimal, push_decimal, push_str};
use crate::world::{fresh_post, posts_view, roots_well_formed, Post};

verus! {

/// The topic the synthetic population discusses.
pub const DEFAULT_TOPIC: &'static str = "nuclear energy policy";

/// The interest profile given to the agent at position `i` (the profiles
/// cycle through six themes).
pub open spec fn interest_text(i: nat) -> Seq<char> {
    let m = i % 6;
    if m == 0 {
        "nuclear energy policy and climate"@
    } else if m == 1 {
        "renewable solar wind power"@
    } else if m == 2 {
        "economic growth jobs industry"@
    } else if m == 3 {
        "public health safety regulation"@
    } else if m == 4 {
        "technology innovation startups"@
    } else {
        "education science research funding"@
    }
}

/// The interest profile (bio) of the agent at position `i`.
pub fn interest_of(i: usize) -> (r: &'static str)
    ensures
        r@ == interest_text(i as nat),
{
    let m = i % 6;
    if m == 0 {
        "nuclear energy policy and climate"
    } else if m == 1 {
        "renewable solar wind power"
    } else if m == 2 {
        "economic growth jobs industry"
    } else if m == 3 {
        "public health safety regulation"
    } else if m == 4 {
        "technology innovation startups"
    } else {
        "education science research funding"
    }
}

/// The display name of an agent: `user<id>`.
pub open spec fn agent_name_text(id: u64) -> Seq<char> {
    "user"@ + decimal(id as nat)
}

/// The display name of an agent.
pub fn agent_name(id: u64) -> (r: String)
    ensures
        r@ == agent_name_text(id),
{
    let mut s = String::new();
    push_str(&mut s, "user");
    push_decimal(&mut s, id);
    s
}

/// The text of the seed post of agent `id`.
pub open spec fn seed_text(id: u64) -> Seq<char> {
    "Initial take on "@ + DEFAULT_TOPIC@ + " by user"@ + decimal(id as nat) + "."@
}

/// How many agents write a seed post: as many as there are leaders, at
/// least one, at most everyone.
pub open spec fn seed_count(n_agents: nat, n_leaders: nat) -> nat {
    let wanted = if n_leaders < 1 {
        1
    } else {
        n_leaders
    };
    if wanted < n_agents {
        wanted
    } else {
        n_agents
    }
}

/// The seed posts: the first agents each post once at time 0, every post
/// starting its own cascade.
pub fn seed_posts(ids: &Vec<u64>, n_leaders: usize) -> (r: Vec<Post>)
    ensures
        r.len() == seed_count(ids.len() as nat, n_leaders as nat),
        forall|i: int|
            0 <= i < r.len() ==> (#[trigger] r@[i])@ == fresh_post(ids@[i], seed_text(ids@[i]), 0, i as usize),
        roots_well_formed(posts_view(r@)),
{
    let wanted = if n_leaders < 1 {
        1
    } else {
        n_leaders
    };
    let count = if wanted < ids.len() {
        wanted
    } else {
        ids.len()
    };
    let mut r: Vec<Post> = Vec::new();
    let mut i: usize = 0;
    while i < count
        invariant
            0 <= i <= count <= ids.len(),
            r.len() == i,
            forall|j: int|
                0 <= j < i ==> (#[trigger] r@[j])@ == fresh_post(ids@[j], seed_text(ids@[j]), 0, j as usize),
        decreases count - i,
    {
        let id = ids[i];
        let mut text = String::new();
        push_str(&mut text, "Initial take on ");
        push_str(&mut text, DEFAULT_TOPIC);
        push_str(&mut text, " by user");
        push_decimal(&mut text, id);
        push_str(&mut text, ".");
        assert(text@ =~= seed_text(id));
        r.push(Post::new(id, text, 0, i));
        i = i + 1;
    }
    proof {
        let pv = posts_view(r@);
        assert forall|j: int| 0 <= j < pv.len() implies {
            &&& #[trigger] pv[j].root <= j
            &&& pv[pv[j].root as int].root == pv[j].root
        } by {
            assert(r@[j]@ == fresh_post(ids@[j], seed_text(ids@[j]), 0, j as usize));
        }
    }
    r
}

/// The ranking keys of agents for leadership: degree (descending), then id
/// (ascending).
pub open spec fn leader_keys(agents: Seq<(u64, usize)>) -> Seq<RankKey> {
    Seq::new(
        agents.len(),
        |i: int| RankKey { primary: agents[i].1 as u64, secondary: 0, tiebreak: agents[i].0 },
    )
}

/// The positions, best first, of the `n` leaders among `agents`.
pub open spec fn leader_positions(agents: Seq<(u64, usize)>, n: nat) -> Seq<usize> {
    top_positions(leader_keys(agents), n)
}

/// Picks the `n_leaders` agents with the highest degree (ties by smaller
/// id). `agents` lists each agent's id with its degree in the follow graph.
pub fn select_leaders(agents: &Vec<(u64, usize)>, n_leaders: usize) -> (r: Vec<u64>)
    ensures
        r@ == leader_positions(agents@, n_leaders as nat).map_values(|p: usize| agents@[p as int].0),
        r.len() == if n_leaders < agents.len() {
            n_leaders
        } else {
            agents.len()
        },
        forall|i: int, x: int|
            0 <= i < r.len() && #[trigger] left_out(
                leader_keys(agents@),
                leader_positions(agents@, n_leaders as nat),
                x,
            ) ==> agents@[#[trigger] leader_positions(agents@, n_leaders as nat)[i] as int].1
                >= agents@[x].1,
{
    let mut keys: Vec<RankKey> = Vec::new();
    let mut i: usize = 0;
    while i < agents.len()
        invariant
            0 <= i <= agents.len(),
            keys@ == leader_keys(agents@).take(i as int),
        decreases agents.len() - i,
    {
        let (id, degree) = agents[i];
        keys.push(RankKey { primary: degree as u64, secondary: 0, tiebreak: id });
        assert(keys@ =~= leader_keys(agents@).take(i + 1));
        i = i + 1;
    }
    assert(keys@ =~= leader_keys(agents@));
    let top = top_k(&keys, n_leaders);
    let mut r: Vec<u64> = Vec::new();
    let mut m: usize = 0;
    while m < top.len()
        invariant
            0 <= m <= top.len(),
            top@ == top_positions(keys@, n_leaders as nat),
            keys@.len() == agents@.len(),
            forall|q: int| 0 <= q < top@.len() ==> #[trigger] top@[q] < keys@.len(),
            r@ == top@.take(m as int).map_values(|p: usize| agents@[p as int].0),
        decreases top.len() - m,
    {
        r.push(agents[top[m]].0);
        assert(r@ =~= top@.take(m + 1).map_values(|p: usize| agents@[p as int].0));
        m = m + 1;
    }
    assert(top@.take(top@.len() as int) =~= top@);
    proof {
        let pos = leader_positions(agents@, n_leaders as nat);
        assert forall|i: int, x: int|
            0 <= i < r.len() && #[trigger] left_out(leader_keys(agents@), pos, x) implies agents@[#[trigger] pos[i] as int].1
            >= agents@[x].1 by {
            assert(crate::rank::ranks_before(leader_keys(agents@), pos[i] as int, x));
        }
    }
    r
}

} // verus!
