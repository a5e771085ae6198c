//! The recommender: which posts enter an active agent's feed.
//!
//! An agent never sees its own posts. Accounts it follows (its neighbours
//! in the follow graph) make up its in-network; everyone else is
//! out-of-network.
//!
//! - Interest (X): the best `k_in` in-network posts, then the best `k_out`
//!   out-of-network posts, by interest match.
//! - Hot score (Reddit): the best `k_in + k_out` posts by hot score.
//! - Off (ablation): the `k_in` latest in-network posts.
//!
//! Ties are broken by recency (newer first), then by post index. Interest
//! match and hot score are real numbers; they reach this module as `score`
//! keys, one per post, that order posts exactly as the real scores do.
use vstd::prelude::*;

use crate::config::RecSysKind;
use crate::rank::{lemma_short_top_lists_all, lemma_top_positions, top_k, top_positions, RankKey};
use crate::world::{posts_view, Post, PostView};

verus! {

/// Which posts a candidate list draws from.
#[derive(Debug, Clone, Copy, PartialEq, Eq, Structural)]
pub enum Reach {
    /// Posts by followed accounts.
    InNetwork,
    /// Posts by accounts not followed.
    OutOfNetwork,
    /// All posts.
    Everyone,
}

/// Post `p` is a candidate for `agent` from the given reach.
pub open spec fn is_candidate(p: PostView, agent: u64, follows: Seq<u64>, reach: Reach) -> bool {
    &&& p.author != agent
    &&& match reach {
        Reach::InNetwork => follows.contains(p.author),
        Reach::OutOfNetwork => !follows.contains(p.author),
        Reach::Everyone => true,
    }
}

/// The indices, ascending, of the candidate posts among the first `n`.
pub open spec fn candidates(posts: Seq<PostView>, agent: u64, follows: Seq<u64>, reach: Reach, n: nat) -> Seq<usize>
    decreases n,
{
    if n == 0 {
        seq![]
    } else {
        let prev = candidates(posts, agent, follows, reach, (n - 1) as nat);
        if is_candidate(posts[n - 1], agent, follows, reach) {
            prev.push((n - 1) as usize)
        } else {
            prev
        }
    }
}

/// The ranking keys of candidate posts: a primary key per post, then
/// recency, then the post index.
pub open spec fn candidate_keys(idxs: Seq<usize>, primary: Seq<u64>, posts: Seq<PostView>) -> Seq<RankKey> {
    Seq::new(
        idxs.len(),
        |j: int|
            RankKey {
                primary: primary[idxs[j] as int],
                secondary: posts[idxs[j] as int].ts,
                tiebreak: idxs[j] as u64,
            },
    )
}

/// The best `k` candidates, best first.
pub open spec fn best_candidates(idxs: Seq<usize>, primary: Seq<u64>, posts: Seq<PostView>, k: nat) -> Seq<usize> {
    top_positions(candidate_keys(idxs, primary, posts), k).map_values(|p: usize| idxs[p as int])
}

/// The time stamps of the posts.
pub open spec fn post_times(posts: Seq<PostView>) -> Seq<u64> {
    Seq::new(posts.len(), |i: int| posts[i].ts)
}

/// The feed of `agent`.
pub open spec fn feed_of(
    kind: RecSysKind,
    k_in: nat,
    k_out: nat,
    agent: u64,
    follows: Seq<u64>,
    posts: Seq<PostView>,
    score: Seq<u64>,
) -> Seq<usize> {
    let n = posts.len();
    match kind {
        RecSysKind::Interest => best_candidates(
            candidates(posts, agent, follows, Reach::InNetwork, n),
            score,
            posts,
            k_in,
        ) + best_candidates(
            candidates(posts, agent, follows, Reach::OutOfNetwork, n),
            score,
            posts,
            k_out,
        ),
        RecSysKind::HotScore => best_candidates(
            candidates(posts, agent, follows, Reach::Everyone, n),
            score,
            posts,
            k_in + k_out,
        ),
        RecSysKind::Off => best_candidates(
            candidates(posts, agent, follows, Reach::InNetwork, n),
            post_times(posts),
            posts,
            k_in,
        ),
    }
}

/// Every candidate index is the index of a candidate post.
proof fn lemma_candidates_bounds(posts: Seq<PostView>, agent: u64, follows: Seq<u64>, reach: Reach, n: nat)
    requires
        n <= posts.len(),
        n <= usize::MAX,
    ensures
        candidates(posts, agent, follows, reach, n).len() <= n,
        forall|j: int|
            0 <= j < candidates(posts, agent, follows, reach, n).len() ==> #[trigger] candidates(
                posts,
                agent,
                follows,
                reach,
                n,
            )[j] < n,
        forall|x: usize|
            #[trigger] candidates(posts, agent, follows, reach, n).contains(x) ==> x < n
                && is_candidate(posts[x as int], agent, follows, reach),
    decreases n,
{
    if n > 0 {
        lemma_candidates_bounds(posts, agent, follows, reach, (n - 1) as nat);
        let prev = candidates(posts, agent, follows, reach, (n - 1) as nat);
        let cur = candidates(posts, agent, follows, reach, n);
        assert forall|x: usize| #[trigger] cur.contains(x) implies x < n && is_candidate(
            posts[x as int],
            agent,
            follows,
            reach,
        ) by {
            let q = choose|q: int| 0 <= q < cur.len() && cur[q] == x;
            if q < prev.len() {
                assert(prev[q] == x);
                assert(prev.contains(x));
            }
        }
    }
}

/// Every candidate post among the first `n` is listed.
proof fn lemma_candidates_complete(posts: Seq<PostView>, agent: u64, follows: Seq<u64>, reach: Reach, n: nat, i: int)
    requires
        n <= posts.len(),
        n <= usize::MAX,
        0 <= i < n,
        is_candidate(posts[i], agent, follows, reach),
    ensures
        candidates(posts, agent, follows, reach, n).contains(i as usize),
    decreases n,
{
    let prev = candidates(posts, agent, follows, reach, (n - 1) as nat);
    let cur = candidates(posts, agent, follows, reach, n);
    if i < n - 1 {
        lemma_candidates_complete(posts, agent, follows, reach, (n - 1) as nat, i);
        let q = choose|q: int| 0 <= q < prev.len() && prev[q] == i as usize;
        assert(cur[q] == i as usize);
    } else {
        assert(cur[prev.len() as int] == i as usize);
    }
}

/// The best `k` candidates, when fewer than `k`, are all the candidates.
pub proof fn lemma_best_candidates_short(idxs: Seq<usize>, primary: Seq<u64>, posts: Seq<PostView>, k: nat, q: int)
    requires
        idxs.len() <= usize::MAX,
        best_candidates(idxs, primary, posts, k).len() < k,
        0 <= q < idxs.len(),
    ensures
        best_candidates(idxs, primary, posts, k).contains(idxs[q]),
{
    let keys = candidate_keys(idxs, primary, posts);
    lemma_top_positions(keys, k);
    let top = top_positions(keys, k);
    lemma_short_top_lists_all(keys, k, top, q);
    let m = choose|m: int| 0 <= m < top.len() && top[m] == q as usize;
    assert(best_candidates(idxs, primary, posts, k)[m] == idxs[q]);
}

/// Every entry of the best candidates is a candidate.
proof fn lemma_best_candidates_from(idxs: Seq<usize>, primary: Seq<u64>, posts: Seq<PostView>, k: nat, m: int)
    requires
        idxs.len() <= usize::MAX,
        0 <= m < best_candidates(idxs, primary, posts, k).len(),
    ensures
        idxs.contains(best_candidates(idxs, primary, posts, k)[m]),
{
    let keys = candidate_keys(idxs, primary, posts);
    lemma_top_positions(keys, k);
    let top = top_positions(keys, k);
    assert(top[m] < keys.len());
    assert(best_candidates(idxs, primary, posts, k)[m] == idxs[top[m] as int]);
}

/// The hot-score recommender ranks every post but the agent's own,
/// whether its author is followed or not: each entry is a post by someone
/// else, and a feed shorter than `k_in + k_out` lists every such post.
pub proof fn lemma_hot_feed_ranks_everyone(
    k_in: nat,
    k_out: nat,
    agent: u64,
    follows: Seq<u64>,
    posts: Seq<PostView>,
    score: Seq<u64>,
)
    requires
        posts.len() <= usize::MAX,
    ensures
        ({
            let f = feed_of(RecSysKind::HotScore, k_in, k_out, agent, follows, posts, score);
            &&& forall|m: int| 0 <= m < f.len() ==> (#[trigger] f[m] as int) < posts.len() && posts[f[m] as int].author != agent
            &&& f.len() < k_in + k_out ==> forall|i: int|
                0 <= i < posts.len() && #[trigger] posts[i].author != agent ==> f.contains(i as usize)
        }),
{
    let n = posts.len();
    let c = candidates(posts, agent, follows, Reach::Everyone, n);
    let f = feed_of(RecSysKind::HotScore, k_in, k_out, agent, follows, posts, score);
    lemma_candidates_bounds(posts, agent, follows, Reach::Everyone, n);
    assert forall|m: int| 0 <= m < f.len() implies (#[trigger] f[m] as int) < posts.len() && posts[f[m] as int].author
        != agent by {
        lemma_best_candidates_from(c, score, posts, k_in + k_out, m);
    }
    if f.len() < k_in + k_out {
        assert forall|i: int| 0 <= i < posts.len() && #[trigger] posts[i].author != agent implies f.contains(
            i as usize,
        ) by {
            lemma_candidates_complete(posts, agent, follows, Reach::Everyone, n, i);
            let q = choose|q: int| 0 <= q < c.len() && c[q] == i as usize;
            lemma_best_candidates_short(c, score, posts, k_in + k_out, q);
        }
    }
}

/// The interest recommender lists followed accounts' posts first, at
/// most `k_in` of them, then other accounts' posts, at most `k_out`; never
/// the agent's own. Each part lists every eligible post when it is
/// shorter than its bound.
pub open spec fn interest_split(
    f: Seq<usize>,
    p: int,
    k_in: nat,
    k_out: nat,
    agent: u64,
    follows: Seq<u64>,
    posts: Seq<PostView>,
) -> bool {
    &&& 0 <= p <= k_in
    &&& p <= f.len()
    &&& f.len() - p <= k_out
    &&& forall|m: int|
        0 <= m < f.len() ==> (#[trigger] f[m] as int) < posts.len() && posts[f[m] as int].author != agent
            && (follows.contains(posts[f[m] as int].author) <==> m < p)
    &&& p < k_in ==> forall|i: int|
        0 <= i < posts.len() && #[trigger] posts[i].author != agent && follows.contains(posts[i].author)
            ==> f.subrange(0, p).contains(i as usize)
    &&& f.len() - p < k_out ==> forall|i: int|
        0 <= i < posts.len() && #[trigger] posts[i].author != agent && !follows.contains(posts[i].author)
            ==> f.subrange(p, f.len() as int).contains(i as usize)
}

/// The interest feed splits into a followed part and an unfollowed part
/// as [`interest_split`] describes.
pub proof fn lemma_interest_feed_parts(
    k_in: nat,
    k_out: nat,
    agent: u64,
    follows: Seq<u64>,
    posts: Seq<PostView>,
    score: Seq<u64>,
)
    requires
        posts.len() <= usize::MAX,
    ensures
        exists|p: int|
            interest_split(
                feed_of(RecSysKind::Interest, k_in, k_out, agent, follows, posts, score),
                p,
                k_in,
                k_out,
                agent,
                follows,
                posts,
            ),
{
    let n = posts.len();
    let ci = candidates(posts, agent, follows, Reach::InNetwork, n);
    let co = candidates(posts, agent, follows, Reach::OutOfNetwork, n);
    let a = best_candidates(ci, score, posts, k_in);
    let b = best_candidates(co, score, posts, k_out);
    let f = feed_of(RecSysKind::Interest, k_in, k_out, agent, follows, posts, score);
    assert(f == a + b);
    lemma_candidates_bounds(posts, agent, follows, Reach::InNetwork, n);
    lemma_candidates_bounds(posts, agent, follows, Reach::OutOfNetwork, n);
    lemma_top_positions(candidate_keys(ci, score, posts), k_in);
    lemma_top_positions(candidate_keys(co, score, posts), k_out);
    let p = a.len() as int;
    assert forall|m: int| 0 <= m < f.len() implies (#[trigger] f[m] as int) < posts.len() && posts[f[m] as int].author
        != agent && (follows.contains(posts[f[m] as int].author) <==> m < p) by {
        if m < p {
            lemma_best_candidates_from(ci, score, posts, k_in, m);
            assert(f[m] == a[m]);
        } else {
            lemma_best_candidates_from(co, score, posts, k_out, m - p);
            assert(f[m] == b[m - p]);
        }
    }
    assert(f.subrange(0, p) =~= a);
    assert(f.subrange(p, f.len() as int) =~= b);
    if p < k_in {
        assert forall|i: int|
            0 <= i < posts.len() && #[trigger] posts[i].author != agent && follows.contains(
                posts[i].author,
            ) implies f.subrange(0, p).contains(i as usize) by {
            lemma_candidates_complete(posts, agent, follows, Reach::InNetwork, n, i);
            let q = choose|q: int| 0 <= q < ci.len() && ci[q] == i as usize;
            lemma_best_candidates_short(ci, score, posts, k_in, q);
        }
    }
    if f.len() - p < k_out {
        assert forall|i: int|
            0 <= i < posts.len() && #[trigger] posts[i].author != agent && !follows.contains(
                posts[i].author,
            ) implies f.subrange(p, f.len() as int).contains(i as usize) by {
            lemma_candidates_complete(posts, agent, follows, Reach::OutOfNetwork, n, i);
            let q = choose|q: int| 0 <= q < co.len() && co[q] == i as usize;
            lemma_best_candidates_short(co, score, posts, k_out, q);
        }
    }
    assert(interest_split(f, p, k_in, k_out, agent, follows, posts));
}

/// Without a recommender the feed holds only followed accounts' posts by
/// someone else, and a feed shorter than `k_in` lists every such post.
pub proof fn lemma_off_feed_lists_follows(
    k_in: nat,
    k_out: nat,
    agent: u64,
    follows: Seq<u64>,
    posts: Seq<PostView>,
    score: Seq<u64>,
)
    requires
        posts.len() <= usize::MAX,
    ensures
        ({
            let f = feed_of(RecSysKind::Off, k_in, k_out, agent, follows, posts, score);
            &&& forall|m: int|
                0 <= m < f.len() ==> (#[trigger] f[m] as int) < posts.len() && posts[f[m] as int].author != agent
                    && follows.contains(posts[f[m] as int].author)
            &&& f.len() < k_in ==> forall|i: int|
                0 <= i < posts.len() && #[trigger] posts[i].author != agent && follows.contains(posts[i].author)
                    ==> f.contains(i as usize)
        }),
{
    let n = posts.len();
    let c = candidates(posts, agent, follows, Reach::InNetwork, n);
    let f = feed_of(RecSysKind::Off, k_in, k_out, agent, follows, posts, score);
    lemma_candidates_bounds(posts, agent, follows, Reach::InNetwork, n);
    assert forall|m: int| 0 <= m < f.len() implies (#[trigger] f[m] as int) < posts.len() && posts[f[m] as int].author
        != agent && follows.contains(posts[f[m] as int].author) by {
        lemma_best_candidates_from(c, post_times(posts), posts, k_in, m);
    }
    if f.len() < k_in {
        assert forall|i: int|
            0 <= i < posts.len() && #[trigger] posts[i].author != agent && follows.contains(
                posts[i].author,
            ) implies f.contains(i as usize) by {
            lemma_candidates_complete(posts, agent, follows, Reach::InNetwork, n, i);
            let q = choose|q: int| 0 <= q < c.len() && c[q] == i as usize;
            lemma_best_candidates_short(c, post_times(posts), posts, k_in, q);
        }
    }
}

/// Whether `x` is in `v`.
fn contains_id(v: &Vec<u64>, x: u64) -> (r: bool)
    ensures
        r == v@.contains(x),
{
    let mut i: usize = 0;
    while i < v.len()
        invariant
            0 <= i <= v.len(),
            forall|j: int| 0 <= j < i ==> v@[j] != x,
        decreases v.len() - i,
    {
        if v[i] == x {
            return true;
        }
        i = i + 1;
    }
    false
}

/// The candidate indices for `agent` from the given reach.
fn collect_candidates(posts: &Vec<Post>, agent: u64, follows: &Vec<u64>, reach: Reach) -> (r: Vec<usize>)
    ensures
        r@ == candidates(posts_view(posts@), agent, follows@, reach, posts@.len()),
{
    let ghost pv = posts_view(posts@);
    let mut r: Vec<usize> = Vec::new();
    let mut i: usize = 0;
    while i < posts.len()
        invariant
            0 <= i <= posts.len(),
            pv == posts_view(posts@),
            r@ == candidates(pv, agent, follows@, reach, i as nat),
        decreases posts.len() - i,
    {
        let p = &posts[i];
        assert(pv[i as int] == p@);
        let keep = p.author != agent && match reach {
            Reach::InNetwork => contains_id(follows, p.author),
            Reach::OutOfNetwork => !contains_id(follows, p.author),
            Reach::Everyone => true,
        };
        if keep {
            r.push(i);
        }
        i = i + 1;
    }
    r
}

/// The best `k` of the candidates `idxs`, ranked by `primary`, recency and
/// index.
fn pick_best(idxs: &Vec<usize>, primary: &Vec<u64>, posts: &Vec<Post>, k: usize) -> (r: Vec<usize>)
    requires
        primary.len() == posts.len(),
        forall|j: int| 0 <= j < idxs.len() ==> #[trigger] idxs@[j] < posts.len(),
    ensures
        r@ == best_candidates(idxs@, primary@, posts_view(posts@), k as nat),
        r.len() == if k < idxs.len() { k } else { idxs.len() },
        forall|m: int| 0 <= m < r.len() ==> idxs@.contains(#[trigger] r@[m]),
{
    let ghost pv = posts_view(posts@);
    let mut keys: Vec<RankKey> = Vec::new();
    let mut j: usize = 0;
    while j < idxs.len()
        invariant
            0 <= j <= idxs.len(),
            primary.len() == posts.len(),
            pv == posts_view(posts@),
            forall|m: int| 0 <= m < idxs.len() ==> #[trigger] idxs@[m] < posts.len(),
            keys@ == candidate_keys(idxs@, primary@, pv).take(j as int),
        decreases idxs.len() - j,
    {
        let i = idxs[j];
        assert(pv[i as int] == posts@[i as int]@);
        keys.push(RankKey { primary: primary[i], secondary: posts[i].ts, tiebreak: i as u64 });
        assert(keys@ =~= candidate_keys(idxs@, primary@, pv).take(j + 1));
        j = j + 1;
    }
    assert(keys@ =~= candidate_keys(idxs@, primary@, pv));
    let top = top_k(&keys, k);
    let mut r: Vec<usize> = Vec::new();
    let mut m: usize = 0;
    while m < top.len()
        invariant
            0 <= m <= top.len(),
            top@ == top_positions(keys@, k as nat),
            keys@.len() == idxs@.len(),
            forall|q: int| 0 <= q < top@.len() ==> #[trigger] top@[q] < keys@.len(),
            r@ == top@.take(m as int).map_values(|p: usize| idxs@[p as int]),
        decreases top.len() - m,
    {
        r.push(idxs[top[m]]);
        assert(r@ =~= top@.take(m + 1).map_values(|p: usize| idxs@[p as int]));
        m = m + 1;
    }
    assert(top@.take(top@.len() as int) =~= top@);
    assert forall|m: int| 0 <= m < r.len() implies idxs@.contains(#[trigger] r@[m]) by {
        assert(r@[m] == idxs@[top@[m] as int]);
    }
    r
}

/// Builds the feed of `agent`: post indices, best first.
///
/// `follows` are the accounts `agent` follows; `score` holds one ranking key
/// per post (interest match for `Interest`, hot score for `HotScore`;
/// unused for `Off`, which ranks by recency).
pub fn build_feed(
    kind: RecSysKind,
    k_in: usize,
    k_out: usize,
    agent: u64,
    follows: &Vec<u64>,
    posts: &Vec<Post>,
    score: &Vec<u64>,
) -> (r: Vec<usize>)
    requires
        score.len() == posts.len(),
        kind == RecSysKind::HotScore ==> k_in + k_out <= usize::MAX,
    ensures
        r@ == feed_of(kind, k_in as nat, k_out as nat, agent, follows@, posts_view(posts@), score@),
        forall|m: int|
            0 <= m < r.len() ==> #[trigger] r@[m] < posts.len() && posts@[r@[m] as int].author != agent,
        kind == RecSysKind::Off ==> forall|m: int|
            0 <= m < r.len() ==> follows@.contains(posts@[#[trigger] r@[m] as int].author),
        kind == RecSysKind::Interest ==> r.len() <= k_in + k_out,
        kind == RecSysKind::HotScore ==> r.len() <= k_in + k_out,
        kind == RecSysKind::Off ==> r.len() <= k_in,
        kind == RecSysKind::HotScore && r.len() < k_in + k_out ==> forall|i: int|
            0 <= i < posts.len() && #[trigger] posts@[i].author != agent ==> r@.contains(i as usize),
        kind == RecSysKind::Off && r.len() < k_in ==> forall|i: int|
            0 <= i < posts.len() && #[trigger] posts@[i].author != agent && follows@.contains(posts@[i].author)
                ==> r@.contains(i as usize),
        kind == RecSysKind::Interest ==> exists|p: int|
            interest_split(r@, p, k_in as nat, k_out as nat, agent, follows@, posts_view(posts@)),
{
    let ghost pv = posts_view(posts@);
    let n = posts.len();
    let r = match kind {
        RecSysKind::Interest => {
            let inside = collect_candidates(posts, agent, follows, Reach::InNetwork);
            let outside = collect_candidates(posts, agent, follows, Reach::OutOfNetwork);
            proof {
                lemma_candidates_bounds(pv, agent, follows@, Reach::InNetwork, n as nat);
                lemma_candidates_bounds(pv, agent, follows@, Reach::OutOfNetwork, n as nat);
            }
            let mut feed = pick_best(&inside, score, posts, k_in);
            let mut rest = pick_best(&outside, score, posts, k_out);
            let ghost f1 = feed@;
            let ghost f2 = rest@;
            feed.append(&mut rest);
            proof {
                assert forall|m: int| 0 <= m < feed.len() implies #[trigger] feed@[m] < posts.len()
                    && posts@[feed@[m] as int].author != agent by {
                    if m < f1.len() {
                        assert(inside@.contains(f1[m]));
                        assert(pv[f1[m] as int] == posts@[f1[m] as int]@);
                    } else {
                        assert(outside@.contains(f2[m - f1.len()]));
                        assert(pv[f2[m - f1.len()] as int] == posts@[f2[m - f1.len()] as int]@);
                    }
                }
            }
            feed
        },
        RecSysKind::HotScore => {
            let all = collect_candidates(posts, agent, follows, Reach::Everyone);
            proof {
                lemma_candidates_bounds(pv, agent, follows@, Reach::Everyone, n as nat);
            }
            let feed = pick_best(&all, score, posts, k_in + k_out);
            proof {
                assert forall|m: int| 0 <= m < feed.len() implies #[trigger] feed@[m] < posts.len()
                    && posts@[feed@[m] as int].author != agent by {
                    assert(all@.contains(feed@[m]));
                    assert(pv[feed@[m] as int] == posts@[feed@[m] as int]@);
                }
            }
            feed
        },
        RecSysKind::Off => {
            let inside = collect_candidates(posts, agent, follows, Reach::InNetwork);
            proof {
                lemma_candidates_bounds(pv, agent, follows@, Reach::InNetwork, n as nat);
            }
            let mut times: Vec<u64> = Vec::new();
            let mut i: usize = 0;
            while i < n
                invariant
                    0 <= i <= n == posts.len(),
                    pv == posts_view(posts@),
                    times@ == post_times(pv).take(i as int),
                decreases n - i,
            {
                times.push(posts[i].ts);
                assert(times@ =~= post_times(pv).take(i + 1));
                i = i + 1;
            }
            assert(times@ =~= post_times(pv));
            let feed = pick_best(&inside, &times, posts, k_in);
            proof {
                assert forall|m: int| 0 <= m < feed.len() implies #[trigger] feed@[m] < posts.len()
                    && posts@[feed@[m] as int].author != agent && follows@.contains(
                    posts@[feed@[m] as int].author,
                ) by {
                    assert(inside@.contains(feed@[m]));
                    assert(pv[feed@[m] as int] == posts@[feed@[m] as int]@);
                }
            }
            feed
        },
    };
    proof {
        lemma_hot_feed_ranks_everyone(k_in as nat, k_out as nat, agent, follows@, pv, score@);
        lemma_off_feed_lists_follows(k_in as nat, k_out as nat, agent, follows@, pv, score@);
        lemma_interest_feed_parts(k_in as nat, k_out as nat, agent, follows@, pv, score@);
        assert forall|i: int| 0 <= i < posts.len() implies #[trigger] posts@[i].author == pv[i].author by {}
    }
    r
}

} // verus!
