//! Diffusion metrics of the post store.
//!
//! Posts are grouped into cascades by their `root` link: a fresh post is
//! its own root and a repost inherits the root of what it reposts.
//!
//! - cascade size: the number of posts in a cascade (root included);
//! - cascade breadth: the number of posts of one cascade made at the same
//!   time step;
//! - propagation reach: the number of distinct authors in the store.
use vstd::prelude::*;

use crate::world::{posts_view, Post, PostView};

verus! {

// ------------------------------------------------------------------------
// Tallies of pair keys
// ------------------------------------------------------------------------

/// Lexicographic order on key pairs.
pub open spec fn key_lt(a: (u64, u64), b: (u64, u64)) -> bool {
    a.0 < b.0 || (a.0 == b.0 && a.1 < b.1)
}

/// How often `k` occurs in `keys`.
pub open spec fn count_in(keys: Seq<(u64, u64)>, k: (u64, u64)) -> nat
    decreases keys.len(),
{
    if keys.len() == 0 {
        0
    } else {
        count_in(keys.drop_last(), k) + if keys.last() == k {
            1nat
        } else {
            0nat
        }
    }
}

/// `k` has an entry in the tally `t`.
pub open spec fn tallied(t: Seq<((u64, u64), usize)>, k: (u64, u64)) -> bool {
    exists|i: int| 0 <= i < t.len() && (#[trigger] t[i]).0 == k
}

/// `t` lists each distinct key of `keys` once, in increasing order, with
/// the number of times it occurs.
pub open spec fn is_tally(keys: Seq<(u64, u64)>, t: Seq<((u64, u64), usize)>) -> bool {
    &&& forall|i: int, j: int| 0 <= i < j < t.len() ==> key_lt((#[trigger] t[i]).0, (#[trigger] t[j]).0)
    &&& forall|i: int| 0 <= i < t.len() ==> (#[trigger] t[i]).1 == count_in(keys, t[i].0) && t[i].1 >= 1
    &&& forall|p: int| 0 <= p < keys.len() ==> tallied(t, #[trigger] keys[p])
}

proof fn lemma_count_bounded(keys: Seq<(u64, u64)>, k: (u64, u64))
    ensures
        count_in(keys, k) <= keys.len(),
    decreases keys.len(),
{
    if keys.len() > 0 {
        lemma_count_bounded(keys.drop_last(), k);
    }
}

proof fn lemma_count_absent(keys: Seq<(u64, u64)>, k: (u64, u64))
    requires
        forall|p: int| 0 <= p < keys.len() ==> #[trigger] keys[p] != k,
    ensures
        count_in(keys, k) == 0,
    decreases keys.len(),
{
    if keys.len() > 0 {
        lemma_count_absent(keys.drop_last(), k);
    }
}

/// Counts the distinct keys of `keys`.
pub fn tally(keys: &Vec<(u64, u64)>) -> (t: Vec<((u64, u64), usize)>)
    ensures
        is_tally(keys@, t@),
{
    let mut t: Vec<((u64, u64), usize)> = Vec::new();
    let mut i: usize = 0;
    while i < keys.len()
        invariant
            0 <= i <= keys.len(),
            is_tally(keys@.take(i as int), t@),
        decreases keys.len() - i,
    {
        let k = keys[i];
        let ghost pre = keys@.take(i as int);
        let ghost post = keys@.take(i + 1);
        let ghost old_t = t@;
        assert(post.drop_last() =~= pre);
        assert(post.last() == k);
        let mut j: usize = 0;
        while j < t.len() && (t[j].0.0 < k.0 || (t[j].0.0 == k.0 && t[j].0.1 < k.1))
            invariant
                0 <= j <= t.len(),
                t@ == old_t,
                forall|m: int| 0 <= m < j ==> key_lt((#[trigger] t@[m]).0, k),
            decreases t.len() - j,
        {
            j = j + 1;
        }
        proof {
            assert forall|m: int| 0 <= m < t.len() implies (#[trigger] t@[m]).1 <= i by {
                lemma_count_bounded(pre, t@[m].0);
            }
        }
        if j < t.len() && t[j].0.0 == k.0 && t[j].0.1 == k.1 {
            let c = t[j].1;
            t.set(j, (k, c + 1));
            proof {
                assert forall|m: int| 0 <= m < t.len() implies (#[trigger] t@[m]).1 == count_in(post, t@[m].0)
                    && t@[m].1 >= 1 by {
                    if m != j {
                        assert(old_t[m].0 != k) by {
                            if m < j {
                            } else {
                                assert(key_lt(old_t[j as int].0, old_t[m].0));
                            }
                        }
                    }
                }
                assert forall|p: int| 0 <= p < post.len() implies tallied(t@, #[trigger] post[p]) by {
                    if p < pre.len() {
                        assert(pre[p] == post[p]);
                        let q = choose|q: int| 0 <= q < old_t.len() && (#[trigger] old_t[q]).0 == pre[p];
                        assert(t@[q].0 == old_t[q].0);
                    } else {
                        assert(t@[j as int].0 == k);
                    }
                }
            }
        } else {
            proof {
                assert forall|m: int| 0 <= m < old_t.len() implies (#[trigger] old_t[m]).0 != k by {
                    if m >= j {
                        if m > j {
                            assert(key_lt(old_t[j as int].0, old_t[m].0));
                        }
                    }
                }
                assert forall|p: int| 0 <= p < pre.len() implies #[trigger] pre[p] != k by {
                    let q = choose|q: int| 0 <= q < old_t.len() && (#[trigger] old_t[q]).0 == pre[p];
                    assert(old_t[q].0 != k);
                }
                lemma_count_absent(pre, k);
            }
            t.insert(j, (k, 1));
            proof {
                assert forall|a: int, b: int| 0 <= a < b < t.len() implies key_lt(
                    (#[trigger] t@[a]).0,
                    (#[trigger] t@[b]).0,
                ) by {
                    if b < j {
                        assert(t@[a] == old_t[a] && t@[b] == old_t[b]);
                    } else if b == j {
                        assert(t@[a] == old_t[a]);
                    } else if a == j {
                        assert(t@[b] == old_t[b - 1]);
                        if b - 1 > j {
                            assert(key_lt(old_t[j as int].0, old_t[b - 1].0));
                        }
                        assert(old_t[j as int].0 != k);
                    } else if a < j {
                        assert(t@[a] == old_t[a] && t@[b] == old_t[b - 1]);
                    } else {
                        assert(t@[a] == old_t[a - 1] && t@[b] == old_t[b - 1]);
                    }
                }
                assert forall|m: int| 0 <= m < t.len() implies (#[trigger] t@[m]).1 == count_in(post, t@[m].0)
                    && t@[m].1 >= 1 by {
                    if m < j {
                        assert(t@[m] == old_t[m]);
                    } else if m > j {
                        assert(t@[m] == old_t[m - 1]);
                    }
                }
                assert forall|p: int| 0 <= p < post.len() implies tallied(t@, #[trigger] post[p]) by {
                    if p < pre.len() {
                        assert(pre[p] == post[p]);
                        let q = choose|q: int| 0 <= q < old_t.len() && (#[trigger] old_t[q]).0 == pre[p];
                        if q < j {
                            assert(t@[q] == old_t[q]);
                        } else {
                            assert(t@[q + 1] == old_t[q]);
                        }
                    } else {
                        assert(t@[j as int].0 == k);
                    }
                }
            }
        }
        i = i + 1;
    }
    assert(keys@.take(keys@.len() as int) =~= keys@);
    t
}

// ------------------------------------------------------------------------
// Cascades
// ------------------------------------------------------------------------

/// The cascade key of each post.
pub open spec fn root_keys(posts: Seq<PostView>) -> Seq<(u64, u64)> {
    Seq::new(posts.len(), |i: int| (posts[i].root as u64, 0u64))
}

/// The (cascade, time step) key of each post.
pub open spec fn level_keys(posts: Seq<PostView>) -> Seq<(u64, u64)> {
    Seq::new(posts.len(), |i: int| (posts[i].root as u64, posts[i].ts))
}

/// The number of posts in cascade `root`.
pub open spec fn cascade_size(posts: Seq<PostView>, root: usize) -> nat {
    count_in(root_keys(posts), (root as u64, 0))
}

/// The number of posts of cascade `root` made at time step `ts`.
pub open spec fn cascade_level(posts: Seq<PostView>, root: usize, ts: u64) -> nat {
    count_in(level_keys(posts), (root as u64, ts))
}

/// `r` lists every cascade once, by increasing root index, with its size.
pub open spec fn is_cascade_table(posts: Seq<PostView>, r: Seq<(usize, usize)>) -> bool {
    &&& forall|i: int, j: int| 0 <= i < j < r.len() ==> (#[trigger] r[i]).0 < (#[trigger] r[j]).0
    &&& forall|i: int| 0 <= i < r.len() ==> (#[trigger] r[i]).1 == cascade_size(posts, r[i].0) && r[i].1 >= 1
    &&& forall|p: int| 0 <= p < posts.len() ==> lists_root(r, (#[trigger] posts[p]).root)
}

/// `root` has a row in `r`.
pub open spec fn lists_root(r: Seq<(usize, usize)>, root: usize) -> bool {
    exists|i: int| 0 <= i < r.len() && (#[trigger] r[i]).0 == root
}

/// The keys of a post store.
fn keys_of(posts: &Vec<Post>, with_time: bool) -> (k: Vec<(u64, u64)>)
    ensures
        k@ == if with_time {
            level_keys(posts_view(posts@))
        } else {
            root_keys(posts_view(posts@))
        },
{
    let ghost pv = posts_view(posts@);
    let mut k: Vec<(u64, u64)> = Vec::new();
    let mut i: usize = 0;
    while i < posts.len()
        invariant
            0 <= i <= posts.len(),
            pv == posts_view(posts@),
            k@ == (if with_time {
                level_keys(pv)
            } else {
                root_keys(pv)
            }).take(i as int),
        decreases posts.len() - i,
    {
        assert(pv[i as int] == posts@[i as int]@);
        if with_time {
            k.push((posts[i].root as u64, posts[i].ts));
        } else {
            k.push((posts[i].root as u64, 0));
        }
        assert(k@ =~= (if with_time {
            level_keys(pv)
        } else {
            root_keys(pv)
        }).take(i + 1));
        i = i + 1;
    }
    assert(k@ =~= if with_time {
        level_keys(pv)
    } else {
        root_keys(pv)
    });
    k
}

/// The size of every cascade, by increasing root index: `(root, size)`.
pub fn cascade_sizes(posts: &Vec<Post>) -> (r: Vec<(usize, usize)>)
    ensures
        is_cascade_table(posts_view(posts@), r@),
{
    let ghost pv = posts_view(posts@);
    let keys = keys_of(posts, false);
    let t = tally(&keys);
    let mut r: Vec<(usize, usize)> = Vec::new();
    let mut i: usize = 0;
    proof {
        assert forall|m: int| 0 <= m < t.len() implies (#[trigger] t@[m]).0.1 == 0 && t@[m].0.0 <= usize::MAX by {
            let c = t@[m].0;
            if !(c.1 == 0 && c.0 <= usize::MAX) {
                assert forall|p: int| 0 <= p < keys@.len() implies #[trigger] keys@[p] != c by {}
                lemma_count_absent(keys@, c);
            }
        }
    }
    while i < t.len()
        invariant
            0 <= i <= t.len(),
            keys@ == root_keys(pv),
            pv == posts_view(posts@),
            is_tally(keys@, t@),
            forall|m: int| 0 <= m < t.len() ==> (#[trigger] t@[m]).0.1 == 0 && t@[m].0.0 <= usize::MAX,
            r@ == t@.take(i as int).map_values(|e: ((u64, u64), usize)| (e.0.0 as usize, e.1)),
        decreases t.len() - i,
    {
        r.push((t[i].0.0 as usize, t[i].1));
        assert(r@ =~= t@.take(i + 1).map_values(|e: ((u64, u64), usize)| (e.0.0 as usize, e.1)));
        i = i + 1;
    }
    proof {
        assert(t@.take(t@.len() as int) =~= t@);
        assert forall|a: int, b: int| 0 <= a < b < r.len() implies (#[trigger] r@[a]).0 < (#[trigger] r@[b]).0 by {
            assert(key_lt(t@[a].0, t@[b].0));
        }
        assert forall|a: int| 0 <= a < r.len() implies (#[trigger] r@[a]).1 == cascade_size(pv, r@[a].0)
            && r@[a].1 >= 1 by {
            assert(t@[a].0 == (r@[a].0 as u64, 0u64));
        }
        assert forall|p: int| 0 <= p < pv.len() implies lists_root(r@, (#[trigger] pv[p]).root) by {
            assert(keys@[p] == (pv[p].root as u64, 0u64));
            assert(tallied(t@, keys@[p]));
            let q = choose|q: int| 0 <= q < t.len() && (#[trigger] t@[q]).0 == keys@[p];
            assert(t@[q].0.0 == pv[p].root as u64);
            assert((pv[p].root as u64) as usize == pv[p].root);
            assert(r@[q] == (t@[q].0.0 as usize, t@[q].1));
            assert(r@[q].0 == pv[p].root);
        }
    }
    r
}

/// The largest count of a tally, or 0 for an empty tally.
fn max_count(t: &Vec<((u64, u64), usize)>) -> (m: usize)
    ensures
        t.len() == 0 ==> m == 0,
        t.len() > 0 ==> exists|i: int| 0 <= i < t.len() && (#[trigger] t@[i]).1 == m,
        forall|i: int| 0 <= i < t.len() ==> (#[trigger] t@[i]).1 <= m,
{
    let mut m: usize = 0;
    let mut i: usize = 0;
    while i < t.len()
        invariant
            0 <= i <= t.len(),
            i == 0 ==> m == 0,
            i > 0 ==> exists|q: int| 0 <= q < i && (#[trigger] t@[q]).1 == m,
            forall|q: int| 0 <= q < i ==> (#[trigger] t@[q]).1 <= m,
        decreases t.len() - i,
    {
        if t[i].1 > m || i == 0 {
            if t[i].1 > m {
                m = t[i].1;
            } else {
                assert(t@[0].1 == 0 || t@[0].1 <= m);
                if t[i].1 == m {
                } else {
                    m = t[i].1;
                }
            }
        }
        assert(exists|q: int| 0 <= q < i + 1 && (#[trigger] t@[q]).1 == m);
        i = i + 1;
    }
    m
}

/// The size of the largest cascade (0 when there are no posts).
pub fn max_cascade_size(posts: &Vec<Post>) -> (r: usize)
    ensures
        posts.len() == 0 ==> r == 0,
        posts.len() > 0 ==> exists|p: int| 0 <= p < posts.len() && r == cascade_size(posts_view(posts@), #[trigger] posts@[p].root),
        forall|p: int| 0 <= p < posts.len() ==> cascade_size(posts_view(posts@), #[trigger] posts@[p].root) <= r,
{
    let ghost pv = posts_view(posts@);
    let keys = keys_of(posts, false);
    let t = tally(&keys);
    let m = max_count(&t);
    proof {
        if posts.len() == 0 {
            if t.len() > 0 {
                assert(t@[0].1 >= 1);
                assert(count_in(keys@, t@[0].0) == 0);
            }
        } else {
            assert(tallied(t@, keys@[0]));
            let i = choose|i: int| 0 <= i < t.len() && (#[trigger] t@[i]).1 == m;
            let c = t@[i].0;
            assert(count_in(keys@, c) >= 1);
            if forall|p: int| 0 <= p < keys@.len() ==> #[trigger] keys@[p] != c {
                lemma_count_absent(keys@, c);
            }
            let p = choose|p: int| 0 <= p < keys@.len() && #[trigger] keys@[p] == c;
            assert(pv[p] == posts@[p]@);
            assert(keys@[p] == (posts@[p].root as u64, 0u64));
        }
        assert forall|p: int| 0 <= p < posts.len() implies cascade_size(pv, #[trigger] posts@[p].root) <= m by {
            assert(pv[p] == posts@[p]@);
            assert(tallied(t@, keys@[p]));
            let q = choose|q: int| 0 <= q < t.len() && (#[trigger] t@[q]).0 == keys@[p];
        }
    }
    m
}

/// The largest number of posts of one cascade made at the same time step
/// (0 when there are no posts).
pub fn cascade_max_breadth(posts: &Vec<Post>) -> (r: usize)
    ensures
        posts.len() == 0 ==> r == 0,
        posts.len() > 0 ==> exists|p: int|
            0 <= p < posts.len() && r == cascade_level(posts_view(posts@), (#[trigger] posts@[p]).root, posts@[p].ts),
        forall|p: int|
            0 <= p < posts.len() ==> cascade_level(posts_view(posts@), (#[trigger] posts@[p]).root, posts@[p].ts) <= r,
{
    let ghost pv = posts_view(posts@);
    let keys = keys_of(posts, true);
    let t = tally(&keys);
    let m = max_count(&t);
    proof {
        if posts.len() == 0 {
            if t.len() > 0 {
                assert(t@[0].1 >= 1);
                assert(count_in(keys@, t@[0].0) == 0);
            }
        } else {
            assert(tallied(t@, keys@[0]));
            let i = choose|i: int| 0 <= i < t.len() && (#[trigger] t@[i]).1 == m;
            let c = t@[i].0;
            assert(count_in(keys@, c) >= 1);
            if forall|p: int| 0 <= p < keys@.len() ==> #[trigger] keys@[p] != c {
                lemma_count_absent(keys@, c);
            }
            let p = choose|p: int| 0 <= p < keys@.len() && #[trigger] keys@[p] == c;
            assert(pv[p] == posts@[p]@);
        }
        assert forall|p: int| 0 <= p < posts.len() implies cascade_level(pv, (#[trigger] posts@[p]).root, posts@[p].ts) <= m by {
            assert(pv[p] == posts@[p]@);
            assert(tallied(t@, keys@[p]));
            let q = choose|q: int| 0 <= q < t.len() && (#[trigger] t@[q]).0 == keys@[p];
        }
    }
    m
}

// ------------------------------------------------------------------------
// Reach
// ------------------------------------------------------------------------

/// The distinct authors of the posts.
pub open spec fn authors(posts: Seq<PostView>) -> Set<u64> {
    posts.map_values(|p: PostView| p.author).to_set()
}

/// The number of distinct authors in the store: how many agents the
/// information reached.
pub fn propagation_reach(posts: &Vec<Post>) -> (r: usize)
    ensures
        r == authors(posts_view(posts@)).len(),
{
    let ghost pv = posts_view(posts@);
    let mut seen: Vec<u64> = Vec::new();
    let mut i: usize = 0;
    while i < posts.len()
        invariant
            0 <= i <= posts.len(),
            pv == posts_view(posts@),
            seen@.no_duplicates(),
            seen@.to_set() == authors(pv.take(i as int)),
            seen.len() <= i,
        decreases posts.len() - i,
    {
        let a = posts[i].author;
        assert(pv[i as int] == posts@[i as int]@);
        let ghost before = seen@;
        let mut found = false;
        let mut j: usize = 0;
        while j < seen.len()
            invariant
                0 <= j <= seen.len(),
                seen@ == before,
                found == exists|q: int| 0 <= q < j && seen@[q] == a,
            decreases seen.len() - j,
        {
            if seen[j] == a {
                found = true;
            }
            j = j + 1;
        }
        if !found {
            seen.push(a);
        }
        proof {
            let pa = pv.take(i + 1).map_values(|p: PostView| p.author);
            let pb = pv.take(i as int).map_values(|p: PostView| p.author);
            assert(pa =~= pb.push(a));
            assert(pa.to_set() =~= pb.to_set().insert(a)) by {
                assert forall|x: u64| pa.to_set().contains(x) <==> pb.to_set().insert(a).contains(x) by {
                    if pa.to_set().contains(x) {
                        let q = choose|q: int| 0 <= q < pa.len() && pa[q] == x;
                        if q < pb.len() {
                            assert(pb[q] == x);
                        }
                    }
                    if pb.to_set().contains(x) {
                        let q = choose|q: int| 0 <= q < pb.len() && pb[q] == x;
                        assert(pa[q] == x);
                    }
                    if x == a {
                        assert(pa[pb.len() as int] == a);
                    }
                }
            }
            if found {
                let q = choose|q: int| 0 <= q < j && seen@[q] == a;
                assert(seen@.to_set().contains(a));
                assert(seen@.to_set() =~= seen@.to_set().insert(a));
            } else {
                assert(!before.contains(a));
                assert(seen@.to_set() =~= before.to_set().insert(a)) by {
                    assert forall|x: u64| seen@.to_set().contains(x) <==> before.to_set().insert(a).contains(x) by {
                        if seen@.to_set().contains(x) {
                            let q = choose|q: int| 0 <= q < seen@.len() && seen@[q] == x;
                            if q < before.len() {
                                assert(before[q] == x);
                            }
                        }
                        if before.to_set().contains(x) {
                            let q = choose|q: int| 0 <= q < before.len() && before[q] == x;
                            assert(seen@[q] == x);
                        }
                        if x == a {
                            assert(seen@[before.len() as int] == a);
                        }
                    }
                }
            }
        }
        i = i + 1;
    }
    proof {
        assert(pv.take(posts.len() as int) =~= pv);
        seen@.unique_seq_to_set();
    }
    seen.len()
}

// ------------------------------------------------------------------------
// Cascade rows
// ------------------------------------------------------------------------

/// One row of the cascade table.
#[derive(Debug, Clone, Copy, PartialEq, Eq, Structural)]
pub struct CascadeRow {
    /// Index of the cascade's root post.
    pub root_post: usize,
    /// Author of the root post (0 when the root index is not a post).
    pub author: u64,
    /// Number of posts in the cascade, root included.
    pub size: usize,
}

/// The author of post `i`, or 0 when there is no such post.
pub open spec fn author_or_zero(posts: Seq<PostView>, i: usize) -> u64 {
    if (i as int) < posts.len() {
        posts[i as int].author
    } else {
        0
    }
}

/// The cascade table: one row per cascade, by increasing root index.
pub fn cascade_rows(posts: &Vec<Post>) -> (r: Vec<CascadeRow>)
    ensures
        ({
            let table = r@.map_values(|c: CascadeRow| (c.root_post, c.size));
            is_cascade_table(posts_view(posts@), table)
        }),
        forall|i: int| 0 <= i < r.len() ==> (#[trigger] r@[i]).author == author_or_zero(posts_view(posts@), r@[i].root_post),
{
    let ghost pv = posts_view(posts@);
    let sizes = cascade_sizes(posts);
    let mut r: Vec<CascadeRow> = Vec::new();
    let mut i: usize = 0;
    while i < sizes.len()
        invariant
            0 <= i <= sizes.len(),
            pv == posts_view(posts@),
            r.len() == i,
            forall|m: int| 0 <= m < i ==> (#[trigger] r@[m]).root_post == sizes@[m].0 && r@[m].size == sizes@[m].1,
            forall|m: int| 0 <= m < i ==> (#[trigger] r@[m]).author == author_or_zero(pv, r@[m].root_post),
        decreases sizes.len() - i,
    {
        let (root, size) = sizes[i];
        let author = if root < posts.len() {
            assert(pv[root as int] == posts@[root as int]@);
            posts[root].author
        } else {
            0
        };
        r.push(CascadeRow { root_post: root, author, size });
        i = i + 1;
    }
    proof {
        let table = r@.map_values(|c: CascadeRow| (c.root_post, c.size));
        assert(table =~= sizes@);
    }
    r
}

// ------------------------------------------------------------------------
// Laws of the metrics
// ------------------------------------------------------------------------

/// A cascade is never broader than it is large: the posts of one cascade
/// made at one time step are among the posts of that cascade. So the
/// largest breadth never exceeds the largest cascade size.
pub proof fn lemma_breadth_within_size(posts: Seq<PostView>, root: usize, ts: u64)
    ensures
        cascade_level(posts, root, ts) <= cascade_size(posts, root),
    decreases posts.len(),
{
    if posts.len() > 0 {
        let rest = posts.drop_last();
        lemma_breadth_within_size(rest, root, ts);
        assert(root_keys(posts).drop_last() =~= root_keys(rest));
        assert(level_keys(posts).drop_last() =~= level_keys(rest));
    }
}

/// The information reaches at most as many agents as there are posts.
pub proof fn lemma_reach_within_posts(posts: Seq<PostView>)
    ensures
        authors(posts).len() <= posts.len(),
{
    posts.map_values(|p: PostView| p.author).lemma_cardinality_of_set();
}

/// The sizes of a cascade table added up.
pub open spec fn total_size(r: Seq<(usize, usize)>) -> nat
    decreases r.len(),
{
    if r.len() == 0 {
        0
    } else {
        total_size(r.drop_last()) + r.last().1 as nat
    }
}

/// The counts of the keys `(roots[i], 0)` in `keys`, added up.
spec fn root_counts(keys: Seq<(u64, u64)>, roots: Seq<usize>) -> nat
    decreases roots.len(),
{
    if roots.len() == 0 {
        0
    } else {
        root_counts(keys, roots.drop_last()) + count_in(keys, (roots.last() as u64, 0))
    }
}

/// How many of `roots` give the key `k`.
spec fn hits(roots: Seq<usize>, k: (u64, u64)) -> nat
    decreases roots.len(),
{
    if roots.len() == 0 {
        0
    } else {
        hits(roots.drop_last(), k) + if (roots.last() as u64, 0u64) == k {
            1nat
        } else {
            0nat
        }
    }
}

proof fn lemma_root_counts_push(keys: Seq<(u64, u64)>, x: (u64, u64), roots: Seq<usize>)
    ensures
        root_counts(keys.push(x), roots) == root_counts(keys, roots) + hits(roots, x),
    decreases roots.len(),
{
    assert(keys.push(x).drop_last() =~= keys);
    if roots.len() > 0 {
        lemma_root_counts_push(keys, x, roots.drop_last());
    }
}

proof fn lemma_hits_once(roots: Seq<usize>, r: usize)
    requires
        roots.no_duplicates(),
        roots.contains(r),
    ensures
        hits(roots, (r as u64, 0)) == 1,
    decreases roots.len(),
{
    let rest = roots.drop_last();
    if roots.last() == r {
        assert forall|i: int| 0 <= i < rest.len() implies #[trigger] rest[i] != r by {
            assert(roots[i] == rest[i]);
            assert(roots[rest.len() as int] == r);
        }
        lemma_hits_none(rest, r);
    } else {
        let i = choose|i: int| 0 <= i < roots.len() && roots[i] == r;
        assert(rest[i] == r);
        assert(rest.no_duplicates()) by {
            assert forall|a: int, b: int| 0 <= a < b < rest.len() implies rest[a] != rest[b] by {
                assert(roots[a] == rest[a] && roots[b] == rest[b]);
            }
        }
        lemma_hits_once(rest, r);
    }
}

proof fn lemma_hits_none(roots: Seq<usize>, r: usize)
    requires
        forall|i: int| 0 <= i < roots.len() ==> #[trigger] roots[i] != r,
    ensures
        hits(roots, (r as u64, 0)) == 0,
    decreases roots.len(),
{
    if roots.len() > 0 {
        let rest = roots.drop_last();
        assert forall|i: int| 0 <= i < rest.len() implies #[trigger] rest[i] != r by {
            assert(roots[i] == rest[i]);
        }
        lemma_hits_none(rest, r);
        assert(roots[roots.len() - 1] != r);
        assert((roots.last() as u64) != (r as u64));
    }
}

proof fn lemma_root_counts_cover(posts: Seq<PostView>, roots: Seq<usize>)
    requires
        roots.no_duplicates(),
        forall|p: int| 0 <= p < posts.len() ==> roots.contains(#[trigger] posts[p].root),
    ensures
        root_counts(root_keys(posts), roots) == posts.len(),
    decreases posts.len(),
{
    if posts.len() == 0 {
        lemma_root_counts_empty(root_keys(posts), roots);
    } else {
        let rest = posts.drop_last();
        assert forall|p: int| 0 <= p < rest.len() implies roots.contains(#[trigger] rest[p].root) by {
            assert(posts[p] == rest[p]);
        }
        lemma_root_counts_cover(rest, roots);
        let last = posts.last();
        assert(root_keys(posts) =~= root_keys(rest).push((last.root as u64, 0u64)));
        lemma_root_counts_push(root_keys(rest), (last.root as u64, 0u64), roots);
        assert(roots.contains(posts[posts.len() - 1].root));
        lemma_hits_once(roots, last.root);
    }
}

proof fn lemma_root_counts_empty(keys: Seq<(u64, u64)>, roots: Seq<usize>)
    requires
        keys.len() == 0,
    ensures
        root_counts(keys, roots) == 0,
    decreases roots.len(),
{
    if roots.len() > 0 {
        lemma_root_counts_empty(keys, roots.drop_last());
    }
}

proof fn lemma_total_is_root_counts(posts: Seq<PostView>, r: Seq<(usize, usize)>)
    requires
        forall|i: int| 0 <= i < r.len() ==> (#[trigger] r[i]).1 == cascade_size(posts, r[i].0),
    ensures
        total_size(r) == root_counts(root_keys(posts), r.map_values(|e: (usize, usize)| e.0)),
    decreases r.len(),
{
    if r.len() > 0 {
        let rest = r.drop_last();
        assert forall|i: int| 0 <= i < rest.len() implies (#[trigger] rest[i]).1 == cascade_size(posts, rest[i].0) by {
            assert(r[i] == rest[i]);
        }
        lemma_total_is_root_counts(posts, rest);
        assert(r.map_values(|e: (usize, usize)| e.0).drop_last() =~= rest.map_values(|e: (usize, usize)| e.0));
        assert(r[r.len() - 1].1 == cascade_size(posts, r[r.len() - 1].0));
    }
}

/// The cascades partition the posts: the sizes in a cascade table add up
/// to the number of posts.
pub proof fn lemma_cascades_partition_posts(posts: Seq<PostView>, r: Seq<(usize, usize)>)
    requires
        is_cascade_table(posts, r),
    ensures
        total_size(r) == posts.len(),
{
    let roots = r.map_values(|e: (usize, usize)| e.0);
    lemma_total_is_root_counts(posts, r);
    assert(roots.no_duplicates()) by {
        assert forall|a: int, b: int| 0 <= a < roots.len() && 0 <= b < roots.len() && a != b implies roots[a]
            != roots[b] by {
            if a < b {
                assert(r[a].0 < r[b].0);
            } else {
                assert(r[b].0 < r[a].0);
            }
        }
    }
    assert forall|p: int| 0 <= p < posts.len() implies roots.contains(#[trigger] posts[p].root) by {
        assert(lists_root(r, posts[p].root));
        let i = choose|i: int| 0 <= i < r.len() && (#[trigger] r[i]).0 == posts[p].root;
        assert(roots[i] == posts[p].root);
    }
    lemma_root_counts_cover(posts, roots);
}

/// `after` keeps every post of `before` in place, with its author, time
/// step and cascade, and may add more after them.
pub open spec fn store_extends(before: Seq<PostView>, after: Seq<PostView>) -> bool {
    &&& before.len() <= after.len()
    &&& forall|j: int|
        0 <= j < before.len() ==> {
            &&& (#[trigger] after[j]).author == before[j].author
            &&& after[j].ts == before[j].ts
            &&& after[j].root == before[j].root
        }
}

proof fn lemma_count_prefix(keys: Seq<(u64, u64)>, j: int, k: (u64, u64))
    requires
        0 <= j <= keys.len(),
    ensures
        count_in(keys.take(j), k) <= count_in(keys, k),
    decreases keys.len() - j,
{
    if j < keys.len() {
        lemma_count_prefix(keys, j + 1, k);
        assert(keys.take(j + 1).drop_last() =~= keys.take(j));
    } else {
        assert(keys.take(j) =~= keys);
    }
}

/// The diffusion metrics are cumulative: a store that only grows never
/// has a smaller cascade, a narrower cascade level or fewer distinct
/// authors.
pub proof fn lemma_metrics_grow_with_store(before: Seq<PostView>, after: Seq<PostView>)
    requires
        store_extends(before, after),
    ensures
        forall|r: usize| #[trigger] cascade_size(before, r) <= cascade_size(after, r),
        forall|r: usize, ts: u64| #[trigger] cascade_level(before, r, ts) <= cascade_level(after, r, ts),
        authors(before).subset_of(authors(after)),
        authors(before).len() <= authors(after).len(),
{
    let n = before.len() as int;
    assert(root_keys(after).take(n) =~= root_keys(before));
    assert(level_keys(after).take(n) =~= level_keys(before));
    assert forall|r: usize| #[trigger] cascade_size(before, r) <= cascade_size(after, r) by {
        lemma_count_prefix(root_keys(after), n, (r as u64, 0));
    }
    assert forall|r: usize, ts: u64| #[trigger] cascade_level(before, r, ts) <= cascade_level(after, r, ts) by {
        lemma_count_prefix(level_keys(after), n, (r as u64, ts));
    }
    let ba = before.map_values(|p: PostView| p.author);
    let aa = after.map_values(|p: PostView| p.author);
    assert forall|x: u64| authors(before).contains(x) implies authors(after).contains(x) by {
        let q = choose|q: int| 0 <= q < ba.len() && ba[q] == x;
        assert(aa[q] == x);
    }
    vstd::seq_lib::seq_to_set_is_finite(aa);
    vstd::set_lib::lemma_len_subset(authors(before), authors(after));
}

} // verus!
