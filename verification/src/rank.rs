//! Top-k selection under a lexicographic ranking.
//!
//! Items are ranked by a primary and a secondary key, both descending,
//! then by a tie-break key ascending, then by their position (a stable
//! sort). The recommender and the choice of opinion leaders both keep the
//! first `k` items of this order.
use vstd::prelude::*;

verus! {

/// The keys an item is ranked by.
#[derive(Debug, Clone, Copy, PartialEq, Eq, Structural)]
pub struct RankKey {
    /// Larger comes first.
    pub primary: u64,
    /// Larger comes first among equal primaries.
    pub secondary: u64,
    /// Smaller comes first among equal primaries and secondaries.
    pub tiebreak: u64,
}

/// Item `i` comes before item `j` (a strict total order on positions).
pub open spec fn ranks_before(keys: Seq<RankKey>, i: int, j: int) -> bool {
    let a = keys[i];
    let b = keys[j];
    ||| a.primary > b.primary
    ||| a.primary == b.primary && a.secondary > b.secondary
    ||| a.primary == b.primary && a.secondary == b.secondary && a.tiebreak < b.tiebreak
    ||| a.primary == b.primary && a.secondary == b.secondary && a.tiebreak == b.tiebreak && i < j
}

/// `r` lists, best first, the first `min(k, n)` positions of the ranking.
pub open spec fn is_top(keys: Seq<RankKey>, k: nat, r: Seq<usize>) -> bool {
    &&& r.len() == if k < keys.len() {
        k
    } else {
        keys.len()
    }
    &&& forall|i: int| 0 <= i < r.len() ==> #[trigger] r[i] < keys.len()
    &&& forall|i: int, j: int|
        0 <= i < j < r.len() ==> ranks_before(keys, #[trigger] r[i] as int, #[trigger] r[j] as int)
    &&& forall|x: int, i: int|
        #[trigger] left_out(keys, r, x) && 0 <= i < r.len() ==> ranks_before(
            keys,
            #[trigger] r[i] as int,
            x,
        )
}

/// Position `x` is an item that `r` does not list.
pub open spec fn left_out(keys: Seq<RankKey>, r: Seq<usize>, x: int) -> bool {
    0 <= x < keys.len() && !r.contains(x as usize)
}

/// The first `min(k, n)` positions of the ranking, best first.
pub open spec fn top_positions(keys: Seq<RankKey>, k: nat) -> Seq<usize> {
    choose|r: Seq<usize>| is_top(keys, k, r)
}

/// The ranking is transitive.
pub proof fn lemma_ranks_before_transitive(keys: Seq<RankKey>, i: int, j: int, l: int)
    requires
        ranks_before(keys, i, j),
        ranks_before(keys, j, l),
    ensures
        ranks_before(keys, i, l),
{
}

/// The ranking is total on distinct positions and never symmetric.
pub proof fn lemma_ranks_before_total(keys: Seq<RankKey>, i: int, j: int)
    ensures
        i != j ==> ranks_before(keys, i, j) || ranks_before(keys, j, i),
        !(ranks_before(keys, i, j) && ranks_before(keys, j, i)),
        !ranks_before(keys, i, i),
{
}

/// At most one list satisfies [`is_top`].
pub proof fn lemma_top_unique(keys: Seq<RankKey>, k: nat, r1: Seq<usize>, r2: Seq<usize>)
    requires
        is_top(keys, k, r1),
        is_top(keys, k, r2),
    ensures
        r1 == r2,
{
    assert forall|i: int| 0 <= i < r1.len() implies r1[i] == r2[i] by {
        lemma_top_prefix_equal(keys, k, r1, r2, i);
    }
    assert(r1 =~= r2);
}

/// Two top lists agree position by position.
proof fn lemma_top_prefix_equal(keys: Seq<RankKey>, k: nat, r1: Seq<usize>, r2: Seq<usize>, i: int)
    requires
        is_top(keys, k, r1),
        is_top(keys, k, r2),
        0 <= i < r1.len(),
    ensures
        r1[i] == r2[i],
    decreases i,
{
    if i > 0 {
        lemma_top_prefix_equal(keys, k, r1, r2, i - 1);
    }
    assert forall|m: int| 0 <= m < i implies r1[m] == r2[m] by {
        if m < i {
            lemma_top_prefix_equal(keys, k, r1, r2, m);
        }
    }
    let a = r1[i] as int;
    let b = r2[i] as int;
    if a != b {
        lemma_ranks_before_total(keys, a, b);
        // where `a` stands in r2
        if r2.contains(a as usize) {
            let q = choose|q: int| 0 <= q < r2.len() && r2[q] == a as usize;
            if q < i {
                assert(r1[q] == r2[q]);
                assert(ranks_before(keys, r1[q] as int, r1[i] as int));
                lemma_ranks_before_total(keys, a, a);
            } else if q > i {
                assert(ranks_before(keys, r2[i] as int, r2[q] as int));
            }
        } else {
            assert(left_out(keys, r2, a));
            assert(ranks_before(keys, r2[i] as int, a));
        }
        // where `b` stands in r1
        if r1.contains(b as usize) {
            let q = choose|q: int| 0 <= q < r1.len() && r1[q] == b as usize;
            if q < i {
                assert(r2[q] == r1[q]);
                assert(ranks_before(keys, r2[q] as int, r2[i] as int));
                lemma_ranks_before_total(keys, b, b);
            } else if q > i {
                assert(ranks_before(keys, r1[i] as int, r1[q] as int));
            }
        } else {
            assert(left_out(keys, r1, b));
            assert(ranks_before(keys, r1[i] as int, b));
        }
    }
}

/// Whether item `i` comes before item `j`.
fn before(keys: &Vec<RankKey>, i: usize, j: usize) -> (r: bool)
    requires
        i < keys.len(),
        j < keys.len(),
    ensures
        r == ranks_before(keys@, i as int, j as int),
{
    let a = keys[i];
    let b = keys[j];
    if a.primary != b.primary {
        a.primary > b.primary
    } else if a.secondary != b.secondary {
        a.secondary > b.secondary
    } else if a.tiebreak != b.tiebreak {
        a.tiebreak < b.tiebreak
    } else {
        i < j
    }
}

/// The first `min(k, n)` positions of the ranking of `keys`, best first.
pub fn top_k(keys: &Vec<RankKey>, k: usize) -> (r: Vec<usize>)
    ensures
        is_top(keys@, k as nat, r@),
        r@ == top_positions(keys@, k as nat),
{
    let n = keys.len();
    let want = if k < n {
        k
    } else {
        n
    };
    let mut taken: Vec<bool> = Vec::new();
    let mut t: usize = 0;
    while t < n
        invariant
            t <= n,
            taken@.len() == t,
            forall|x: int| 0 <= x < t ==> !#[trigger] taken@[x],
        decreases n - t,
    {
        taken.push(false);
        t = t + 1;
    }
    let mut r: Vec<usize> = Vec::new();
    while r.len() < want
        invariant
            n == keys.len(),
            want <= n,
            want == (if (k as nat) < keys@.len() {
                k as nat
            } else {
                keys@.len()
            }),
            taken@.len() == n,
            r.len() <= want,
            forall|x: int| 0 <= x < n ==> (#[trigger] taken@[x] <==> r@.contains(x as usize)),
            forall|i: int| 0 <= i < r.len() ==> #[trigger] r@[i] < n,
            forall|i: int, j: int|
                0 <= i < j < r.len() ==> ranks_before(
                    keys@,
                    #[trigger] r@[i] as int,
                    #[trigger] r@[j] as int,
                ),
            forall|x: int, i: int|
                0 <= x < n && !#[trigger] taken@[x] && 0 <= i < r.len() ==> ranks_before(
                    keys@,
                    #[trigger] r@[i] as int,
                    x,
                ),
        decreases want - r.len(),
    {
        // some position is still free
        let ghost free_exists: bool = exists|x: int| 0 <= x < n && !taken@[x];
        proof {
            if !free_exists {
                assert forall|x: usize| (x as int) < n implies #[trigger] r@.contains(x) by {
                    assert(taken@[x as int]);
                }
                lemma_covering_too_long(r@, n as nat);
            }
        }
        let mut best: usize = n;
        let mut y: usize = 0;
        while y < n
            invariant
                n == keys.len(),
                taken@.len() == n,
                y <= n,
                best == n || (best < y && !taken@[best as int]),
                best == n ==> forall|z: int| 0 <= z < y ==> taken@[z],
                best < n ==> forall|z: int|
                    0 <= z < y && !taken@[z] && z != best ==> ranks_before(keys@, best as int, z),
            decreases n - y,
        {
            if !taken[y] {
                if best == n || before(keys, y, best) {
                    proof {
                        if best < n {
                            assert forall|z: int|
                                0 <= z < y + 1 && !taken@[z] && z != y implies ranks_before(
                                keys@,
                                y as int,
                                z,
                            ) by {
                                if z != best {
                                    lemma_ranks_before_transitive(keys@, y as int, best as int, z);
                                }
                            }
                        }
                    }
                    best = y;
                } else {
                    proof {
                        lemma_ranks_before_total(keys@, y as int, best as int);
                    }
                }
            }
            y = y + 1;
        }
        assert(best < n);
        let ghost old_r = r@;
        let ghost old_taken = taken@;
        r.push(best);
        taken.set(best, true);
        proof {
            assert forall|x: int| 0 <= x < n implies (#[trigger] taken@[x] <==> r@.contains(
                x as usize,
            )) by {
                if x == best {
                    assert(r@[r@.len() - 1] == best);
                } else {
                    if r@.contains(x as usize) {
                        let q = choose|q: int| 0 <= q < r@.len() && r@[q] == x as usize;
                        assert(q < old_r.len());
                        assert(old_r.contains(x as usize));
                    }
                    if old_r.contains(x as usize) {
                        let q = choose|q: int| 0 <= q < old_r.len() && old_r[q] == x as usize;
                        assert(r@[q] == x as usize);
                    }
                }
            }
            assert forall|i: int, j: int| 0 <= i < j < r.len() implies ranks_before(
                keys@,
                #[trigger] r@[i] as int,
                #[trigger] r@[j] as int,
            ) by {
                if j == r.len() - 1 {
                    assert(old_r[i] == r@[i]);
                    assert(!old_taken[best as int]);
                } else {
                    assert(old_r[i] == r@[i] && old_r[j] == r@[j]);
                }
            }
            assert forall|x: int, i: int|
                0 <= x < n && !#[trigger] taken@[x] && 0 <= i < r.len() implies ranks_before(
                keys@,
                #[trigger] r@[i] as int,
                x,
            ) by {
                assert(!old_taken[x]);
                if i == r.len() - 1 {
                    assert(x != best);
                } else {
                    assert(old_r[i] == r@[i]);
                }
            }
        }
    }
    proof {
        assert forall|x: int, i: int| #[trigger] left_out(keys@, r@, x) && 0 <= i < r.len() implies ranks_before(
            keys@,
            #[trigger] r@[i] as int,
            x,
        ) by {
            assert(!taken@[x]);
        }
        lemma_top_unique(keys@, k as nat, r@, top_positions(keys@, k as nat));
    }
    r
}

/// A list that contains every position below `n` is at least `n` long.
proof fn lemma_covering_too_long(r: Seq<usize>, n: nat)
    requires
        n <= usize::MAX,
        forall|x: usize| (x as int) < n ==> #[trigger] r.contains(x),
    ensures
        r.len() >= n,
{
    let ri = r.map_values(|x: usize| x as int);
    vstd::set_lib::lemma_int_range(0, n as int);
    assert forall|x: int| #[trigger] vstd::set_lib::set_int_range(0, n as int).contains(x) implies ri.to_set().contains(x) by {
        assert(r.contains(x as usize));
        let q = choose|q: int| 0 <= q < r.len() && r[q] == x as usize;
        assert(ri[q] == x);
    }
    vstd::seq_lib::seq_to_set_is_finite(ri);
    vstd::set_lib::lemma_len_subset(vstd::set_lib::set_int_range(0, n as int), ri.to_set());
    ri.lemma_cardinality_of_set();
}

/// The best position below `m` that `r` leaves out, if any.
spec fn best_left_out(keys: Seq<RankKey>, r: Seq<usize>, m: int) -> Option<int>
    decreases m,
{
    if m <= 0 {
        None
    } else {
        let prev = best_left_out(keys, r, m - 1);
        let x = m - 1;
        if left_out(keys, r, x) {
            match prev {
                None => Some(x),
                Some(b) => if ranks_before(keys, x, b) {
                    Some(x)
                } else {
                    Some(b)
                },
            }
        } else {
            prev
        }
    }
}

proof fn lemma_best_left_out(keys: Seq<RankKey>, r: Seq<usize>, m: int)
    requires
        0 <= m <= keys.len(),
    ensures
        match best_left_out(keys, r, m) {
            Some(b) => 0 <= b < m && left_out(keys, r, b) && forall|y: int|
                0 <= y < m && #[trigger] left_out(keys, r, y) && y != b ==> ranks_before(keys, b, y),
            None => forall|y: int| 0 <= y < m ==> !#[trigger] left_out(keys, r, y),
        },
    decreases m,
{
    if m > 0 {
        lemma_best_left_out(keys, r, m - 1);
        let x = m - 1;
        match best_left_out(keys, r, m - 1) {
            Some(b) => {
                lemma_ranks_before_total(keys, x, b);
                if left_out(keys, r, x) && ranks_before(keys, x, b) {
                    assert forall|y: int| 0 <= y < m && #[trigger] left_out(keys, r, y) && y != x implies ranks_before(
                        keys,
                        x,
                        y,
                    ) by {
                        if y != b {
                            lemma_ranks_before_transitive(keys, x, b, y);
                        }
                    }
                }
            },
            None => {},
        }
    }
}

/// A ranking of `k` positions exists for any keys.
proof fn top_witness(keys: Seq<RankKey>, k: nat) -> (r: Seq<usize>)
    requires
        keys.len() <= usize::MAX,
    ensures
        is_top(keys, k, r),
    decreases k,
{
    if k == 0 {
        seq![]
    } else {
        let r0 = top_witness(keys, (k - 1) as nat);
        if k - 1 >= keys.len() {
            r0
        } else {
            if forall|x: usize| (x as int) < keys.len() ==> #[trigger] r0.contains(x) {
                lemma_covering_too_long(r0, keys.len());
            }
            let x0 = choose|x: usize| (x as int) < keys.len() && !r0.contains(x);
            assert(left_out(keys, r0, x0 as int));
            lemma_best_left_out(keys, r0, keys.len() as int);
            let b = best_left_out(keys, r0, keys.len() as int)->0;
            let r = r0.push(b as usize);
            assert forall|i: int| 0 <= i < r.len() implies #[trigger] r[i] < keys.len() by {
                if i < r0.len() {
                    assert(r[i] == r0[i]);
                }
            }
            assert forall|i: int, j: int| 0 <= i < j < r.len() implies ranks_before(
                keys,
                #[trigger] r[i] as int,
                #[trigger] r[j] as int,
            ) by {
                assert(r[i] == r0[i]);
                if j < r0.len() {
                    assert(r[j] == r0[j]);
                }
            }
            assert forall|y: int, i: int| #[trigger] left_out(keys, r, y) && 0 <= i < r.len() implies ranks_before(
                keys,
                #[trigger] r[i] as int,
                y,
            ) by {
                assert(!r.contains(y as usize));
                if r0.contains(y as usize) {
                    let q = choose|q: int| 0 <= q < r0.len() && r0[q] == y as usize;
                    assert(r[q] == y as usize);
                }
                assert(left_out(keys, r0, y));
                assert(y != b) by {
                    assert(r[r0.len() as int] == b as usize);
                }
                if i < r0.len() {
                    assert(r[i] == r0[i]);
                }
            }
            r
        }
    }
}

/// The ranking's first positions are well defined for any keys.
pub proof fn lemma_top_positions(keys: Seq<RankKey>, k: nat)
    requires
        keys.len() <= usize::MAX,
    ensures
        is_top(keys, k, top_positions(keys, k)),
{
    let w = top_witness(keys, k);
    assert(is_top(keys, k, w));
}

/// A top list shorter than asked for lists every position: when fewer
/// than `k` items exist, all of them are selected.
pub proof fn lemma_short_top_lists_all(keys: Seq<RankKey>, k: nat, r: Seq<usize>, x: int)
    requires
        is_top(keys, k, r),
        r.len() < k,
        0 <= x < keys.len(),
    ensures
        r.contains(x as usize),
{
    let n = keys.len();
    if !r.contains(x as usize) {
        let ri = r.map_values(|v: usize| v as int);
        assert(ri.no_duplicates()) by {
            assert forall|i: int, j: int| 0 <= i < ri.len() && 0 <= j < ri.len() && i != j implies ri[i]
                != ri[j] by {
                if i < j {
                    assert(ranks_before(keys, r[i] as int, r[j] as int));
                    lemma_ranks_before_total(keys, r[i] as int, r[i] as int);
                } else {
                    assert(ranks_before(keys, r[j] as int, r[i] as int));
                    lemma_ranks_before_total(keys, r[i] as int, r[i] as int);
                }
            }
        }
        ri.unique_seq_to_set();
        vstd::set_lib::lemma_int_range(0, n as int);
        let range = vstd::set_lib::set_int_range(0, n as int).remove(x);
        assert forall|v: int| #[trigger] ri.to_set().contains(v) implies range.contains(v) by {
            let q = choose|q: int| 0 <= q < ri.len() && ri[q] == v;
            assert(r[q] < n);
            if v == x {
                assert(r[q] == x as usize);
            }
        }
        assert(vstd::set_lib::set_int_range(0, n as int).contains(x));
        vstd::set_lib::lemma_len_subset(ri.to_set(), range);
    }
}

} // verus!
