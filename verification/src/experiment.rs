//! The plans of the command-line experiments: the agent counts a sweep
//! runs over, the recommenders a reproduction compares, the sizes a
//! reproduction runs at, and the conditions its findings are read from.
use vstd::prelude::*;

use crate::config::{nonempty_trimmed, parse_recsys, recsys_error, recsys_of_text, split_commas, split_csv, RecSysKind};
use crate::text::{all_digits, chars_of, decimal_value, digit_run, digit_run_end, is_digit, parse_digits, push_str};

verus! {

// ------------------------------------------------------------------------
// Parsing lists of agent counts
// ------------------------------------------------------------------------

/// The value `str::parse::<usize>` gives a text: an optional `+`, then at
/// least one decimal digit, the number fitting in `usize`.
pub open spec fn usize_value(s: Seq<char>) -> Option<nat> {
    let d = if s.len() > 0 && s[0] == '+' {
        s.drop_first()
    } else {
        s
    };
    if d.len() > 0 && all_digits(d) && decimal_value(d) <= usize::MAX {
        Some(decimal_value(d))
    } else {
        None
    }
}

/// A run of digits shorter than the text ends at a character that is not
/// a digit.
proof fn lemma_digit_run_stops(s: Seq<char>)
    requires
        digit_run(s) < s.len(),
    ensures
        !is_digit(s[digit_run(s) as int]),
    decreases s.len(),
{
    if s.len() > 0 && is_digit(s[0]) {
        lemma_digit_run_stops(s.drop_first());
    }
}

/// Parses a non-negative integer as `str::parse::<usize>` does.
pub fn parse_usize(s: &str) -> (r: Option<usize>)
    ensures
        r == (match usize_value(s@) {
            Some(n) => Some(n as usize),
            None => None::<usize>,
        }),
{
    let v = chars_of(s);
    let lo: usize = if v.len() > 0 && v[0] == '+' {
        1
    } else {
        0
    };
    let ghost d = v@.skip(lo as int);
    assert(d =~= (if v@.len() > 0 && v@[0] == '+' {
        v@.drop_first()
    } else {
        v@
    }));
    let end = digit_run_end(&v, lo);
    if end < v.len() {
        proof {
            lemma_digit_run_stops(d);
            assert(!is_digit(d[(end - lo) as int]));
        }
        return None;
    }
    assert(v@.subrange(lo as int, end as int) =~= d);
    parse_digits(&v, lo, end)
}

/// The message of a count that does not parse.
pub open spec fn count_error(s: Seq<char>) -> Seq<char> {
    "不正なエージェント数: "@ + s
}

/// The counts a list of items spells, or the message of its first item
/// that is not a count.
pub open spec fn counts_of(items: Seq<Seq<char>>) -> Result<Seq<usize>, Seq<char>>
    decreases items.len(),
{
    if items.len() == 0 {
        Ok(seq![])
    } else {
        match counts_of(items.drop_last()) {
            Err(m) => Err(m),
            Ok(ns) => match usize_value(items.last()) {
                Some(n) => Ok(ns.push(n as usize)),
                None => Err(count_error(items.last())),
            },
        }
    }
}

/// The value of a list of strings.
pub open spec fn texts_of(v: Seq<String>) -> Seq<Seq<char>> {
    v.map_values(|x: String| x@)
}

/// Parses a comma-separated list of agent counts (blank items are skipped).
pub fn parse_agent_counts(s: &str) -> (r: Result<Vec<usize>, String>)
    ensures
        match counts_of(nonempty_trimmed(split_commas(s@))) {
            Ok(ns) => r matches Ok(v) && v@ == ns,
            Err(m) => r matches Err(e) && e@ == m,
        },
{
    let items = split_csv(s);
    let ghost all = texts_of(items@);
    assert(all == nonempty_trimmed(split_commas(s@)));
    let mut out: Vec<usize> = Vec::new();
    let mut i: usize = 0;
    while i < items.len()
        invariant
            0 <= i <= items.len(),
            all == texts_of(items@),
            all == nonempty_trimmed(split_commas(s@)),
            counts_of(all.take(i as int)) == Ok::<Seq<usize>, Seq<char>>(out@),
        decreases items.len() - i,
    {
        assert(all.take(i + 1).drop_last() =~= all.take(i as int));
        assert(all.take(i + 1).last() == items@[i as int]@);
        match parse_usize(items[i].as_str()) {
            Some(n) => {
                out.push(n);
            },
            None => {
                let mut m = String::new();
                push_str(&mut m, "不正なエージェント数: ");
                push_str(&mut m, items[i].as_str());
                assert(m@ =~= count_error(all[i as int]));
                assert(counts_of(all.take(i + 1)) == Err::<Seq<usize>, Seq<char>>(count_error(all[i as int])));
                proof {
                    lemma_counts_err_extends(all, i as int + 1);
                    assert(all.take(all.len() as int) =~= all);
                }
                return Err(m);
            },
        }
        i = i + 1;
    }
    assert(all.take(all.len() as int) =~= all);
    Ok(out)
}

/// Once a prefix of the items fails, every longer prefix fails the same way.
proof fn lemma_counts_err_extends(items: Seq<Seq<char>>, k: int)
    requires
        0 <= k <= items.len(),
        counts_of(items.take(k)) is Err,
    ensures
        counts_of(items) == counts_of(items.take(k)),
    decreases items.len() - k,
{
    if k < items.len() {
        assert(items.take(k + 1).drop_last() =~= items.take(k));
        lemma_counts_err_extends(items, k + 1);
    } else {
        assert(items.take(k) =~= items);
    }
}

// ------------------------------------------------------------------------
// Parsing lists of recommenders
// ------------------------------------------------------------------------

/// The recommenders a list of items names, or the message of its first
/// item that names none.
pub open spec fn recsys_list_of(items: Seq<Seq<char>>) -> Result<Seq<RecSysKind>, Seq<char>>
    decreases items.len(),
{
    if items.len() == 0 {
        Ok(seq![])
    } else {
        match recsys_list_of(items.drop_last()) {
            Err(m) => Err(m),
            Ok(ks) => match recsys_of_text(items.last()) {
                Some(k) => Ok(ks.push(k)),
                None => Err(recsys_error(items.last())),
            },
        }
    }
}

/// Once a prefix of the items fails, every longer prefix fails the same way.
proof fn lemma_recsys_err_extends(items: Seq<Seq<char>>, k: int)
    requires
        0 <= k <= items.len(),
        recsys_list_of(items.take(k)) is Err,
    ensures
        recsys_list_of(items) == recsys_list_of(items.take(k)),
    decreases items.len() - k,
{
    if k < items.len() {
        assert(items.take(k + 1).drop_last() =~= items.take(k));
        lemma_recsys_err_extends(items, k + 1);
    } else {
        assert(items.take(k) =~= items);
    }
}

/// Parses a comma-separated list of recommenders (blank items are skipped).
pub fn parse_recsys_list(s: &str) -> (r: Result<Vec<RecSysKind>, String>)
    ensures
        match recsys_list_of(nonempty_trimmed(split_commas(s@))) {
            Ok(ks) => r matches Ok(v) && v@ == ks,
            Err(m) => r matches Err(e) && e@ == m,
        },
{
    let items = split_csv(s);
    let ghost all = texts_of(items@);
    assert(all == nonempty_trimmed(split_commas(s@)));
    let mut out: Vec<RecSysKind> = Vec::new();
    let mut i: usize = 0;
    while i < items.len()
        invariant
            0 <= i <= items.len(),
            all == texts_of(items@),
            all == nonempty_trimmed(split_commas(s@)),
            recsys_list_of(all.take(i as int)) == Ok::<Seq<RecSysKind>, Seq<char>>(out@),
        decreases items.len() - i,
    {
        assert(all.take(i + 1).drop_last() =~= all.take(i as int));
        assert(all.take(i + 1).last() == items@[i as int]@);
        match parse_recsys(items[i].as_str()) {
            Ok(k) => {
                out.push(k);
            },
            Err(m) => {
                assert(m@ == recsys_error(all[i as int]));
                assert(recsys_list_of(all.take(i + 1)) == Err::<Seq<RecSysKind>, Seq<char>>(recsys_error(all[i as int])));
                proof {
                    lemma_recsys_err_extends(all, i as int + 1);
                    assert(all.take(all.len() as int) =~= all);
                }
                return Err(m);
            },
        }
        i = i + 1;
    }
    assert(all.take(all.len() as int) =~= all);
    Ok(out)
}

// ------------------------------------------------------------------------
// The sizes of a reproduction
// ------------------------------------------------------------------------

/// The agent count of a quick reproduction.
pub const QUICK_AGENTS: usize = 80;

/// The trials per condition of a quick reproduction.
pub const QUICK_RUNS: usize = 2;

/// The time steps of a quick reproduction.
pub const QUICK_TIMESTEPS: usize = 16;

/// The leaders of a quick reproduction.
pub const QUICK_LEADERS: usize = 8;

/// The sizes a reproduction actually runs at.
pub struct ReproPlan {
    pub n_agents: usize,
    pub runs: usize,
    pub timesteps: usize,
    pub n_leaders: usize,
    /// Large enough that no condition stops before the last step.
    pub convergence_patience: usize,
}

/// The sizes of a reproduction: the requested ones, or the quick ones
/// (fewer agents, trials, steps and leaders); never more leaders than
/// agents; the convergence patience one more than the steps, so that every
/// condition runs to the end.
pub fn repro_plan(quick: bool, n_agents: usize, runs: usize, timesteps: usize, n_leaders: usize) -> (p: ReproPlan)
    requires
        quick || timesteps < usize::MAX,
    ensures
        p.n_agents == (if quick {
            QUICK_AGENTS
        } else {
            n_agents
        }),
        p.runs == (if quick {
            QUICK_RUNS
        } else {
            runs
        }),
        p.timesteps == (if quick {
            QUICK_TIMESTEPS
        } else {
            timesteps
        }),
        p.n_leaders == (if (if quick {
            QUICK_LEADERS
        } else {
            n_leaders
        }) < p.n_agents {
            if quick {
                QUICK_LEADERS
            } else {
                n_leaders
            }
        } else {
            p.n_agents
        }),
        p.convergence_patience == p.timesteps + 1,
{
    let n = if quick {
        QUICK_AGENTS
    } else {
        n_agents
    };
    let r = if quick {
        QUICK_RUNS
    } else {
        runs
    };
    let t = if quick {
        QUICK_TIMESTEPS
    } else {
        timesteps
    };
    let wanted = if quick {
        QUICK_LEADERS
    } else {
        n_leaders
    };
    let l = if wanted < n {
        wanted
    } else {
        n
    };
    ReproPlan { n_agents: n, runs: r, timesteps: t, n_leaders: l, convergence_patience: t + 1 }
}

// ------------------------------------------------------------------------
// Where the findings are read
// ------------------------------------------------------------------------

/// The first position at or after `from` of recommender `k`.
pub open spec fn first_index(kinds: Seq<RecSysKind>, k: RecSysKind, from: int) -> Option<int>
    decreases kinds.len() - from,
{
    if from < 0 || from >= kinds.len() {
        None
    } else if kinds[from] == k {
        Some(from)
    } else {
        first_index(kinds, k, from + 1)
    }
}

/// The first position of recommender `k` in a list.
pub fn position_of(kinds: &Vec<RecSysKind>, k: RecSysKind) -> (r: Option<usize>)
    ensures
        r == (match first_index(kinds@, k, 0) {
            Some(i) => Some(i as usize),
            None => None::<usize>,
        }),
        r matches Some(i) ==> i < kinds.len() && first_index(kinds@, k, 0) == Some(i as int),
        r is None ==> first_index(kinds@, k, 0) is None,
{
    let mut i: usize = 0;
    while i < kinds.len()
        invariant
            0 <= i <= kinds.len(),
            first_index(kinds@, k, 0) == first_index(kinds@, k, i as int),
        decreases kinds.len() - i,
    {
        if kinds[i] == k {
            return Some(i);
        }
        i = i + 1;
    }
    None
}

/// The condition the findings on diffusion, polarization and the crowd
/// are read from: the interest recommender if it was run, else hot-score,
/// else the first condition.
pub open spec fn representative_index(kinds: Seq<RecSysKind>) -> int {
    match first_index(kinds, RecSysKind::Interest, 0) {
        Some(i) => i,
        None => match first_index(kinds, RecSysKind::HotScore, 0) {
            Some(i) => i,
            None => 0,
        },
    }
}

/// The position of the condition the findings are read from.
pub fn representative_cell(kinds: &Vec<RecSysKind>) -> (r: usize)
    requires
        kinds.len() > 0,
    ensures
        r as int == representative_index(kinds@),
        r < kinds.len(),
{
    match position_of(kinds, RecSysKind::Interest) {
        Some(i) => i,
        None => match position_of(kinds, RecSysKind::HotScore) {
            Some(i) => i,
            None => 0,
        },
    }
}

/// How the recommender ablation is judged.
#[derive(Debug, Clone, Copy, PartialEq, Eq, Structural)]
pub enum AblationCheck {
    /// Hot-score must cascade at least as far as no recommender (the
    /// conditions at these positions).
    HotVsNone { hot: usize, none: usize },
    /// The largest cascades must differ across the recommenders run.
    Spread,
    /// Fewer than two conditions: nothing to compare.
    Skip,
}

/// The ablation check a list of conditions allows.
pub open spec fn ablation_of(kinds: Seq<RecSysKind>) -> AblationCheck {
    match (first_index(kinds, RecSysKind::HotScore, 0), first_index(kinds, RecSysKind::Off, 0)) {
        (Some(h), Some(n)) => AblationCheck::HotVsNone { hot: h as usize, none: n as usize },
        _ => if kinds.len() >= 2 {
            AblationCheck::Spread
        } else {
            AblationCheck::Skip
        },
    }
}

/// How the recommender ablation is judged for the conditions run.
pub fn ablation_check(kinds: &Vec<RecSysKind>) -> (r: AblationCheck)
    ensures
        r == ablation_of(kinds@),
{
    match (position_of(kinds, RecSysKind::HotScore), position_of(kinds, RecSysKind::Off)) {
        (Some(h), Some(n)) => AblationCheck::HotVsNone { hot: h, none: n },
        _ => if kinds.len() >= 2 {
            AblationCheck::Spread
        } else {
            AblationCheck::Skip
        },
    }
}

} // verus!
