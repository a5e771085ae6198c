//! Run settings: the simulated platform, the recommender kind, and the
//! parsing of their command-line spellings.
use vstd::prelude::*;

use crate::text::{
    chars_of, lemma_lower_plain, lemma_lower_twice, lemma_trim_lower, lemma_trim_plain, lower, push_range, push_str, range_lower_eq_str,
    string_of_range, trim, trim_bounds,
};

verus! {

/// The social media platform being simulated. X recommends by interest
/// match, Reddit by hot score.
#[derive(Debug, Clone, Copy, PartialEq, Eq, Structural)]
pub enum Platform {
    /// X (Twitter).
    X,
    /// Reddit.
    Reddit,
}

/// The recommender kind.
#[derive(Debug, Clone, Copy, PartialEq, Eq, Structural)]
pub enum RecSysKind {
    /// Interest match (X).
    Interest,
    /// Hot-score ranking (Reddit).
    HotScore,
    /// No recommender: only the latest posts of followed accounts (ablation).
    Off,
}

/// The short label of a platform.
pub open spec fn platform_label(p: Platform) -> Seq<char> {
    match p {
        Platform::X => "x"@,
        Platform::Reddit => "reddit"@,
    }
}

/// The short label of a recommender kind.
pub open spec fn recsys_label(k: RecSysKind) -> Seq<char> {
    match k {
        RecSysKind::Interest => "interest"@,
        RecSysKind::HotScore => "hot-score"@,
        RecSysKind::Off => "none"@,
    }
}

/// The platform a text names (trimmed, ASCII case ignored).
pub open spec fn platform_of_text(s: Seq<char>) -> Option<Platform> {
    let t = lower(trim(s));
    if t == "x"@ || t == "twitter"@ {
        Some(Platform::X)
    } else if t == "reddit"@ {
        Some(Platform::Reddit)
    } else {
        None
    }
}

/// The recommender kind a text names (trimmed, ASCII case ignored).
pub open spec fn recsys_of_text(s: Seq<char>) -> Option<RecSysKind> {
    let t = lower(trim(s));
    if t == "interest"@ || t == "x"@ {
        Some(RecSysKind::Interest)
    } else if t == "hot-score"@ || t == "hot_score"@ || t == "hotscore"@ || t == "reddit"@ {
        Some(RecSysKind::HotScore)
    } else if t == "none"@ || t == "off"@ || t == "ablation"@ {
        Some(RecSysKind::Off)
    } else {
        None
    }
}

/// The message for a text that names no platform.
pub open spec fn platform_error(s: Seq<char>) -> Seq<char> {
    "不正なプラットフォーム: \""@ + s + "\" (x / reddit)"@
}

/// The message for a text that names no recommender kind.
pub open spec fn recsys_error(s: Seq<char>) -> Seq<char> {
    "不正な推薦器種別: \""@ + s + "\" (interest / hot-score / none)"@
}

/// The default recommender of a platform.
pub open spec fn default_recsys(p: Platform) -> RecSysKind {
    match p {
        Platform::X => RecSysKind::Interest,
        Platform::Reddit => RecSysKind::HotScore,
    }
}

impl Platform {
    /// The short label (for the command line and output).
    pub fn label(&self) -> (r: &'static str)
        ensures
            r@ == platform_label(*self),
    {
        match self {
            Platform::X => "x",
            Platform::Reddit => "reddit",
        }
    }
}

impl RecSysKind {
    /// The short label.
    pub fn label(&self) -> (r: &'static str)
        ensures
            r@ == recsys_label(*self),
    {
        match self {
            RecSysKind::Interest => "interest",
            RecSysKind::HotScore => "hot-score",
            RecSysKind::Off => "none",
        }
    }

    /// The default recommender of a platform.
    pub fn default_for(platform: Platform) -> (r: Self)
        ensures
            r == default_recsys(platform),
    {
        match platform {
            Platform::X => RecSysKind::Interest,
            Platform::Reddit => RecSysKind::HotScore,
        }
    }
}

/// The labels are spellings the parsers read back: a platform's label
/// names that platform.
pub proof fn lemma_platform_label_round_trip(p: Platform)
    ensures
        platform_of_text(platform_label(p)) == Some(p),
{
    reveal_strlit("x");
    reveal_strlit("twitter");
    reveal_strlit("reddit");
    let l = platform_label(p);
    lemma_trim_plain(l);
    lemma_lower_plain(l);
}

/// A recommender kind's label names that kind.
pub proof fn lemma_recsys_label_round_trip(k: RecSysKind)
    ensures
        recsys_of_text(recsys_label(k)) == Some(k),
{
    reveal_strlit("interest");
    reveal_strlit("x");
    reveal_strlit("hot-score");
    reveal_strlit("hot_score");
    reveal_strlit("hotscore");
    reveal_strlit("reddit");
    reveal_strlit("none");
    reveal_strlit("off");
    reveal_strlit("ablation");
    let l = recsys_label(k);
    lemma_trim_plain(l);
    lemma_lower_plain(l);
}

/// Reading a platform ignores ASCII case.
pub proof fn lemma_platform_ignores_case(s: Seq<char>)
    ensures
        platform_of_text(s) == platform_of_text(lower(s)),
{
    lemma_trim_lower(s);
    lemma_lower_twice(trim(s));
}

/// Reading a recommender kind ignores ASCII case.
pub proof fn lemma_recsys_ignores_case(s: Seq<char>)
    ensures
        recsys_of_text(s) == recsys_of_text(lower(s)),
{
    lemma_trim_lower(s);
    lemma_lower_twice(trim(s));
}

/// `prefix + s + suffix` as a `String`.
fn quoted_message(prefix: &str, s: &Vec<char>, suffix: &str) -> (r: String)
    ensures
        r@ == prefix@ + s@ + suffix@,
{
    let mut m = String::new();
    push_str(&mut m, prefix);
    push_range(&mut m, s, 0, s.len());
    push_str(&mut m, suffix);
    assert(s@.subrange(0, s@.len() as int) =~= s@);
    assert(m@ =~= prefix@ + s@ + suffix@);
    m
}

/// Parses a platform name (`x` / `twitter` / `reddit`).
pub fn parse_platform(s: &str) -> (r: Result<Platform, String>)
    ensures
        match platform_of_text(s@) {
            Some(p) => r == Ok::<Platform, String>(p),
            None => r matches Err(m) && m@ == platform_error(s@),
        },
{
    let v = chars_of(s);
    let (a, b) = trim_bounds(&v, 0, v.len());
    assert(v@.subrange(0, v@.len() as int) =~= v@);
    if range_lower_eq_str(&v, a, b, "x") || range_lower_eq_str(&v, a, b, "twitter") {
        Ok(Platform::X)
    } else if range_lower_eq_str(&v, a, b, "reddit") {
        Ok(Platform::Reddit)
    } else {
        Err(quoted_message("不正なプラットフォーム: \"", &v, "\" (x / reddit)"))
    }
}

/// Parses a recommender kind (`interest` / `hot-score` / `none` and their
/// synonyms).
pub fn parse_recsys(s: &str) -> (r: Result<RecSysKind, String>)
    ensures
        match recsys_of_text(s@) {
            Some(k) => r == Ok::<RecSysKind, String>(k),
            None => r matches Err(m) && m@ == recsys_error(s@),
        },
{
    let v = chars_of(s);
    let (a, b) = trim_bounds(&v, 0, v.len());
    assert(v@.subrange(0, v@.len() as int) =~= v@);
    if range_lower_eq_str(&v, a, b, "interest") || range_lower_eq_str(&v, a, b, "x") {
        Ok(RecSysKind::Interest)
    } else if range_lower_eq_str(&v, a, b, "hot-score") || range_lower_eq_str(&v, a, b, "hot_score")
        || range_lower_eq_str(&v, a, b, "hotscore") || range_lower_eq_str(&v, a, b, "reddit") {
        Ok(RecSysKind::HotScore)
    } else if range_lower_eq_str(&v, a, b, "none") || range_lower_eq_str(&v, a, b, "off")
        || range_lower_eq_str(&v, a, b, "ablation") {
        Ok(RecSysKind::Off)
    } else {
        Err(quoted_message("不正な推薦器種別: \"", &v, "\" (interest / hot-score / none)"))
    }
}

/// The recommender a run uses: the one named on the command line, or the
/// platform's default when none is named.
pub fn choose_recsys(platform: Platform, named: Option<&str>) -> (r: Result<RecSysKind, String>)
    ensures
        match named {
            None => r == Ok::<RecSysKind, String>(default_recsys(platform)),
            Some(s) => match recsys_of_text(s@) {
                Some(k) => r == Ok::<RecSysKind, String>(k),
                None => r matches Err(m) && m@ == recsys_error(s@),
            },
        },
{
    match named {
        Some(s) => parse_recsys(s),
        None => Ok(RecSysKind::default_for(platform)),
    }
}

// ------------------------------------------------------------------------
// Comma-separated lists
// ------------------------------------------------------------------------

/// The pieces of `s` between commas (`str::split(',')`).
pub open spec fn split_commas(s: Seq<char>) -> Seq<Seq<char>>
    decreases s.len(),
{
    if s.len() == 0 {
        seq![seq![]]
    } else {
        let rest = split_commas(s.drop_last());
        if s.last() == ',' {
            rest.push(seq![])
        } else {
            rest.update(rest.len() - 1, rest.last().push(s.last()))
        }
    }
}

/// The trimmed, non-empty pieces of a list of pieces, in order.
pub open spec fn nonempty_trimmed(pieces: Seq<Seq<char>>) -> Seq<Seq<char>>
    decreases pieces.len(),
{
    if pieces.len() == 0 {
        seq![]
    } else {
        let rest = nonempty_trimmed(pieces.drop_last());
        let t = trim(pieces.last());
        if t.len() == 0 {
            rest
        } else {
            rest.push(t)
        }
    }
}

/// `split_commas` is never empty.
proof fn lemma_split_commas_nonempty(s: Seq<char>)
    ensures
        split_commas(s).len() >= 1,
    decreases s.len(),
{
    if s.len() > 0 {
        lemma_split_commas_nonempty(s.drop_last());
    }
}

/// Splits a comma-separated list into its trimmed, non-empty items.
pub fn split_csv(s: &str) -> (r: Vec<String>)
    ensures
        r@.map_values(|x: String| x@) == nonempty_trimmed(split_commas(s@)),
{
    let v = chars_of(s);
    let n = v.len();
    let mut out: Vec<String> = Vec::new();
    let mut start: usize = 0;
    let mut i: usize = 0;
    proof {
        assert(v@.take(0) =~= Seq::<char>::empty());
    }
    while i < n
        invariant
            n == v.len(),
            start <= i <= n,
            split_commas(v@.take(i as int)).len() >= 1,
            split_commas(v@.take(i as int)).last() == v@.subrange(start as int, i as int),
            out@.map_values(|x: String| x@) == nonempty_trimmed(
                split_commas(v@.take(i as int)).drop_last(),
            ),
        decreases n - i,
    {
        let ghost before = split_commas(v@.take(i as int));
        proof {
            assert(v@.take(i + 1).drop_last() =~= v@.take(i as int));
            assert(v@.take(i + 1).last() == v@[i as int]);
        }
        if v[i] == ',' {
            let (a, b) = trim_bounds(&v, start, i);
            let ghost old_out = out@;
            if a < b {
                out.push(string_of_range(&v, a, b));
            }
            proof {
                let after = split_commas(v@.take(i + 1));
                assert(after == before.push(seq![]));
                assert(after.drop_last() =~= before);
                assert(before.drop_last().push(before.last()) =~= before);
                assert(out@.map_values(|x: String| x@) =~= nonempty_trimmed(before));
            }
            start = i + 1;
        } else {
            proof {
                let after = split_commas(v@.take(i + 1));
                assert(after.last() =~= v@.subrange(start as int, i + 1));
                assert(after.drop_last() =~= before.drop_last());
            }
        }
        i = i + 1;
    }
    let (a, b) = trim_bounds(&v, start, n);
    let ghost before = split_commas(v@.take(n as int));
    if a < b {
        out.push(string_of_range(&v, a, b));
    }
    proof {
        assert(v@.take(n as int) =~= v@);
        assert(before.drop_last().push(before.last()) =~= before);
        assert(out@.map_values(|x: String| x@) =~= nonempty_trimmed(before));
    }
    out
}

} // verus!
