//! Parsing an agent's reply into an action decision.
//!
//! A reply names its choice on `ACTION:`, `TARGET:` and `CONTENT:` lines.
//! Anything that cannot be read falls back to the safe side: no target,
//! no content, or `ActionKind::Idle`.
use vstd::prelude::*;

use crate::text::{
    all_digits, chars_of, decimal_value, digits_of, is_digit_char, lemma_digits_of_push,
    is_white, lemma_lower_plain, lemma_lower_twice, lemma_trim_lower, lemma_trim_plain, lower,
    lower_char, trim_start,
    parse_digits, range_eq_str, range_lower_eq_str, range_starts_with_ci, starts_with_ci,
    string_of_range, trim, trim_bounds,
};

verus! {

/// The kind of action an agent chose.
#[derive(Debug, Clone, Copy, PartialEq, Eq, Structural)]
pub enum ActionKind {
    /// A new post.
    Post,
    /// Forward the target post.
    Repost,
    /// Upvote the target post.
    Like,
    /// Follow the author of the target post.
    Follow,
    /// Do nothing.
    Idle,
}

/// The short label of an action kind.
pub open spec fn kind_label(k: ActionKind) -> Seq<char> {
    match k {
        ActionKind::Post => "post"@,
        ActionKind::Repost => "repost"@,
        ActionKind::Like => "like"@,
        ActionKind::Follow => "follow"@,
        ActionKind::Idle => "none"@,
    }
}

/// The action kind a token names: the token is trimmed and compared
/// without ASCII case against the known spellings; anything else is `Idle`.
pub open spec fn kind_of_text(s: Seq<char>) -> ActionKind {
    let t = lower(trim(s));
    if t == "post"@ || t == "tweet"@ {
        ActionKind::Post
    } else if t == "repost"@ || t == "retweet"@ || t == "share"@ {
        ActionKind::Repost
    } else if t == "like"@ || t == "upvote"@ {
        ActionKind::Like
    } else if t == "follow"@ {
        ActionKind::Follow
    } else {
        ActionKind::Idle
    }
}

/// A parsed action decision.
#[derive(Debug, Clone)]
pub struct ActionDecision {
    /// The action kind.
    pub kind: ActionKind,
    /// The target post index (repost / like / follow).
    pub target: Option<usize>,
    /// The text of a new post.
    pub content: Option<String>,
}

/// The mathematical value of an [`ActionDecision`].
pub struct DecisionView {
    pub kind: ActionKind,
    pub target: Option<usize>,
    pub content: Option<Seq<char>>,
}

impl View for ActionDecision {
    type V = DecisionView;

    open spec fn view(&self) -> DecisionView {
        DecisionView {
            kind: self.kind,
            target: self.target,
            content: match self.content {
                Some(s) => Some(s@),
                None => None,
            },
        }
    }
}

/// Drop every leading `':'` (`str::trim_start_matches(':')`).
pub open spec fn strip_colons(s: Seq<char>) -> Seq<char>
    decreases s.len(),
{
    if s.len() > 0 && s[0] == ':' {
        strip_colons(s.drop_first())
    } else {
        s
    }
}

/// The length of the first line of `s` (up to, not including, `'\n'`).
pub open spec fn line_end(s: Seq<char>) -> nat
    decreases s.len(),
{
    if s.len() == 0 || s[0] == '\n' {
        0
    } else {
        1 + line_end(s.drop_first())
    }
}

/// The value a single line gives for `key`: the trimmed line must start
/// with `key` (ASCII case ignored); the rest, with leading colons dropped,
/// trimmed.
pub open spec fn line_value(line: Seq<char>, key: Seq<char>) -> Option<Seq<char>> {
    let t = trim(line);
    if starts_with_ci(t, key) {
        Some(trim(strip_colons(t.skip(key.len() as int))))
    } else {
        None
    }
}

/// The value of the first line of `text` that carries `key`.
pub open spec fn field_value(text: Seq<char>, key: Seq<char>) -> Option<Seq<char>>
    decreases text.len(),
{
    let e = line_end(text);
    match line_value(text.take(e as int), key) {
        Some(v) => Some(v),
        None => if e < text.len() {
            field_value(text.skip(e + 1 as int), key)
        } else {
            None
        },
    }
}

/// A decimal number when `digits` is non-empty and fits in `usize`.
pub open spec fn usize_of_digits(digits: Seq<char>) -> Option<usize> {
    if digits.len() > 0 && decimal_value(digits) <= usize::MAX {
        Some(decimal_value(digits) as usize)
    } else {
        None
    }
}

/// A post text, unless it is empty or a lone `-`.
pub open spec fn content_of(s: Seq<char>) -> Option<Seq<char>> {
    if s.len() == 0 || s == "-"@ {
        None
    } else {
        Some(s)
    }
}

/// The decision a reply text encodes.
pub open spec fn decision_of(text: Seq<char>) -> DecisionView {
    DecisionView {
        kind: match field_value(text, "ACTION"@) {
            Some(v) => kind_of_text(v),
            None => ActionKind::Idle,
        },
        target: match field_value(text, "TARGET"@) {
            Some(v) => usize_of_digits(digits_of(v)),
            None => None,
        },
        content: match field_value(text, "CONTENT"@) {
            Some(v) => content_of(trim(v)),
            None => None,
        },
    }
}

/// The action kind named by `v[lo..hi]`.
fn kind_of_range(v: &Vec<char>, lo: usize, hi: usize) -> (r: ActionKind)
    requires
        lo <= hi <= v.len(),
    ensures
        r == kind_of_text(v@.subrange(lo as int, hi as int)),
{
    let (a, b) = trim_bounds(v, lo, hi);
    if range_lower_eq_str(v, a, b, "post") || range_lower_eq_str(v, a, b, "tweet") {
        ActionKind::Post
    } else if range_lower_eq_str(v, a, b, "repost") || range_lower_eq_str(v, a, b, "retweet")
        || range_lower_eq_str(v, a, b, "share") {
        ActionKind::Repost
    } else if range_lower_eq_str(v, a, b, "like") || range_lower_eq_str(v, a, b, "upvote") {
        ActionKind::Like
    } else if range_lower_eq_str(v, a, b, "follow") {
        ActionKind::Follow
    } else {
        ActionKind::Idle
    }
}

impl ActionKind {
    /// The action kind a token names (unknown tokens are `Idle`).
    pub fn parse(s: &str) -> (r: ActionKind)
        ensures
            r == kind_of_text(s@),
    {
        let v = chars_of(s);
        assert(v@.subrange(0, v@.len() as int) =~= v@);
        kind_of_range(&v, 0, v.len())
    }

    /// The short label (for output).
    pub fn label(&self) -> (r: &'static str)
        ensures
            r@ == kind_label(*self),
    {
        match self {
            ActionKind::Post => "post",
            ActionKind::Repost => "repost",
            ActionKind::Like => "like",
            ActionKind::Follow => "follow",
            ActionKind::Idle => "none",
        }
    }
}

/// An action kind's label is read back as that kind.
pub proof fn lemma_kind_label_round_trip(k: ActionKind)
    ensures
        kind_of_text(kind_label(k)) == k,
{
    reveal_strlit("post");
    reveal_strlit("tweet");
    reveal_strlit("repost");
    reveal_strlit("retweet");
    reveal_strlit("share");
    reveal_strlit("like");
    reveal_strlit("upvote");
    reveal_strlit("follow");
    reveal_strlit("none");
    let l = kind_label(k);
    lemma_trim_plain(l);
    lemma_lower_plain(l);
}

/// Reading an action kind ignores ASCII case: a token and its
/// lower-cased form name the same kind.
pub proof fn lemma_kind_ignores_case(s: Seq<char>)
    ensures
        kind_of_text(s) == kind_of_text(lower(s)),
{
    lemma_trim_lower(s);
    lemma_lower_twice(trim(s));
}

/// Every spelling whose trimmed, lower-cased form is the label of a kind
/// other than `Idle` names that kind, whatever its case and surrounding
/// whitespace.
pub proof fn lemma_kind_of_any_casing(s: Seq<char>, k: ActionKind)
    requires
        lower(trim(s)) == kind_label(k),
        k != ActionKind::Idle,
    ensures
        kind_of_text(s) == k,
{
    reveal_strlit("post");
    reveal_strlit("tweet");
    reveal_strlit("repost");
    reveal_strlit("retweet");
    reveal_strlit("share");
    reveal_strlit("like");
    reveal_strlit("upvote");
    reveal_strlit("follow");
    let t = lower(trim(s));
    match k {
        ActionKind::Post => {},
        ActionKind::Repost => {
            assert(t == "repost"@);
            assert(t.len() == 6);
            assert(t != "post"@);
            assert(t[1] == 'e');
            assert(t != "tweet"@);
        },
        ActionKind::Like => {
            assert(t[0] == 'l');
            assert(t != "post"@ && t != "tweet"@ && t != "repost"@ && t != "retweet"@ && t != "share"@);
        },
        ActionKind::Follow => {
            assert(t[0] == 'f');
            assert(t != "post"@ && t != "tweet"@ && t != "repost"@ && t != "retweet"@ && t != "share"@
                && t != "like"@ && t != "upvote"@);
        },
        ActionKind::Idle => {},
    }
}

/// Drops leading colons from `v[lo..hi]`.
fn skip_colons(v: &Vec<char>, lo: usize, hi: usize) -> (r: usize)
    requires
        lo <= hi <= v.len(),
    ensures
        lo <= r <= hi,
        v@.subrange(r as int, hi as int) == strip_colons(v@.subrange(lo as int, hi as int)),
{
    let mut a = lo;
    while a < hi && v[a] == ':'
        invariant
            lo <= a <= hi <= v.len(),
            strip_colons(v@.subrange(lo as int, hi as int)) == strip_colons(
                v@.subrange(a as int, hi as int),
            ),
        decreases hi - a,
    {
        assert(v@.subrange(a as int, hi as int).drop_first() =~= v@.subrange(a + 1, hi as int));
        a = a + 1;
    }
    a
}

/// The bounds of the value of the first line of `text` that carries `key`.
fn field(text: &Vec<char>, key: &Vec<char>) -> (r: Option<(usize, usize)>)
    ensures
        match field_value(text@, key@) {
            Some(val) => r matches Some(b) && b.0 <= b.1 <= text.len() && text@.subrange(
                b.0 as int,
                b.1 as int,
            ) == val,
            None => r is None,
        },
{
    let n = text.len();
    let mut pos: usize = 0;
    assert(text@.skip(0) =~= text@);
    loop
        invariant
            pos <= n == text.len(),
            field_value(text@, key@) == field_value(text@.skip(pos as int), key@),
        decreases n - pos,
    {
        let ghost rest = text@.skip(pos as int);
        let mut e = pos;
        while e < n && text[e] != '\n'
            invariant
                pos <= e <= n == text.len(),
                rest == text@.skip(pos as int),
                line_end(rest) == (e - pos) + line_end(text@.skip(e as int)),
            decreases n - e,
        {
            assert(text@.skip(e as int).drop_first() =~= text@.skip(e + 1));
            e = e + 1;
        }
        assert(line_end(text@.skip(e as int)) == 0);
        assert(rest.take(line_end(rest) as int) =~= text@.subrange(pos as int, e as int));
        let (a, b) = trim_bounds(text, pos, e);
        let ghost t = text@.subrange(a as int, b as int);
        if range_starts_with_ci(text, a, b, key) {
            let k = a + key.len();
            assert(t.skip(key.len() as int) =~= text@.subrange(k as int, b as int));
            let c = skip_colons(text, k, b);
            let (x, y) = trim_bounds(text, c, b);
            return Some((x, y));
        }
        if e == n {
            return None;
        }
        assert(rest.skip(line_end(rest) + 1 as int) =~= text@.skip(e + 1));
        pos = e + 1;
    }
}

/// Parses a reply text into an action decision.
pub fn parse_action(text: &str) -> (r: ActionDecision)
    ensures
        r@ == decision_of(text@),
{
    let v = chars_of(text);
    let action_key = chars_of("ACTION");
    let target_key = chars_of("TARGET");
    let content_key = chars_of("CONTENT");

    let kind = match field(&v, &action_key) {
        Some((a, b)) => kind_of_range(&v, a, b),
        None => ActionKind::Idle,
    };

    let target = match field(&v, &target_key) {
        Some((a, b)) => {
            let mut digits: Vec<char> = Vec::new();
            let mut i = a;
            while i < b
                invariant
                    a <= i <= b <= v.len(),
                    digits@ == digits_of(v@.subrange(a as int, i as int)),
                    all_digits(digits@),
                decreases b - i,
            {
                proof {
                    assert(v@.subrange(a as int, i + 1) =~= v@.subrange(a as int, i as int).push(
                        v@[i as int],
                    ));
                    lemma_digits_of_push(v@.subrange(a as int, i as int), v@[i as int]);
                }
                if is_digit_char(v[i]) {
                    digits.push(v[i]);
                }
                i = i + 1;
            }
            assert(digits@.subrange(0, digits@.len() as int) =~= digits@);
            parse_digits(&digits, 0, digits.len())
        },
        None => None,
    };

    let content = match field(&v, &content_key) {
        Some((a, b)) => {
            let (x, y) = trim_bounds(&v, a, b);
            if x == y || range_eq_str(&v, x, y, "-") {
                None
            } else {
                Some(string_of_range(&v, x, y))
            }
        },
        None => None,
    };

    let r = ActionDecision { kind, target, content };
    assert(r@.content == decision_of(text@).content);
    r
}

// ------------------------------------------------------------------------
// Reading fields off known lines
// ------------------------------------------------------------------------

/// `s` holds no line break.
pub open spec fn one_line(s: Seq<char>) -> bool {
    forall|i: int| 0 <= i < s.len() ==> #[trigger] s[i] != '\n'
}

proof fn lemma_line_end_one_line(line: Seq<char>, rest: Seq<char>)
    requires
        one_line(line),
    ensures
        line_end(line + seq!['\n'] + rest) == line.len(),
        line_end(line) == line.len(),
    decreases line.len(),
{
    if line.len() > 0 {
        lemma_line_end_one_line(line.drop_first(), rest);
        assert((line + seq!['\n'] + rest).drop_first() =~= line.drop_first() + seq!['\n'] + rest);
        assert(line[0] != '\n');
    } else {
        assert((line + seq!['\n'] + rest)[0] == '\n');
    }
}

/// The field a key gets from a text that starts with a full line: that
/// line's value if it carries the key, else what the rest gives.
pub proof fn lemma_field_value_first_line(line: Seq<char>, rest: Seq<char>, key: Seq<char>)
    requires
        one_line(line),
    ensures
        field_value(line + seq!['\n'] + rest, key) == match line_value(line, key) {
            Some(v) => Some(v),
            None => field_value(rest, key),
        },
{
    let t = line + seq!['\n'] + rest;
    lemma_line_end_one_line(line, rest);
    assert(t.take(line.len() as int) =~= line);
    assert(t.skip(line.len() as int + 1) =~= rest);
}

/// The field a key gets from a single line.
pub proof fn lemma_field_value_last_line(line: Seq<char>, key: Seq<char>)
    requires
        one_line(line),
    ensures
        field_value(line, key) == line_value(line, key),
{
    lemma_line_end_one_line(line, seq![]);
    assert(line.take(line.len() as int) =~= line);
}

/// A line `KEY: value` gives `value` for `KEY`.
pub proof fn lemma_line_value_hit(key: Seq<char>, v: Seq<char>)
    requires
        key.len() > 0,
        !is_white(key[0]),
        v.len() > 0,
        !is_white(v[0]),
        !is_white(v.last()),
        v[0] != ':',
    ensures
        line_value(key + seq![':', ' '] + v, key) == Some(v),
{
    let l = key + seq![':', ' '] + v;
    assert(l[0] == key[0]);
    assert(l.last() == v.last());
    lemma_trim_plain(l);
    assert(l.skip(key.len() as int) =~= seq![':', ' '] + v);
    assert((seq![':', ' '] + v).drop_first() =~= seq![' '] + v);
    assert(strip_colons(seq![':', ' '] + v) == strip_colons(seq![' '] + v));
    assert(strip_colons(seq![' '] + v) == seq![' '] + v);
    assert((seq![' '] + v).drop_first() =~= v);
    assert(trim_start(seq![' '] + v) == trim_start(v));
    lemma_trim_plain(v);
    assert(trim_start(v) == v);
}

/// A line that differs from `key` at position `i` (ASCII case ignored)
/// gives nothing for `key`.
pub proof fn lemma_line_value_miss(line: Seq<char>, key: Seq<char>, i: int)
    requires
        line.len() > 0,
        !is_white(line[0]),
        !is_white(line.last()),
        0 <= i < key.len(),
        i < line.len(),
        lower_char(line[i]) != lower_char(key[i]),
    ensures
        line_value(line, key) is None,
{
    lemma_trim_plain(line);
}

} // verus!
