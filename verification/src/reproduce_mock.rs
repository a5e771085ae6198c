//! A scripted opinion leader for offline runs.
//!
//! The scripted leader is a conformist amplifier: it reads the index of the
//! first post in its recommended feed out of the prompt and reposts it; with
//! an empty feed it writes a post of its own, starting a new cascade.
use vstd::prelude::*;

use crate::parse::{
    decision_of, lemma_field_value_first_line, lemma_field_value_last_line, lemma_line_value_hit,
    lemma_line_value_miss, one_line, usize_of_digits, ActionKind, DecisionView,
};
use crate::prompts::{
    feed_header, feed_intro, feed_line, feed_lines, feed_visible, instructions_text, memory_section,
    profile_section, prompt_text,
};
use crate::world::PostView;
use crate::text::{
    all_digits, chars_of, decimal, digit_run, digit_run_end, find_char_from, find_char_in,
    find_from, find_in, is_digit, lemma_decimal_value_of_decimal, lemma_digit_run_prefix,
    lemma_digits_of_all_digits, lemma_find_after_line, lemma_find_from_is, lemma_find_from_spec,
    occurs_at,
    lemma_digits_of_no_digits, lemma_lower_plain, lemma_trim_plain, parse_digits, push_decimal,
    push_str,
};

verus! {

/// The marker that opens the feed listing in a prompt.
pub const FEED_HEADER: &'static str = "post_index | author_id | content";

/// The text between the first feed marker and the next one (or the end).
pub open spec fn feed_part(prompt: Seq<char>) -> Option<Seq<char>> {
    let h = feed_header();
    match find_from(prompt, h, 0) {
        Some(i) => {
            let start = i + h.len();
            let end = match find_from(prompt, h, start) {
                Some(j) => j,
                None => prompt.len() as int,
            };
            Some(prompt.subrange(start, end))
        },
        None => None,
    }
}

/// The number right after the first `[` of the feed listing, if any.
pub open spec fn first_index_of(prompt: Seq<char>) -> Option<usize> {
    match feed_part(prompt) {
        Some(part) => match find_char_from(part, '[', 0) {
            Some(k) => usize_of_digits(
                part.subrange(k + 1, k + 1 + digit_run(part.skip(k + 1))),
            ),
            None => None,
        },
        None => None,
    }
}

/// The reply that reposts post `idx`.
pub open spec fn repost_reply(idx: usize) -> Seq<char> {
    "THOUGHT: this resonates, I will amplify it.\nACTION: repost\nTARGET: "@ + decimal(idx as nat)
        + "\nCONTENT: -"@
}

/// The reply that writes a new post.
pub open spec fn post_reply() -> Seq<char> {
    "THOUGHT: I will share my own view.\nACTION: post\nTARGET: -\nCONTENT: My stance on the topic."@
}

/// The scripted reply to a prompt.
pub open spec fn reply_to(prompt: Seq<char>) -> Seq<char> {
    match first_index_of(prompt) {
        Some(idx) => repost_reply(idx),
        None => post_reply(),
    }
}

/// A copy of `v[lo..hi]`.
fn copy_range(v: &Vec<char>, lo: usize, hi: usize) -> (r: Vec<char>)
    requires
        lo <= hi <= v.len(),
    ensures
        r@ == v@.subrange(lo as int, hi as int),
{
    let mut r: Vec<char> = Vec::new();
    let mut i = lo;
    while i < hi
        invariant
            lo <= i <= hi <= v.len(),
            r@ == v@.subrange(lo as int, i as int),
        decreases hi - i,
    {
        r.push(v[i]);
        assert(r@ =~= v@.subrange(lo as int, i + 1));
        i = i + 1;
    }
    r
}

/// Reads the index of the first feed entry out of a prompt: the number
/// after the first `[` that follows the feed marker. `None` when the prompt
/// has no feed listing.
pub fn first_feed_index(prompt: &str) -> (r: Option<usize>)
    ensures
        r == first_index_of(prompt@),
{
    let p = chars_of(prompt);
    let h = chars_of(FEED_HEADER);
    assert(h@ == feed_header());
    proof {
        lemma_find_from_at_least(p@, h@, 0);
    }
    let i = match find_in(&p, &h, 0) {
        Some(i) => i,
        None => return None,
    };
    let start = i + h.len();
    let end = match find_in(&p, &h, start) {
        Some(j) => j,
        None => p.len(),
    };
    proof {
        lemma_find_from_at_least(p@, h@, start as int);
    }
    let part = copy_range(&p, start, end);
    assert(find_from(p@, feed_header(), 0) == Some(i as int));
    assert(feed_part(prompt@) == Some(part@));
    proof {
        lemma_find_char_from_at_least(part@, '[', 0);
    }
    let k = match find_char_in(&part, '[', 0) {
        Some(k) => k,
        None => return None,
    };
    let e = digit_run_end(&part, k + 1);
    assert(part@.subrange(k + 1, e as int) == part@.subrange(
        k + 1,
        k + 1 + digit_run(part@.skip(k + 1)),
    ));
    parse_digits(&part, k + 1, e)
}

/// A found character position lies at or after where the search started.
proof fn lemma_find_char_from_at_least(s: Seq<char>, c: char, from: int)
    ensures
        find_char_from(s, c, from) matches Some(j) ==> from <= j < s.len(),
    decreases s.len() - from,
{
    if !(from < 0 || from >= s.len()) && s[from] != c {
        lemma_find_char_from_at_least(s, c, from + 1);
    }
}

/// A found position is at or after where the search started.
proof fn lemma_find_from_at_least(hay: Seq<char>, needle: Seq<char>, from: int)
    ensures
        find_from(hay, needle, from) matches Some(j) ==> from <= j && j + needle.len() <= hay.len(),
    decreases hay.len() + 1 - from,
{
    if !(from < 0 || from + needle.len() > hay.len()) && !crate::text::occurs_at(hay, needle, from) {
        lemma_find_from_at_least(hay, needle, from + 1);
    }
}

/// The scripted leader's reply: repost the first post of the feed, or
/// write a new post when the feed is empty.
pub fn reproduce_reply(prompt: &str) -> (r: String)
    ensures
        r@ == reply_to(prompt@),
{
    match first_feed_index(prompt) {
        Some(idx) => {
            let mut s = String::new();
            push_str(&mut s, "THOUGHT: this resonates, I will amplify it.\nACTION: repost\nTARGET: ");
            push_decimal(&mut s, idx as u64);
            push_str(&mut s, "\nCONTENT: -");
            s
        },
        None => {
            let mut s = String::new();
            push_str(&mut s, "THOUGHT: I will share my own view.\nACTION: post\nTARGET: -\nCONTENT: My stance on the topic.");
            s
        },
    }
}

// ------------------------------------------------------------------------
// The reply is read back as meant
// ------------------------------------------------------------------------

/// What the scripted leader means by its reply to `prompt`: a repost of
/// the first post of its feed, or a post of its own stance.
pub open spec fn intended_decision(prompt: Seq<char>) -> DecisionView {
    match first_index_of(prompt) {
        Some(i) => DecisionView { kind: ActionKind::Repost, target: Some(i), content: None },
        None => DecisionView {
            kind: ActionKind::Post,
            target: None,
            content: Some("My stance on the topic."@),
        },
    }
}

proof fn lemma_repost_reply_read(idx: usize)
    ensures
        decision_of(repost_reply(idx)) == (DecisionView {
            kind: ActionKind::Repost,
            target: Some(idx),
            content: None,
        }),
{
    reveal_strlit("THOUGHT: this resonates, I will amplify it.\nACTION: repost\nTARGET: ");
    reveal_strlit("\nCONTENT: -");
    reveal_strlit("THOUGHT: this resonates, I will amplify it.");
    reveal_strlit("ACTION");
    reveal_strlit("TARGET");
    reveal_strlit("CONTENT");
    reveal_strlit("repost");
    reveal_strlit("retweet");
    reveal_strlit("share");
    reveal_strlit("post");
    reveal_strlit("tweet");
    reveal_strlit("-");
    let d = decimal(idx as nat);
    lemma_decimal_value_of_decimal(idx as nat);
    assert(is_digit(d[0]) && is_digit(d.last()));
    let l1 = "THOUGHT: this resonates, I will amplify it."@;
    let l2 = "ACTION"@ + seq![':', ' '] + "repost"@;
    let l3 = "TARGET"@ + seq![':', ' '] + d;
    let l4 = "CONTENT"@ + seq![':', ' '] + "-"@;
    let r3 = l3 + seq!['\n'] + l4;
    let r2 = l2 + seq!['\n'] + r3;
    assert(repost_reply(idx) =~= l1 + seq!['\n'] + r2);
    assert(one_line(l1));
    assert(one_line(l2));
    assert forall|i: int| 0 <= i < l3.len() implies #[trigger] l3[i] != '\n' by {
        if i >= 8 {
            assert(l3[i] == d[i - 8]);
            assert(is_digit(d[i - 8]));
        }
    }
    assert(one_line(l4));
    assert(l3[0] == 'T' && l3.last() == d.last());
    lemma_line_value_hit("ACTION"@, "repost"@);
    lemma_line_value_hit("TARGET"@, d);
    lemma_line_value_hit("CONTENT"@, "-"@);
    // ACTION
    lemma_line_value_miss(l1, "ACTION"@, 0);
    lemma_field_value_first_line(l1, r2, "ACTION"@);
    lemma_field_value_first_line(l2, r3, "ACTION"@);
    lemma_trim_plain("repost"@);
    lemma_lower_plain("repost"@);
    // TARGET
    lemma_line_value_miss(l1, "TARGET"@, 1);
    lemma_line_value_miss(l2, "TARGET"@, 0);
    lemma_field_value_first_line(l1, r2, "TARGET"@);
    lemma_field_value_first_line(l2, r3, "TARGET"@);
    lemma_field_value_first_line(l3, l4, "TARGET"@);
    lemma_digits_of_all_digits(d);
    // CONTENT
    lemma_line_value_miss(l1, "CONTENT"@, 0);
    lemma_line_value_miss(l2, "CONTENT"@, 0);
    lemma_line_value_miss(l3, "CONTENT"@, 0);
    lemma_field_value_first_line(l1, r2, "CONTENT"@);
    lemma_field_value_first_line(l2, r3, "CONTENT"@);
    lemma_field_value_first_line(l3, l4, "CONTENT"@);
    lemma_field_value_last_line(l4, "CONTENT"@);
    lemma_trim_plain("-"@);
}

proof fn lemma_post_reply_read()
    ensures
        decision_of(post_reply()) == (DecisionView {
            kind: ActionKind::Post,
            target: None,
            content: Some("My stance on the topic."@),
        }),
{
    reveal_strlit("THOUGHT: I will share my own view.\nACTION: post\nTARGET: -\nCONTENT: My stance on the topic.");
    reveal_strlit("THOUGHT: I will share my own view.");
    reveal_strlit("My stance on the topic.");
    reveal_strlit("ACTION");
    reveal_strlit("TARGET");
    reveal_strlit("CONTENT");
    reveal_strlit("post");
    reveal_strlit("tweet");
    reveal_strlit("-");
    let m = "My stance on the topic."@;
    let l1 = "THOUGHT: I will share my own view."@;
    let l2 = "ACTION"@ + seq![':', ' '] + "post"@;
    let l3 = "TARGET"@ + seq![':', ' '] + "-"@;
    let l4 = "CONTENT"@ + seq![':', ' '] + m;
    let r3 = l3 + seq!['\n'] + l4;
    let r2 = l2 + seq!['\n'] + r3;
    assert(post_reply() =~= l1 + seq!['\n'] + r2);
    assert(one_line(l1));
    assert(one_line(l2));
    assert(one_line(l3));
    assert(one_line(l4));
    lemma_line_value_hit("ACTION"@, "post"@);
    lemma_line_value_hit("TARGET"@, "-"@);
    lemma_line_value_hit("CONTENT"@, m);
    // ACTION
    lemma_line_value_miss(l1, "ACTION"@, 0);
    lemma_field_value_first_line(l1, r2, "ACTION"@);
    lemma_field_value_first_line(l2, r3, "ACTION"@);
    lemma_trim_plain("post"@);
    lemma_lower_plain("post"@);
    // TARGET
    lemma_line_value_miss(l1, "TARGET"@, 1);
    lemma_line_value_miss(l2, "TARGET"@, 0);
    lemma_field_value_first_line(l1, r2, "TARGET"@);
    lemma_field_value_first_line(l2, r3, "TARGET"@);
    lemma_field_value_first_line(l3, l4, "TARGET"@);
    lemma_digits_of_no_digits("-"@);
    // CONTENT
    lemma_line_value_miss(l1, "CONTENT"@, 0);
    lemma_line_value_miss(l2, "CONTENT"@, 0);
    lemma_line_value_miss(l3, "CONTENT"@, 0);
    lemma_field_value_first_line(l1, r2, "CONTENT"@);
    lemma_field_value_first_line(l2, r3, "CONTENT"@);
    lemma_field_value_first_line(l3, l4, "CONTENT"@);
    lemma_field_value_last_line(l4, "CONTENT"@);
    lemma_trim_plain(m);
}

/// The scripted leader's reply, read back by the reply parser, is the
/// action it means: a repost of the first post of its feed when the
/// prompt lists one, else a post of its own stance.
pub proof fn lemma_reply_is_read_back(prompt: Seq<char>)
    ensures
        decision_of(reply_to(prompt)) == intended_decision(prompt),
{
    match first_index_of(prompt) {
        Some(i) => lemma_repost_reply_read(i),
        None => lemma_post_reply_read(),
    }
}

// ------------------------------------------------------------------------
// The feed index is read back from the prompt
// ------------------------------------------------------------------------

/// The first feed entry at or after position `j` that is a post.
pub open spec fn first_visible_from(feed: Seq<usize>, posts: Seq<PostView>, j: int) -> Option<usize>
    decreases feed.len() - j,
{
    if j < 0 || j >= feed.len() {
        None
    } else if (feed[j] as int) < posts.len() {
        Some(feed[j])
    } else {
        first_visible_from(feed, posts, j + 1)
    }
}

proof fn lemma_first_visible(feed: Seq<usize>, posts: Seq<PostView>, j: int) -> (j0: int)
    requires
        0 <= j <= feed.len(),
    ensures
        match first_visible_from(feed, posts, j) {
            Some(i) => j <= j0 < feed.len() && feed[j0] == i && (i as int) < posts.len() && forall|t: int|
                j <= t < j0 ==> !((#[trigger] feed[t] as int) < posts.len()),
            None => forall|t: int| j <= t < feed.len() ==> !((#[trigger] feed[t] as int) < posts.len()),
        },
    decreases feed.len() - j,
{
    if j >= feed.len() {
        j
    } else if (feed[j] as int) < posts.len() {
        j
    } else {
        lemma_first_visible(feed, posts, j + 1)
    }
}

proof fn lemma_feed_lines_empty(feed: Seq<usize>, posts: Seq<PostView>, j: nat)
    requires
        j <= feed.len(),
        forall|t: int| 0 <= t < j ==> !((#[trigger] feed[t] as int) < posts.len()),
    ensures
        feed_lines(feed, posts, j) == Seq::<char>::empty(),
    decreases j,
{
    if j > 0 {
        lemma_feed_lines_empty(feed, posts, (j - 1) as nat);
    }
}

proof fn lemma_feed_lines_start(feed: Seq<usize>, posts: Seq<PostView>, j: nat, j0: int)
    requires
        0 <= j0 < j <= feed.len(),
        (feed[j0] as int) < posts.len(),
        forall|t: int| 0 <= t < j0 ==> !((#[trigger] feed[t] as int) < posts.len()),
    ensures
        ({
            let first = feed_line(feed[j0], posts[feed[j0] as int]);
            &&& feed_lines(feed, posts, j).len() >= first.len()
            &&& feed_lines(feed, posts, j).take(first.len() as int) == first
        }),
    decreases j,
{
    let first = feed_line(feed[j0], posts[feed[j0] as int]);
    if j == j0 + 1 {
        lemma_feed_lines_empty(feed, posts, j0 as nat);
        assert(feed_lines(feed, posts, j) =~= first);
    } else {
        lemma_feed_lines_start(feed, posts, (j - 1) as nat, j0);
        let prev = feed_lines(feed, posts, (j - 1) as nat);
        let i = feed[j - 1];
        let tail = if (i as int) < posts.len() {
            feed_line(i, posts[i as int])
        } else {
            seq![]
        };
        assert(feed_lines(feed, posts, j) == prev + tail);
        assert((prev + tail).take(first.len() as int) =~= prev.take(first.len() as int));
    }
}

/// The profile part of a prompt ends a line.
proof fn lemma_profile_ends_line(name: Seq<char>, bio: Seq<char>, opinion: Seq<char>, mem: Seq<Seq<char>>)
    ensures
        profile_section(name, bio, opinion, mem).len() > 0,
        profile_section(name, bio, opinion, mem).last() == '\n',
{
    reveal_strlit("Your recent memory: (none)\n\n");
    reveal_strlit("\n");
    let p = profile_section(name, bio, opinion, mem);
    let m = memory_section(mem);
    assert(m.len() > 0 && m.last() == '\n');
    assert(p.last() == m.last());
}

/// The prompt lists no feed marker when its feed shows no post.
proof fn lemma_empty_feed_unmarked()
    ensures
        find_from("Your recommended feed is empty.\n\n"@ + instructions_text(), feed_header(), 0) is None,
{
    reveal_strlit("post_index | author_id | content");
    reveal_strlit("Your recommended feed is empty.\n\n");
    reveal_strlit("Think step by step, then choose exactly one action. Reply in this exact format:\nTHOUGHT: <one sentence>\nACTION: <post|repost|like|follow|none>\nTARGET: <post_index for repost/like/follow, or - for post/none>\nCONTENT: <text for post, or - otherwise>\n");
    let hay = "Your recommended feed is empty.\n\n"@ + instructions_text();
    let h = feed_header();
    assert forall|k: int| 0 <= k implies !#[trigger] occurs_at(hay, h, k) by {
        if occurs_at(hay, h, k) {
            assert(hay.subrange(k, k + 32)[0] == h[0]);
            assert(hay.subrange(k, k + 32)[1] == h[1]);
            assert(hay.subrange(k, k + 32)[4] == h[4]);
            assert(hay.subrange(k, k + 32)[11] == h[11]);
        }
    }
    lemma_find_from_is(hay, h, 0, None);
}

/// The feed intro carries the first marker of what follows it.
proof fn lemma_intro_marker(tail: Seq<char>)
    ensures
        find_from(feed_intro() + tail, feed_header(), 0) == Some(23int),
{
    reveal_strlit("post_index | author_id | content");
    reveal_strlit("Your recommended feed (post_index | author_id | content):\n");
    let h = feed_header();
    let b = feed_intro() + tail;
    assert(b.subrange(23, 55) =~= h);
    assert forall|k: int| 0 <= k < 23 implies !#[trigger] occurs_at(b, h, k) by {
        if occurs_at(b, h, k) {
            assert(b.subrange(k, k + 32)[0] == h[0]);
        }
    }
    lemma_find_from_is(b, h, 0, Some(23));
}

/// After a marker, `):` and a line break, an entry `[i]` is read as `i`.
proof fn lemma_read_entry(hay: Seq<char>, start: int, i0: usize)
    requires
        0 <= start,
        start + 5 + decimal(i0 as nat).len() <= hay.len(),
        hay.subrange(start, start + 5 + decimal(i0 as nat).len()) == seq![')', ':', '\n', '[']
            + decimal(i0 as nat) + seq![']'],
    ensures
        ({
            let end = match find_from(hay, feed_header(), start) {
                Some(j) => j,
                None => hay.len() as int,
            };
            let part = hay.subrange(start, end);
            &&& start + 5 + decimal(i0 as nat).len() <= end <= hay.len()
            &&& find_char_from(part, '[', 0) == Some(3int)
            &&& usize_of_digits(part.subrange(4, 4int + digit_run(part.skip(4)))) == Some(i0)
        }),
{
    reveal_strlit("post_index | author_id | content");
    let h = feed_header();
    let d = decimal(i0 as nat);
    lemma_decimal_value_of_decimal(i0 as nat);
    let dl = d.len() as int;
    let w = seq![')', ':', '\n', '['] + d + seq![']'];
    assert forall|t: int| 0 <= t < 5 + dl implies #[trigger] hay[start + t] != 'p' by {
        assert(hay[start + t] == w[t]);
        if 4 <= t < 4 + dl {
            assert(is_digit(d[t - 4]));
        }
    }
    lemma_find_from_spec(hay, h, start);
    let end = match find_from(hay, h, start) {
        Some(j) => j,
        None => hay.len() as int,
    };
    match find_from(hay, h, start) {
        Some(j) => {
            if j < start + 5 + dl {
                assert(hay.subrange(j, j + 32)[0] == h[0]);
                assert(hay[start + (j - start)] != 'p');
            }
        },
        None => {},
    }
    let part = hay.subrange(start, end);
    assert forall|t: int| 0 <= t < 5 + dl implies #[trigger] part[t] == w[t] by {
        assert(part[t] == hay[start + t]);
    }
    assert(part[0] == ')' && part[1] == ':' && part[2] == '\n' && part[3] == '[');
    assert(find_char_from(part, '[', 3) == Some(3int));
    assert(find_char_from(part, '[', 2) == Some(3int));
    assert(find_char_from(part, '[', 1) == Some(3int));
    assert(find_char_from(part, '[', 0) == Some(3int));
    let after = part.skip(4);
    assert forall|t: int| 0 <= t < dl implies #[trigger] after[t] == d[t] by {
        assert(after[t] == part[4 + t]);
        assert(w[4 + t] == d[t]);
    }
    assert(after =~= d + after.skip(dl));
    assert(after.skip(dl)[0] == part[4 + dl]);
    assert(w[4 + dl] == ']');
    lemma_digit_run_prefix(d, after.skip(dl));
    assert(part.subrange(4, 4 + dl) =~= d);
}

/// The scripted leader reads back, from the prompt an agent is asked
/// with, the index of the first post its feed lists, and finds none when
/// the feed lists no post; provided the agent's own texts shown before the
/// feed (name, bio, opinion, recent memories) do not spell the feed marker.
pub proof fn lemma_prompt_feed_read_back(
    name: Seq<char>,
    bio: Seq<char>,
    opinion: Seq<char>,
    mem: Seq<Seq<char>>,
    feed: Seq<usize>,
    posts: Seq<PostView>,
)
    requires
        find_from(profile_section(name, bio, opinion, mem), feed_header(), 0) is None,
    ensures
        first_index_of(prompt_text(name, bio, opinion, mem, feed, posts)) == first_visible_from(feed, posts, 0),
{
    reveal_strlit("post_index | author_id | content");
    let h = feed_header();
    let pr = profile_section(name, bio, opinion, mem);
    let ins = instructions_text();
    let prompt = prompt_text(name, bio, opinion, mem, feed, posts);
    lemma_profile_ends_line(name, bio, opinion, mem);
    assert forall|i: int| 0 <= i < h.len() implies #[trigger] h[i] != '\n' by {}
    let j0 = lemma_first_visible(feed, posts, 0);
    if !feed_visible(feed, posts) {
        let empty = "Your recommended feed is empty.\n\n"@;
        assert(prompt =~= pr + (empty + ins));
        lemma_empty_feed_unmarked();
        lemma_find_after_line(pr, empty + ins, h);
        if first_visible_from(feed, posts, 0) is Some {
            assert((feed[j0] as int) < posts.len());
        }
    } else {
        if first_visible_from(feed, posts, 0) is None {
            let q = choose|q: int| 0 <= q < feed.len() && (#[trigger] feed[q] as int) < posts.len();
            assert(!((feed[q] as int) < posts.len()));
        }
        lemma_visible_feed_read_back(pr, feed, posts, j0);
        assert(prompt == pr + (feed_intro() + feed_lines(feed, posts, feed.len()) + "\n"@ + ins));
    }
}

proof fn lemma_visible_feed_read_back(pr: Seq<char>, feed: Seq<usize>, posts: Seq<PostView>, j0: int)
    requires
        pr.len() > 0,
        pr.last() == '\n',
        find_from(pr, feed_header(), 0) is None,
        0 <= j0 < feed.len(),
        (feed[j0] as int) < posts.len(),
        forall|t: int| 0 <= t < j0 ==> !((#[trigger] feed[t] as int) < posts.len()),
    ensures
        first_index_of(pr + (feed_intro() + feed_lines(feed, posts, feed.len()) + "\n"@ + instructions_text())) == Some(feed[j0]),
{
    reveal_strlit("post_index | author_id | content");
    reveal_strlit("[");
    reveal_strlit("] author=");
    let h = feed_header();
    assert forall|i: int| 0 <= i < h.len() implies #[trigger] h[i] != '\n' by {}
    let i0 = feed[j0];
    lemma_feed_lines_start(feed, posts, feed.len(), j0);
    let d = decimal(i0 as nat);
    let dl = d.len() as int;
    let first = feed_line(i0, posts[i0 as int]);
    let lines = feed_lines(feed, posts, feed.len());
    let tail = lines + "\n"@ + instructions_text();
    let b = feed_intro() + tail;
    let prompt = pr + b;
    assert(pr + (feed_intro() + lines + "\n"@ + instructions_text()) =~= prompt);
    lemma_intro_marker(tail);
    lemma_find_after_line(pr, b, h);
    let start = pr.len() as int + 55;
    assert(feed_intro().len() == 58) by {
        reveal_strlit("Your recommended feed (post_index | author_id | content):\n");
    }
    assert(first.subrange(0, 2 + dl) =~= seq!['['] + d + seq![']']);
    assert(lines.subrange(0, 2 + dl) =~= first.subrange(0, 2 + dl));
    assert(prompt.subrange(start, start + 5 + dl) =~= seq![')', ':', '\n', '['] + d + seq![']']) by {
        reveal_strlit("Your recommended feed (post_index | author_id | content):\n");
        assert forall|t: int| 0 <= t < 5 + dl implies #[trigger] prompt.subrange(start, start + 5 + dl)[t]
            == (seq![')', ':', '\n', '['] + d + seq![']'])[t] by {
            let w = seq![')', ':', '\n', '['] + d + seq![']'];
            let v = seq!['['] + d + seq![']'];
            assert(prompt.subrange(start, start + 5 + dl)[t] == prompt[start + t]);
            assert(prompt[start + t] == b[55 + t]);
            if t >= 3 {
                assert(b[55 + t] == tail[t - 3]);
                assert(tail[t - 3] == lines[t - 3]);
                assert(lines[t - 3] == lines.subrange(0, 2 + dl)[t - 3]);
                assert(v[t - 3] == w[t]);
            } else {
                assert(b[55 + t] == feed_intro()[55 + t]);
            }
        }
    }
    lemma_read_entry(prompt, start, i0);
}

/// The scripted leader is a conformist amplifier: asked with an agent's
/// prompt, it reposts the first post its feed lists, and writes a post of
/// its own stance when the feed lists none (the agent's own texts not
/// spelling the feed marker).
pub proof fn lemma_scripted_leader_amplifies_feed_head(
    name: Seq<char>,
    bio: Seq<char>,
    opinion: Seq<char>,
    mem: Seq<Seq<char>>,
    feed: Seq<usize>,
    posts: Seq<PostView>,
)
    requires
        find_from(profile_section(name, bio, opinion, mem), feed_header(), 0) is None,
    ensures
        decision_of(reply_to(prompt_text(name, bio, opinion, mem, feed, posts))) == match first_visible_from(
            feed,
            posts,
            0,
        ) {
            Some(i) => DecisionView { kind: ActionKind::Repost, target: Some(i), content: None },
            None => DecisionView {
                kind: ActionKind::Post,
                target: None,
                content: Some("My stance on the topic."@),
            },
        },
{
    let prompt = prompt_text(name, bio, opinion, mem, feed, posts);
    lemma_prompt_feed_read_back(name, bio, opinion, mem, feed, posts);
    lemma_reply_is_read_back(prompt);
}

} // verus!
