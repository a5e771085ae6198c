//! The post store shared by all agents.
//!
//! A post records who wrote it, when, how it was received (votes and
//! reposts) and the cascade it belongs to: `root` is the index of the
//! first post a chain of reposts started from (a fresh post is its own
//! root). Real-valued attributes (the opinion snapshot, the content
//! embedding) are kept beside the store by the driver, indexed the same way.
use vstd::prelude::*;
use vstd::string::StringSliceAdditionalSpecFns;

use crate::record::{fnv1a, fnv1a_bytes};
use crate::text::{chars_of, lower, lower_ascii, lower_char, push_char};

verus! {

/// One entry of the post store.
pub struct Post {
    /// The author's agent id.
    pub author: u64,
    /// The text.
    pub content: String,
    /// The time step the post was made at.
    pub ts: u64,
    /// Number of upvotes (likes).
    pub upvotes: u64,
    /// Number of downvotes.
    pub downvotes: u64,
    /// Number of reposts.
    pub reposts: u64,
    /// Index of the post that started this post's cascade.
    pub root: usize,
}

/// The mathematical value of a [`Post`].
pub struct PostView {
    pub author: u64,
    pub content: Seq<char>,
    pub ts: u64,
    pub upvotes: u64,
    pub downvotes: u64,
    pub reposts: u64,
    pub root: usize,
}

impl View for Post {
    type V = PostView;

    open spec fn view(&self) -> PostView {
        PostView {
            author: self.author,
            content: self.content@,
            ts: self.ts,
            upvotes: self.upvotes,
            downvotes: self.downvotes,
            reposts: self.reposts,
            root: self.root,
        }
    }
}

/// The value of a post store.
pub open spec fn posts_view(posts: Seq<Post>) -> Seq<PostView> {
    posts.map_values(|p: Post| p@)
}

/// A fresh, unvoted post.
pub open spec fn fresh_post(author: u64, content: Seq<char>, ts: u64, root: usize) -> PostView {
    PostView { author, content, ts, upvotes: 0, downvotes: 0, reposts: 0, root }
}

/// Every post's cascade root is an earlier (or the same) post that is
/// itself a cascade origin.
pub open spec fn roots_well_formed(posts: Seq<PostView>) -> bool {
    forall|i: int|
        0 <= i < posts.len() ==> {
            &&& #[trigger] posts[i].root <= i
            &&& posts[posts[i].root as int].root == posts[i].root
        }
}

impl Post {
    /// A fresh post with no votes and no reposts.
    pub fn new(author: u64, content: String, ts: u64, root: usize) -> (p: Post)
        ensures
            p@ == fresh_post(author, content@, ts, root),
    {
        Post { author, content, ts, upvotes: 0, downvotes: 0, reposts: 0, root }
    }
}

// ------------------------------------------------------------------------
// Hashed bag-of-words embedding
// ------------------------------------------------------------------------

/// The number of buckets of the hashed bag-of-words embedding.
pub const EMBED_DIM: usize = 32;

/// The number of hourly activity probabilities of an agent.
pub const ACTIVITY_DIM: usize = 24;

/// What `char::is_alphanumeric` returns for `c` (the Unicode `Alphabetic`
/// or `Numeric` property).
pub uninterp spec fn alphanumeric(c: char) -> bool;

/// `char::is_alphanumeric`. Its result is named by [`alphanumeric`]; for
/// an ASCII character it holds exactly of the letters and the digits.
#[verifier::external_body]
fn is_alphanumeric_char(c: char) -> (r: bool)
    ensures
        r == alphanumeric(c),
        (c as u32) < 128 ==> (r <==> ('a' <= c <= 'z' || 'A' <= c <= 'Z' || '0' <= c <= '9')),
{
    c.is_alphanumeric()
}

/// Splitting a text at non-alphanumeric characters, left to right: the
/// words completed so far, and the word being read.
pub open spec fn split_words(s: Seq<char>) -> (Seq<Seq<char>>, Seq<char>)
    decreases s.len(),
{
    if s.len() == 0 {
        (seq![], seq![])
    } else {
        let (done, cur) = split_words(s.drop_last());
        let c = s.last();
        if alphanumeric(c) {
            (done, cur.push(c))
        } else if cur.len() > 0 {
            (done.push(cur), seq![])
        } else {
            (done, seq![])
        }
    }
}

/// The words of a text: its maximal runs of alphanumeric characters.
pub open spec fn words(s: Seq<char>) -> Seq<Seq<char>> {
    let (done, cur) = split_words(s);
    if cur.len() > 0 {
        done.push(cur)
    } else {
        done
    }
}

/// The bucket of a word: FNV-1a of its ASCII-lower-cased UTF-8 bytes,
/// modulo the number of buckets.
pub open spec fn word_bucket(w: Seq<char>) -> nat {
    (fnv1a(vstd::utf8::encode_utf8(lower(w))) % 32) as nat
}

/// How many of `ws` fall in bucket `k`.
pub open spec fn bucket_count(ws: Seq<Seq<char>>, k: nat) -> nat
    decreases ws.len(),
{
    if ws.len() == 0 {
        0
    } else {
        bucket_count(ws.drop_last(), k) + if word_bucket(ws.last()) == k {
            1nat
        } else {
            0nat
        }
    }
}

proof fn lemma_bucket_count_bounded(ws: Seq<Seq<char>>, k: nat)
    ensures
        bucket_count(ws, k) <= ws.len(),
    decreases ws.len(),
{
    if ws.len() > 0 {
        lemma_bucket_count_bounded(ws.drop_last(), k);
    }
}

proof fn lemma_bucket_count_push(ws: Seq<Seq<char>>, w: Seq<char>)
    ensures
        forall|k: nat|
            #[trigger] bucket_count(ws.push(w), k) == bucket_count(ws, k) + if word_bucket(w) == k {
                1nat
            } else {
                0nat
            },
{
    assert(ws.push(w).drop_last() =~= ws);
}

/// An ASCII letter or digit.
pub open spec fn ascii_word_char(c: char) -> bool {
    'a' <= c <= 'z' || 'A' <= c <= 'Z' || '0' <= c <= '9'
}

/// The number of places where a run of ASCII letters and digits starts.
pub open spec fn word_starts(s: Seq<char>) -> nat
    decreases s.len(),
{
    if s.len() == 0 {
        0
    } else {
        word_starts(s.drop_last()) + if ascii_word_char(s.last()) && (s.len() == 1 || !ascii_word_char(
            s[s.len() - 2],
        )) {
            1nat
        } else {
            0nat
        }
    }
}

/// The sum of the entries of an embedding.
pub open spec fn count_total(v: Seq<u64>) -> nat
    decreases v.len(),
{
    if v.len() == 0 {
        0
    } else {
        count_total(v.drop_last()) + v.last() as nat
    }
}

/// The words falling in the buckets below `m`.
pub open spec fn bucket_total(ws: Seq<Seq<char>>, m: nat) -> nat
    decreases m,
{
    if m == 0 {
        0
    } else {
        bucket_total(ws, (m - 1) as nat) + bucket_count(ws, (m - 1) as nat)
    }
}

proof fn lemma_bucket_total_push(ws: Seq<Seq<char>>, w: Seq<char>, m: nat)
    ensures
        bucket_total(ws.push(w), m) == bucket_total(ws, m) + if word_bucket(w) < m {
            1nat
        } else {
            0nat
        },
    decreases m,
{
    lemma_bucket_count_push(ws, w);
    if m > 0 {
        lemma_bucket_total_push(ws, w, (m - 1) as nat);
        assert(bucket_count(ws.push(w), (m - 1) as nat) == bucket_count(ws, (m - 1) as nat) + if word_bucket(w)
            == (m - 1) as nat {
            1nat
        } else {
            0nat
        });
    }
}

proof fn lemma_bucket_total_empty(m: nat)
    ensures
        bucket_total(Seq::<Seq<char>>::empty(), m) == 0,
    decreases m,
{
    if m > 0 {
        lemma_bucket_total_empty((m - 1) as nat);
    }
}

/// Every word falls in exactly one bucket: the bucket counts add up to the
/// number of words.
pub proof fn lemma_buckets_add_up(ws: Seq<Seq<char>>)
    ensures
        bucket_total(ws, EMBED_DIM as nat) == ws.len(),
    decreases ws.len(),
{
    if ws.len() == 0 {
        assert(ws =~= Seq::<Seq<char>>::empty());
        lemma_bucket_total_empty(EMBED_DIM as nat);
    } else {
        let rest = ws.drop_last();
        lemma_buckets_add_up(rest);
        assert(rest.push(ws.last()) =~= ws);
        lemma_bucket_total_push(rest, ws.last(), EMBED_DIM as nat);
        let h = fnv1a(vstd::utf8::encode_utf8(lower(ws.last())));
        assert(h % 32 < 32);
        assert(word_bucket(ws.last()) < EMBED_DIM as nat);
    }
}

/// On a text whose word characters are exactly its ASCII letters and
/// digits, the words are the runs of ASCII letters and digits.
pub proof fn lemma_words_are_runs(s: Seq<char>)
    requires
        forall|i: int| 0 <= i < s.len() ==> alphanumeric(#[trigger] s[i]) == ascii_word_char(s[i]),
    ensures
        words(s).len() == word_starts(s),
{
    lemma_split_words_runs(s);
}

proof fn lemma_split_words_runs(s: Seq<char>)
    requires
        forall|i: int| 0 <= i < s.len() ==> alphanumeric(#[trigger] s[i]) == ascii_word_char(s[i]),
    ensures
        (split_words(s).1.len() > 0) == (s.len() > 0 && ascii_word_char(s.last())),
        split_words(s).0.len() + (if split_words(s).1.len() > 0 {
            1nat
        } else {
            0nat
        }) == word_starts(s),
    decreases s.len(),
{
    if s.len() > 0 {
        let rest = s.drop_last();
        assert forall|i: int| 0 <= i < rest.len() implies alphanumeric(#[trigger] rest[i]) == ascii_word_char(
            rest[i],
        ) by {
            assert(rest[i] == s[i]);
        }
        lemma_split_words_runs(rest);
        assert(alphanumeric(s[s.len() - 1]) == ascii_word_char(s[s.len() - 1]));
        if s.len() > 1 {
            assert(rest.last() == s[s.len() - 2]);
        }
    }
}

/// The embedding entries add up to the number of words.
proof fn lemma_count_total(r: Seq<u64>, ws: Seq<Seq<char>>, m: nat)
    requires
        m <= r.len(),
        forall|k: int| 0 <= k < r.len() ==> #[trigger] r[k] == bucket_count(ws, k as nat),
    ensures
        count_total(r.take(m as int)) == bucket_total(ws, m),
    decreases m,
{
    if m > 0 {
        lemma_count_total(r, ws, (m - 1) as nat);
        assert(r.take(m as int).drop_last() =~= r.take(m - 1));
    } else {
        assert(r.take(0) =~= Seq::<u64>::empty());
    }
}

/// The bucket of a word already lower-cased.
fn bucket_of(w: &String) -> (r: usize)
    ensures
        r < EMBED_DIM,
        r as nat == (fnv1a(vstd::utf8::encode_utf8(w@)) % 32) as nat,
{
    let h = fnv1a_bytes(w.as_str().as_bytes());
    (h % 32) as usize
}

/// Counts one more word in bucket `b`.
fn count_word(counts: &mut Vec<u64>, b: usize, Ghost(done): Ghost<Seq<Seq<char>>>, Ghost(w): Ghost<Seq<char>>)
    requires
        old(counts)@.len() == EMBED_DIM,
        b as nat == word_bucket(w),
        forall|k: int| 0 <= k < EMBED_DIM ==> #[trigger] old(counts)@[k] == bucket_count(done, k as nat),
        done.len() < u64::MAX,
    ensures
        final(counts)@.len() == EMBED_DIM,
        forall|k: int| 0 <= k < EMBED_DIM ==> #[trigger] final(counts)@[k] == bucket_count(done.push(w), k as nat),
{
    proof {
        lemma_bucket_count_bounded(done, b as nat);
        lemma_bucket_count_push(done, w);
    }
    let v = counts[b];
    counts.set(b, v + 1);
    assert forall|k: int| 0 <= k < EMBED_DIM implies #[trigger] counts@[k] == bucket_count(done.push(w), k as nat) by {
        assert(bucket_count(done.push(w), k as nat) == bucket_count(done, k as nat) + if word_bucket(w) == k as nat {
            1nat
        } else {
            0nat
        });
    }
}

/// The hashed bag-of-words embedding of a text: for each bucket, how many
/// of the text's words fall in it. Equal texts give equal embeddings; the
/// driver compares embeddings by cosine similarity.
pub fn embed(text: &str) -> (r: Vec<u64>)
    ensures
        r@.len() == EMBED_DIM,
        forall|k: int| 0 <= k < EMBED_DIM ==> #[trigger] r@[k] == bucket_count(words(text@), k as nat),
        count_total(r@) == words(text@).len(),
        (forall|i: int| 0 <= i < text@.len() ==> (#[trigger] text@[i] as u32) < 128) ==> count_total(r@)
            == word_starts(text@),
{
    let chars = chars_of(text);
    let mut counts: Vec<u64> = Vec::new();
    let mut j: usize = 0;
    while j < EMBED_DIM
        invariant
            0 <= j <= EMBED_DIM,
            counts@.len() == j,
            forall|k: int| 0 <= k < j ==> #[trigger] counts@[k] == 0,
        decreases EMBED_DIM - j,
    {
        counts.push(0);
        j = j + 1;
    }
    let mut cur = String::new();
    let mut cur_n: usize = 0;
    let ghost mut done: Seq<Seq<char>> = seq![];
    let ghost mut raw: Seq<char> = seq![];
    let n = chars.len();
    let mut i: usize = 0;
    while i < n
        invariant
            n == chars@.len(),
            chars@ == text@,
            0 <= i <= n,
            (done, raw) == split_words(chars@.take(i as int)),
            cur@ == lower(raw),
            cur_n == raw.len(),
            done.len() + cur_n <= i,
            counts@.len() == EMBED_DIM,
            forall|k: int| 0 <= k < EMBED_DIM ==> #[trigger] counts@[k] == bucket_count(done, k as nat),
            forall|j: int|
                0 <= j < i ==> ((#[trigger] chars@[j] as u32) < 128 ==> (alphanumeric(chars@[j]) == ascii_word_char(
                    chars@[j],
                ))),
        decreases n - i,
    {
        let c = chars[i];
        assert(chars@.take(i + 1).drop_last() =~= chars@.take(i as int));
        assert(chars@.take(i + 1).last() == c);
        if is_alphanumeric_char(c) {
            push_char(&mut cur, lower_ascii(c));
            proof {
                assert(lower(raw.push(c)) =~= lower(raw).push(lower_char(c)));
                raw = raw.push(c);
            }
            cur_n = cur_n + 1;
        } else if cur_n > 0 {
            let b = bucket_of(&cur);
            count_word(&mut counts, b, Ghost(done), Ghost(raw));
            proof {
                done = done.push(raw);
                raw = seq![];
            }
            cur = String::new();
            cur_n = 0;
        }
        i = i + 1;
    }
    assert(chars@.take(n as int) =~= chars@);
    if cur_n > 0 {
        let b = bucket_of(&cur);
        count_word(&mut counts, b, Ghost(done), Ghost(raw));
    }
    proof {
        let ws = words(text@);
        lemma_count_total(counts@, ws, EMBED_DIM as nat);
        assert(counts@.take(EMBED_DIM as int) =~= counts@);
        lemma_buckets_add_up(ws);
        if forall|i: int| 0 <= i < text@.len() ==> (#[trigger] text@[i] as u32) < 128 {
            assert forall|i: int| 0 <= i < text@.len() implies alphanumeric(#[trigger] text@[i]) == ascii_word_char(
                text@[i],
            ) by {
                assert((chars@[i] as u32) < 128);
            }
            lemma_words_are_runs(text@);
        }
    }
    counts
}

} // verus!
