//! Character-level text utilities shared by the parsers and the prompt
//! builder: whitespace trimming, ASCII case folding, decimal digits and
//! substring search, each with the mathematical model it implements.
use vstd::prelude::*;

verus! {

// ------------------------------------------------------------------------
// Models
// ------------------------------------------------------------------------

/// Unicode `White_Space` property (the set `char::is_whitespace` tests).
pub open spec fn is_white(c: char) -> bool {
    let u = c as int;
    ||| 0x09 <= u <= 0x0D
    ||| u == 0x20
    ||| u == 0x85
    ||| u == 0xA0
    ||| u == 0x1680
    ||| 0x2000 <= u <= 0x200A
    ||| u == 0x2028
    ||| u == 0x2029
    ||| u == 0x202F
    ||| u == 0x205F
    ||| u == 0x3000
}

/// `str::trim_start`: drop leading whitespace.
pub open spec fn trim_start(s: Seq<char>) -> Seq<char>
    decreases s.len(),
{
    if s.len() > 0 && is_white(s[0]) {
        trim_start(s.drop_first())
    } else {
        s
    }
}

/// `str::trim_end`: drop trailing whitespace.
pub open spec fn trim_end(s: Seq<char>) -> Seq<char>
    decreases s.len(),
{
    if s.len() > 0 && is_white(s.last()) {
        trim_end(s.drop_last())
    } else {
        s
    }
}

/// `str::trim`: drop leading and trailing whitespace.
pub open spec fn trim(s: Seq<char>) -> Seq<char> {
    trim_end(trim_start(s))
}

/// ASCII lower-casing of one character (other characters are unchanged).
pub open spec fn lower_char(c: char) -> char {
    if 'A' <= c <= 'Z' {
        ((c as int) + 32) as char
    } else {
        c
    }
}

/// ASCII lower-casing of a text.
pub open spec fn lower(s: Seq<char>) -> Seq<char> {
    Seq::new(s.len(), |i: int| lower_char(s[i]))
}

/// `s` starts with `key`, ignoring ASCII case.
pub open spec fn starts_with_ci(s: Seq<char>, key: Seq<char>) -> bool {
    &&& key.len() <= s.len()
    &&& forall|i: int| 0 <= i < key.len() ==> lower_char(#[trigger] s[i]) == lower_char(key[i])
}

/// An ASCII decimal digit.
pub open spec fn is_digit(c: char) -> bool {
    '0' <= c <= '9'
}

/// Every character is an ASCII decimal digit.
pub open spec fn all_digits(s: Seq<char>) -> bool {
    forall|i: int| 0 <= i < s.len() ==> is_digit(#[trigger] s[i])
}

/// The numeric value of a decimal digit.
pub open spec fn digit_value(c: char) -> nat {
    (c as int - '0' as int) as nat
}

/// The character of a decimal digit `d < 10`.
pub open spec fn digit_char(d: nat) -> char {
    (d + 48) as char
}

/// The number written by a string of decimal digits.
pub open spec fn decimal_value(s: Seq<char>) -> nat
    decreases s.len(),
{
    if s.len() == 0 {
        0
    } else {
        decimal_value(s.drop_last()) * 10 + digit_value(s.last())
    }
}

/// The shortest decimal spelling of `n` (what `{}` formatting prints).
pub open spec fn decimal(n: nat) -> Seq<char>
    decreases n,
{
    if n < 10 {
        seq![digit_char(n)]
    } else {
        decimal(n / 10).push(digit_char(n % 10))
    }
}

/// The characters of `s` that are ASCII digits, in order.
pub open spec fn digits_of(s: Seq<char>) -> Seq<char>
    decreases s.len(),
{
    if s.len() == 0 {
        seq![]
    } else if is_digit(s.last()) {
        digits_of(s.drop_last()).push(s.last())
    } else {
        digits_of(s.drop_last())
    }
}

/// `needle` occurs in `hay` starting at position `i`.
pub open spec fn occurs_at(hay: Seq<char>, needle: Seq<char>, i: int) -> bool {
    &&& 0 <= i
    &&& i + needle.len() <= hay.len()
    &&& hay.subrange(i, i + needle.len()) == needle
}

/// The first position at or after `from` where `needle` occurs in `hay`.
pub open spec fn find_from(hay: Seq<char>, needle: Seq<char>, from: int) -> Option<int>
    decreases hay.len() + 1 - from,
{
    if from < 0 || from + needle.len() > hay.len() {
        None
    } else if occurs_at(hay, needle, from) {
        Some(from)
    } else {
        find_from(hay, needle, from + 1)
    }
}

/// The first position where `needle` occurs in `hay` (`str::find`).
pub open spec fn find(hay: Seq<char>, needle: Seq<char>) -> Option<int> {
    find_from(hay, needle, 0)
}

/// The first position of character `c` in `s` at or after `from`.
pub open spec fn find_char_from(s: Seq<char>, c: char, from: int) -> Option<int>
    decreases s.len() - from,
{
    if from < 0 || from >= s.len() {
        None
    } else if s[from] == c {
        Some(from)
    } else {
        find_char_from(s, c, from + 1)
    }
}

/// The length of the longest prefix of `s` made of digits.
pub open spec fn digit_run(s: Seq<char>) -> nat
    decreases s.len(),
{
    if s.len() > 0 && is_digit(s[0]) {
        1 + digit_run(s.drop_first())
    } else {
        0
    }
}

// ------------------------------------------------------------------------
// Lemmas about the models
// ------------------------------------------------------------------------

/// Digits spell back the number they were written from.
pub proof fn lemma_decimal_value_of_decimal(n: nat)
    ensures
        decimal(n).len() > 0,
        all_digits(decimal(n)),
        decimal_value(decimal(n)) == n,
    decreases n,
{
    if n < 10 {
        assert(digit_char(n) as int == n + 48);
        assert(decimal(n) == seq![digit_char(n)]);
        assert(decimal(n).drop_last() =~= Seq::<char>::empty());
        assert(decimal(n).last() == digit_char(n));
        assert(decimal_value(Seq::<char>::empty()) == 0);
        assert(decimal_value(decimal(n)) == decimal_value(decimal(n).drop_last()) * 10 + digit_value(decimal(n).last()));
    } else {
        lemma_decimal_value_of_decimal(n / 10);
        let d = decimal(n / 10);
        assert(decimal(n).drop_last() =~= d);
        assert(digit_char(n % 10) as int == n % 10 + 48);
        assert(decimal(n).last() == digit_char(n % 10));
        assert(decimal_value(decimal(n)) == decimal_value(d) * 10 + digit_value(digit_char(n % 10)));
        assert((n / 10) * 10 + n % 10 == n);
        assert forall|i: int| 0 <= i < decimal(n).len() implies is_digit(#[trigger] decimal(n)[i]) by {
            if i < d.len() {
                assert(decimal(n)[i] == d[i]);
            }
        }
    }
}

/// A longer prefix of digits never spells a smaller number.
pub proof fn lemma_decimal_value_prefix(s: Seq<char>, j: int)
    requires
        0 <= j <= s.len(),
    ensures
        decimal_value(s.take(j)) <= decimal_value(s),
    decreases s.len() - j,
{
    if j < s.len() {
        lemma_decimal_value_prefix(s, j + 1);
        assert(s.take(j + 1).drop_last() =~= s.take(j));
    } else {
        assert(s.take(j) =~= s);
    }
}

/// The digits of a text made only of digits are the text itself.
pub proof fn lemma_digits_of_all_digits(s: Seq<char>)
    requires
        all_digits(s),
    ensures
        digits_of(s) == s,
    decreases s.len(),
{
    if s.len() > 0 {
        lemma_digits_of_all_digits(s.drop_last());
        assert(s.drop_last().push(s.last()) =~= s);
    }
}

/// Appending a character adds it to the digits when it is a digit.
pub proof fn lemma_digits_of_push(s: Seq<char>, c: char)
    ensures
        digits_of(s.push(c)) == if is_digit(c) {
            digits_of(s).push(c)
        } else {
            digits_of(s)
        },
{
    assert(s.push(c).drop_last() =~= s);
}

/// A text without digits has no digits.
pub proof fn lemma_digits_of_no_digits(s: Seq<char>)
    requires
        forall|i: int| 0 <= i < s.len() ==> !is_digit(#[trigger] s[i]),
    ensures
        digits_of(s) == Seq::<char>::empty(),
    decreases s.len(),
{
    if s.len() > 0 {
        lemma_digits_of_no_digits(s.drop_last());
    }
}

/// Where `find_from` lands: the first occurrence at or after `from`, or
/// none at all.
pub proof fn lemma_find_from_spec(hay: Seq<char>, needle: Seq<char>, from: int)
    requires
        0 <= from,
    ensures
        match find_from(hay, needle, from) {
            Some(j) => from <= j && occurs_at(hay, needle, j) && forall|k: int|
                from <= k < j ==> !#[trigger] occurs_at(hay, needle, k),
            None => forall|k: int| from <= k ==> !#[trigger] occurs_at(hay, needle, k),
        },
    decreases hay.len() + 1 - from,
{
    if from + needle.len() > hay.len() {
    } else if occurs_at(hay, needle, from) {
    } else {
        lemma_find_from_spec(hay, needle, from + 1);
    }
}

/// `find_from` is determined by where the needle occurs.
pub proof fn lemma_find_from_is(hay: Seq<char>, needle: Seq<char>, from: int, r: Option<int>)
    requires
        0 <= from,
        match r {
            Some(j) => from <= j && occurs_at(hay, needle, j) && forall|k: int|
                from <= k < j ==> !#[trigger] occurs_at(hay, needle, k),
            None => forall|k: int| from <= k ==> !#[trigger] occurs_at(hay, needle, k),
        },
    ensures
        find_from(hay, needle, from) == r,
{
    lemma_find_from_spec(hay, needle, from);
    match (find_from(hay, needle, from), r) {
        (Some(a), Some(b)) => {
            if a < b {
                assert(!occurs_at(hay, needle, a));
            } else if b < a {
                assert(!occurs_at(hay, needle, b));
            }
        },
        (Some(a), None) => {
            assert(!occurs_at(hay, needle, a));
        },
        (None, Some(b)) => {
            assert(!occurs_at(hay, needle, b));
        },
        (None, None) => {},
    }
}

/// A needle without line breaks that does not occur in a text ending a
/// line is found in `a + b` exactly where it is found in `b`, shifted.
pub proof fn lemma_find_after_line(a: Seq<char>, b: Seq<char>, needle: Seq<char>)
    requires
        a.len() > 0,
        a.last() == '\n',
        needle.len() > 0,
        forall|i: int| 0 <= i < needle.len() ==> #[trigger] needle[i] != '\n',
        find_from(a, needle, 0) is None,
    ensures
        find_from(a + b, needle, 0) == match find_from(b, needle, 0) {
            Some(j) => Some(j + a.len()),
            None => None::<int>,
        },
{
    let ab = a + b;
    lemma_find_from_spec(a, needle, 0);
    lemma_find_from_spec(b, needle, 0);
    assert forall|k: int| 0 <= k < a.len() implies !#[trigger] occurs_at(ab, needle, k) by {
        if occurs_at(ab, needle, k) {
            if k + needle.len() <= a.len() {
                assert(ab.subrange(k, k + needle.len()) =~= a.subrange(k, k + needle.len()));
                assert(occurs_at(a, needle, k));
            } else {
                let p = a.len() - 1;
                assert(ab.subrange(k, k + needle.len())[p - k] == ab[p]);
                assert(needle[p - k] != '\n');
            }
        }
    }
    assert forall|k: int| a.len() <= k implies #[trigger] occurs_at(ab, needle, k) == occurs_at(
        b,
        needle,
        k - a.len(),
    ) by {
        if k + needle.len() <= ab.len() {
            assert(ab.subrange(k, k + needle.len()) =~= b.subrange(k - a.len(), k - a.len() + needle.len()));
        }
    }
    match find_from(b, needle, 0) {
        Some(j) => {
            assert(occurs_at(ab, needle, j + a.len()));
            assert forall|k: int| 0 <= k < j + a.len() implies !#[trigger] occurs_at(ab, needle, k) by {
                if k >= a.len() {
                    assert(!occurs_at(b, needle, k - a.len()));
                }
            }
            lemma_find_from_is(ab, needle, 0, Some(j + a.len()));
        },
        None => {
            assert forall|k: int| 0 <= k implies !#[trigger] occurs_at(ab, needle, k) by {
                if k >= a.len() {
                    assert(!occurs_at(b, needle, k - a.len()));
                }
            }
            lemma_find_from_is(ab, needle, 0, None);
        },
    }
}

/// The digit run of digits followed by a non-digit is the digits.
pub proof fn lemma_digit_run_prefix(d: Seq<char>, s: Seq<char>)
    requires
        all_digits(d),
        s.len() > 0 ==> !is_digit(s[0]),
    ensures
        digit_run(d + s) == d.len(),
    decreases d.len(),
{
    if d.len() > 0 {
        lemma_digit_run_prefix(d.drop_first(), s);
        assert((d + s).drop_first() =~= d.drop_first() + s);
        assert(is_digit(d[0]));
    } else {
        assert(d + s =~= s);
    }
}

/// A text with no whitespace at either end is its own trim.
pub proof fn lemma_trim_plain(s: Seq<char>)
    requires
        s.len() > 0,
        !is_white(s[0]),
        !is_white(s.last()),
    ensures
        trim(s) == s,
{
    assert(trim_start(s) == s);
}

/// A text with no ASCII capital is its own lower-casing.
pub proof fn lemma_lower_plain(s: Seq<char>)
    requires
        forall|i: int| 0 <= i < s.len() ==> !('A' <= #[trigger] s[i] <= 'Z'),
    ensures
        lower(s) == s,
{
    assert(lower(s) =~= s);
}

/// Lower-casing is idempotent.
pub proof fn lemma_lower_twice(s: Seq<char>)
    ensures
        lower(lower(s)) == lower(s),
{
    assert(lower(lower(s)) =~= lower(s));
}

/// Trimming and ASCII lower-casing commute: case folding never turns
/// whitespace into non-whitespace or back.
pub proof fn lemma_trim_lower(s: Seq<char>)
    ensures
        trim(lower(s)) == lower(trim(s)),
{
    lemma_trim_start_lower(s);
    lemma_trim_end_lower(trim_start(s));
}

proof fn lemma_trim_start_lower(s: Seq<char>)
    ensures
        trim_start(lower(s)) == lower(trim_start(s)),
    decreases s.len(),
{
    if s.len() > 0 {
        assert(is_white(lower(s)[0]) == is_white(s[0]));
        if is_white(s[0]) {
            assert(lower(s).drop_first() =~= lower(s.drop_first()));
            lemma_trim_start_lower(s.drop_first());
        }
    } else {
        assert(lower(s) =~= s);
    }
}

proof fn lemma_trim_end_lower(s: Seq<char>)
    ensures
        trim_end(lower(s)) == lower(trim_end(s)),
    decreases s.len(),
{
    if s.len() > 0 {
        assert(is_white(lower(s).last()) == is_white(s.last()));
        if is_white(s.last()) {
            assert(lower(s).drop_last() =~= lower(s.drop_last()));
            lemma_trim_end_lower(s.drop_last());
        }
    } else {
        assert(lower(s) =~= s);
    }
}

// ------------------------------------------------------------------------
// Executable helpers
// ------------------------------------------------------------------------

/// Appends one character to a `String` (`String::push`).
#[verifier::external_body]
pub(crate) fn push_char(s: &mut String, c: char)
    ensures
        final(s)@ == old(s)@.push(c),
{
    s.push(c);
}

/// The characters of a string slice.
pub fn chars_of(s: &str) -> (r: Vec<char>)
    ensures
        r@ == s@,
{
    let mut r: Vec<char> = Vec::new();
    for c in it: s.chars()
        invariant
            r@ == it.seq().take(it.index() as int),
            it.seq() == s@,
    {
        r.push(c);
    }
    r
}

/// A `String` holding the characters `v[lo..hi]`.
pub fn string_of_range(v: &Vec<char>, lo: usize, hi: usize) -> (r: String)
    requires
        lo <= hi <= v.len(),
    ensures
        r@ == v@.subrange(lo as int, hi as int),
{
    let mut r = String::new();
    let mut i = lo;
    while i < hi
        invariant
            lo <= i <= hi <= v.len(),
            r@ == v@.subrange(lo as int, i as int),
        decreases hi - i,
    {
        push_char(&mut r, v[i]);
        assert(v@.subrange(lo as int, i + 1) =~= v@.subrange(lo as int, i as int).push(v@[i as int]));
        i = i + 1;
    }
    r
}

/// Appends the characters of `v[lo..hi]` to `s`.
pub fn push_range(s: &mut String, v: &Vec<char>, lo: usize, hi: usize)
    requires
        lo <= hi <= v.len(),
    ensures
        final(s)@ == old(s)@ + v@.subrange(lo as int, hi as int),
{
    let mut i = lo;
    while i < hi
        invariant
            lo <= i <= hi <= v.len(),
            s@ == old(s)@ + v@.subrange(lo as int, i as int),
        decreases hi - i,
    {
        push_char(s, v[i]);
        assert(old(s)@ + v@.subrange(lo as int, i + 1) =~= (old(s)@ + v@.subrange(
            lo as int,
            i as int,
        )).push(v@[i as int]));
        i = i + 1;
    }
}

/// Appends a string slice to `s`.
pub fn push_str(s: &mut String, t: &str)
    ensures
        final(s)@ == old(s)@ + t@,
{
    let v = chars_of(t);
    push_range(s, &v, 0, v.len());
    assert(v@.subrange(0, v@.len() as int) =~= v@);
}

/// Whether `c` is Unicode whitespace.
pub fn is_white_char(c: char) -> (r: bool)
    ensures
        r == is_white(c),
{
    let u = c as u32;
    (0x09 <= u && u <= 0x0D) || u == 0x20 || u == 0x85 || u == 0xA0 || u == 0x1680 || (0x2000
        <= u && u <= 0x200A) || u == 0x2028 || u == 0x2029 || u == 0x202F || u == 0x205F || u
        == 0x3000
}

/// Whether `c` is an ASCII digit.
pub fn is_digit_char(c: char) -> (r: bool)
    ensures
        r == is_digit(c),
{
    '0' <= c && c <= '9'
}

/// ASCII lower-casing of one character.
pub fn lower_ascii(c: char) -> (r: char)
    ensures
        r == lower_char(c),
{
    if 'A' <= c && c <= 'Z' {
        let b: u8 = c as u8;
        (b + 32) as char
    } else {
        c
    }
}

/// The bounds of `trim(v[lo..hi])` inside `v`.
pub fn trim_bounds(v: &Vec<char>, lo: usize, hi: usize) -> (r: (usize, usize))
    requires
        lo <= hi <= v.len(),
    ensures
        lo <= r.0 <= r.1 <= hi,
        v@.subrange(r.0 as int, r.1 as int) == trim(v@.subrange(lo as int, hi as int)),
{
    let mut a = lo;
    while a < hi && is_white_char(v[a])
        invariant
            lo <= a <= hi <= v.len(),
            trim_start(v@.subrange(lo as int, hi as int)) == trim_start(
                v@.subrange(a as int, hi as int),
            ),
        decreases hi - a,
    {
        assert(v@.subrange(a as int, hi as int).drop_first() =~= v@.subrange(a + 1, hi as int));
        a = a + 1;
    }
    let ghost start = v@.subrange(a as int, hi as int);
    assert(trim_start(start) == start);
    let mut b = hi;
    while b > a && is_white_char(v[b - 1])
        invariant
            lo <= a <= b <= hi <= v.len(),
            start == v@.subrange(a as int, hi as int),
            trim_end(start) == trim_end(v@.subrange(a as int, b as int)),
        decreases b - a,
    {
        assert(v@.subrange(a as int, b as int).drop_last() =~= v@.subrange(a as int, b - 1));
        b = b - 1;
    }
    (a, b)
}

/// Whether `v[lo..hi]` equals `lit`.
pub fn range_eq_str(v: &Vec<char>, lo: usize, hi: usize, lit: &str) -> (r: bool)
    requires
        lo <= hi <= v.len(),
    ensures
        r == (v@.subrange(lo as int, hi as int) == lit@),
{
    let n = lit.unicode_len();
    if hi - lo != n {
        return false;
    }
    let mut i: usize = 0;
    while i < n
        invariant
            lo <= hi <= v.len(),
            hi - lo == n,
            n == lit@.len(),
            0 <= i <= n,
            forall|j: int| 0 <= j < i ==> v@[lo + j] == lit@[j],
        decreases n - i,
    {
        if v[lo + i] != lit.get_char(i) {
            assert(v@.subrange(lo as int, hi as int)[i as int] != lit@[i as int]);
            return false;
        }
        i = i + 1;
    }
    assert(v@.subrange(lo as int, hi as int) =~= lit@);
    true
}

/// Whether the ASCII lower-casing of `v[lo..hi]` equals `lit`.
pub fn range_lower_eq_str(v: &Vec<char>, lo: usize, hi: usize, lit: &str) -> (r: bool)
    requires
        lo <= hi <= v.len(),
    ensures
        r == (lower(v@.subrange(lo as int, hi as int)) == lit@),
{
    let n = lit.unicode_len();
    let ghost low = lower(v@.subrange(lo as int, hi as int));
    if hi - lo != n {
        assert(low.len() != lit@.len());
        return false;
    }
    let mut i: usize = 0;
    while i < n
        invariant
            lo <= hi <= v.len(),
            hi - lo == n,
            n == lit@.len(),
            low == lower(v@.subrange(lo as int, hi as int)),
            0 <= i <= n,
            forall|j: int| 0 <= j < i ==> lower_char(v@[lo + j]) == lit@[j],
        decreases n - i,
    {
        if lower_ascii(v[lo + i]) != lit.get_char(i) {
            assert(low[i as int] != lit@[i as int]);
            return false;
        }
        i = i + 1;
    }
    assert(low =~= lit@);
    true
}

/// Whether `v[lo..hi]` starts with `key`, ignoring ASCII case.
pub fn range_starts_with_ci(v: &Vec<char>, lo: usize, hi: usize, key: &Vec<char>) -> (r: bool)
    requires
        lo <= hi <= v.len(),
    ensures
        r == starts_with_ci(v@.subrange(lo as int, hi as int), key@),
{
    let ghost s = v@.subrange(lo as int, hi as int);
    if key.len() > hi - lo {
        return false;
    }
    let mut i: usize = 0;
    while i < key.len()
        invariant
            lo <= hi <= v.len(),
            key.len() <= hi - lo,
            s == v@.subrange(lo as int, hi as int),
            0 <= i <= key.len(),
            forall|j: int| 0 <= j < i ==> lower_char(#[trigger] s[j]) == lower_char(key@[j]),
        decreases key.len() - i,
    {
        if lower_ascii(v[lo + i]) != lower_ascii(key[i]) {
            assert(lower_char(s[i as int]) != lower_char(key@[i as int]));
            return false;
        }
        i = i + 1;
    }
    true
}

/// Appends the decimal spelling of `n` to `s`.
pub fn push_decimal(s: &mut String, n: u64)
    ensures
        final(s)@ == old(s)@ + decimal(n as nat),
    decreases n,
{
    if n >= 10 {
        push_decimal(s, n / 10);
    }
    let d: u8 = (n % 10) as u8;
    let c: char = (d + 48) as char;
    assert(c == digit_char((n % 10) as nat));
    push_char(s, c);
    if n >= 10 {
        assert(old(s)@ + decimal(n as nat) =~= (old(s)@ + decimal((n / 10) as nat)).push(c));
    } else {
        assert(old(s)@ + decimal(n as nat) =~= old(s)@.push(c));
    }
}

/// The number written by the digits `v[lo..hi]`, or `None` when there are
/// no digits or the number does not fit in `usize` (`str::parse::<usize>`).
pub fn parse_digits(v: &Vec<char>, lo: usize, hi: usize) -> (r: Option<usize>)
    requires
        lo <= hi <= v.len(),
        all_digits(v@.subrange(lo as int, hi as int)),
    ensures
        r == (if lo < hi && decimal_value(v@.subrange(lo as int, hi as int)) <= usize::MAX {
            Some(decimal_value(v@.subrange(lo as int, hi as int)) as usize)
        } else {
            None::<usize>
        }),
{
    if lo == hi {
        return None;
    }
    let ghost s = v@.subrange(lo as int, hi as int);
    let mut acc: usize = 0;
    let mut i = lo;
    while i < hi
        invariant
            lo <= i <= hi <= v.len(),
            s == v@.subrange(lo as int, hi as int),
            all_digits(s),
            acc as nat == decimal_value(s.take(i - lo)),
        decreases hi - i,
    {
        let ghost k = (i - lo) as int;
        assert(s.take(k + 1).drop_last() =~= s.take(k));
        assert(s.take(k + 1).last() == v@[i as int]);
        assert(is_digit(s[k]));
        let d: usize = (v[i] as u32 - 48) as usize;
        match acc.checked_mul(10) {
            Some(m) => match m.checked_add(d) {
                Some(x) => {
                    acc = x;
                },
                None => {
                    proof {
                        lemma_decimal_value_prefix(s, k + 1);
                    }
                    return None;
                },
            },
            None => {
                proof {
                    lemma_decimal_value_prefix(s, k + 1);
                    assert(decimal_value(s.take(k + 1)) >= acc * 10) by (nonlinear_arith)
                        requires
                            decimal_value(s.take(k + 1)) == acc * 10 + digit_value(s[k]),
                    ;
                }
                return None;
            },
        }
        i = i + 1;
    }
    assert(s.take(hi - lo) =~= s);
    Some(acc)
}

/// The first position at or after `from` where `needle` occurs in `hay`.
pub fn find_in(hay: &Vec<char>, needle: &Vec<char>, from: usize) -> (r: Option<usize>)
    requires
        from <= hay.len(),
    ensures
        r == (match find_from(hay@, needle@, from as int) {
            Some(i) => Some(i as usize),
            None => None::<usize>,
        }),
        r matches Some(i) ==> i + needle.len() <= hay.len(),
{
    if needle.len() > hay.len() {
        return None;
    }
    let last = hay.len() - needle.len();
    if from > last {
        return None;
    }
    let mut i = from;
    loop
        invariant
            from <= i <= last,
            last + needle.len() == hay.len(),
            find_from(hay@, needle@, from as int) == find_from(hay@, needle@, i as int),
        decreases last - i,
    {
        let mut j: usize = 0;
        let mut same = true;
        while j < needle.len() && same
            invariant
                i <= last,
                last + needle.len() == hay.len(),
                0 <= j <= needle.len(),
                same ==> forall|k: int| 0 <= k < j ==> hay@[i + k] == needle@[k],
                !same ==> !occurs_at(hay@, needle@, i as int),
            decreases needle.len() - j, if same { 1int } else { 0int },
        {
            if hay[i + j] != needle[j] {
                assert(hay@.subrange(i as int, i + needle.len())[j as int] != needle@[j as int]);
                same = false;
            } else {
                j = j + 1;
            }
        }
        if same {
            assert(hay@.subrange(i as int, i + needle.len()) =~= needle@);
            return Some(i);
        }
        if i == last {
            return None;
        }
        i = i + 1;
    }
}

/// The first position of `c` in `v` at or after `from`.
pub fn find_char_in(v: &Vec<char>, c: char, from: usize) -> (r: Option<usize>)
    requires
        from <= v.len(),
    ensures
        r == (match find_char_from(v@, c, from as int) {
            Some(i) => Some(i as usize),
            None => None::<usize>,
        }),
        r matches Some(i) ==> i < v.len(),
{
    let mut i = from;
    while i < v.len()
        invariant
            from <= i <= v.len(),
            find_char_from(v@, c, from as int) == find_char_from(v@, c, i as int),
        decreases v.len() - i,
    {
        if v[i] == c {
            return Some(i);
        }
        i = i + 1;
    }
    None
}

/// The end of the run of digits that starts at `from`.
pub fn digit_run_end(v: &Vec<char>, from: usize) -> (r: usize)
    requires
        from <= v.len(),
    ensures
        from <= r <= v.len(),
        r - from == digit_run(v@.skip(from as int)),
        all_digits(v@.subrange(from as int, r as int)),
{
    let mut i = from;
    while i < v.len() && is_digit_char(v[i])
        invariant
            from <= i <= v.len(),
            digit_run(v@.skip(from as int)) == (i - from) + digit_run(v@.skip(i as int)),
            all_digits(v@.subrange(from as int, i as int)),
        decreases v.len() - i,
    {
        assert(v@.skip(i as int).drop_first() =~= v@.skip(i + 1));
        assert(v@.subrange(from as int, i + 1) =~= v@.subrange(from as int, i as int).push(
            v@[i as int],
        ));
        i = i + 1;
    }
    i
}

} // verus!
