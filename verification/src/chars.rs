//! Character classes and space-trimming shared by the decoder, the
//! scanner and the parser, together with small verified helpers for
//! moving between `&str`, `Vec<char>` and `String`.

use vstd::prelude::*;

verus! {

/// A decimal digit, the only kind of digit the language knows.
pub open spec fn is_digit_char(c: char) -> bool {
    '0' <= c && c <= '9'
}

/// Whether a character is a Unicode alphabetic character, exactly as
/// `char::is_alphabetic` decides it.
pub uninterp spec fn alphabetic_of(c: char) -> bool;

/// Relies on `char::is_alphabetic`: whether the character has the
/// Unicode `Alphabetic` property; the result depends on the character
/// alone.
pub assume_specification[ char::is_alphabetic ](c: char) -> (r: bool)
    ensures
        r == alphabetic_of(c),
;

/// A character that may start or continue a name: a letter, an
/// underscore, or a space (names such as `Other Service` contain
/// spaces).
pub open spec fn is_word_char(c: char) -> bool {
    alphabetic_of(c) || c == '_' || c == ' '
}

/// A character that may continue a name or a value: word characters
/// and digits.
pub open spec fn is_word_or_digit_char(c: char) -> bool {
    is_word_char(c) || is_digit_char(c)
}

pub fn digit_char(c: char) -> (r: bool)
    ensures
        r == is_digit_char(c),
{
    '0' <= c && c <= '9'
}

pub fn word_char(c: char) -> (r: bool)
    ensures
        r == is_word_char(c),
{
    c.is_alphabetic() || c == '_' || c == ' '
}

pub fn word_or_digit_char(c: char) -> (r: bool)
    ensures
        r == is_word_or_digit_char(c),
{
    word_char(c) || digit_char(c)
}

/// The sequence with its leading spaces removed.
pub open spec fn trim_left_spec(s: Seq<char>) -> Seq<char>
    decreases s.len(),
{
    if s.len() > 0 && s[0] == ' ' {
        trim_left_spec(s.drop_first())
    } else {
        s
    }
}

/// The sequence with its trailing spaces removed.
pub open spec fn trim_right_spec(s: Seq<char>) -> Seq<char>
    decreases s.len(),
{
    if s.len() > 0 && s[s.len() - 1] == ' ' {
        trim_right_spec(s.drop_last())
    } else {
        s
    }
}

/// The sequence with leading and trailing spaces removed.
pub open spec fn trim_spec(s: Seq<char>) -> Seq<char> {
    trim_right_spec(trim_left_spec(s))
}

/// Whether a character is Unicode whitespace, exactly as
/// `char::is_whitespace` decides it.
pub uninterp spec fn whitespace_of(c: char) -> bool;

/// Relies on `char::is_whitespace`: whether the character has the
/// Unicode `White_Space` property; the result depends on the
/// character alone.
pub assume_specification[ char::is_whitespace ](c: char) -> (r: bool)
    ensures
        r == whitespace_of(c),
;

/// The sequence with its leading whitespace removed.
pub open spec fn trim_ws_left_spec(s: Seq<char>) -> Seq<char>
    decreases s.len(),
{
    if s.len() > 0 && whitespace_of(s[0]) {
        trim_ws_left_spec(s.drop_first())
    } else {
        s
    }
}

/// The sequence with its trailing whitespace removed.
pub open spec fn trim_ws_right_spec(s: Seq<char>) -> Seq<char>
    decreases s.len(),
{
    if s.len() > 0 && whitespace_of(s[s.len() - 1]) {
        trim_ws_right_spec(s.drop_last())
    } else {
        s
    }
}

/// The sequence with leading and trailing whitespace removed.
pub open spec fn trim_ws_spec(s: Seq<char>) -> Seq<char> {
    trim_ws_right_spec(trim_ws_left_spec(s))
}

pub proof fn lemma_trim_ws_left_prefix(s: Seq<char>, j: int)
    requires
        0 <= j <= s.len(),
        forall|k: int| 0 <= k < j ==> whitespace_of(s[k]),
        j == s.len() || !whitespace_of(s[j]),
    ensures
        trim_ws_left_spec(s) == s.skip(j),
    decreases j,
{
    if j == 0 {
        assert(s.skip(0) =~= s);
    } else {
        assert(whitespace_of(s[0]));
        let d = s.drop_first();
        assert(forall|k: int| 0 <= k < j - 1 ==> d[k] == s[k + 1]);
        lemma_trim_ws_left_prefix(d, j - 1);
        assert(d.skip(j - 1) =~= s.skip(j));
    }
}

pub proof fn lemma_trim_ws_right_suffix(s: Seq<char>, j: int)
    requires
        0 <= j <= s.len(),
        forall|k: int| j <= k < s.len() ==> whitespace_of(s[k]),
        j == 0 || !whitespace_of(s[j - 1]),
    ensures
        trim_ws_right_spec(s) == s.take(j),
    decreases s.len(),
{
    if j == s.len() {
        assert(s.take(j) =~= s);
    } else {
        assert(whitespace_of(s[s.len() - 1]));
        let d = s.drop_last();
        lemma_trim_ws_right_suffix(d, j);
        assert(d.take(j) =~= s.take(j));
    }
}

/// The bounds of the whitespace-trimmed middle of `src[start..end]`.
pub fn trim_ws_bounds(src: &Vec<char>, start: usize, end: usize) -> (r: (usize, usize))
    requires
        start <= end,
        end <= src@.len(),
    ensures
        start <= r.0 <= r.1 <= end,
        trim_ws_spec(src@.subrange(start as int, end as int)) == src@.subrange(
            r.0 as int,
            r.1 as int,
        ),
{
    let ghost sub = src@.subrange(start as int, end as int);
    let mut lo: usize = start;
    while lo < end && src[lo].is_whitespace()
        invariant
            start <= lo <= end,
            end <= src@.len(),
            forall|k: int| start <= k < lo ==> whitespace_of(src@[k]),
        decreases end - lo,
    {
        lo = lo + 1;
    }
    let mut hi: usize = end;
    while hi > lo && src[hi - 1].is_whitespace()
        invariant
            lo <= hi <= end,
            end <= src@.len(),
            forall|k: int| hi <= k < end ==> whitespace_of(src@[k]),
        decreases hi,
    {
        hi = hi - 1;
    }
    proof {
        assert(forall|k: int| 0 <= k < sub.len() ==> sub[k] == src@[start + k]);
        lemma_trim_ws_left_prefix(sub, lo - start);
        let mid = sub.skip(lo - start);
        assert(forall|k: int| 0 <= k < mid.len() ==> mid[k] == src@[lo + k]);
        lemma_trim_ws_right_suffix(mid, hi - lo);
        assert(mid.take(hi - lo) =~= src@.subrange(lo as int, hi as int));
    }
    (lo, hi)
}

pub proof fn lemma_trim_left_prefix(s: Seq<char>, j: int)
    requires
        0 <= j <= s.len(),
        forall|k: int| 0 <= k < j ==> s[k] == ' ',
        j == s.len() || s[j] != ' ',
    ensures
        trim_left_spec(s) == s.skip(j),
    decreases j,
{
    if j == 0 {
        assert(s.skip(0) =~= s);
    } else {
        assert(s[0] == ' ');
        let d = s.drop_first();
        assert(forall|k: int| 0 <= k < j - 1 ==> d[k] == s[k + 1]);
        lemma_trim_left_prefix(d, j - 1);
        assert(d.skip(j - 1) =~= s.skip(j));
    }
}

pub proof fn lemma_trim_right_suffix(s: Seq<char>, j: int)
    requires
        0 <= j <= s.len(),
        forall|k: int| j <= k < s.len() ==> s[k] == ' ',
        j == 0 || s[j - 1] != ' ',
    ensures
        trim_right_spec(s) == s.take(j),
    decreases s.len(),
{
    if j == s.len() {
        assert(s.take(j) =~= s);
    } else {
        assert(s[s.len() - 1] == ' ');
        let d = s.drop_last();
        lemma_trim_right_suffix(d, j);
        assert(d.take(j) =~= s.take(j));
    }
}

/// The bounds of the trimmed middle of `src[start..end]`: everything
/// in `[r.0, r.1)` survives trimming, and everything outside it within
/// the span is a space.
pub fn trim_bounds(src: &Vec<char>, start: usize, end: usize) -> (r: (usize, usize))
    requires
        start <= end,
        end <= src@.len(),
    ensures
        start <= r.0 <= r.1 <= end,
        trim_spec(src@.subrange(start as int, end as int)) == src@.subrange(
            r.0 as int,
            r.1 as int,
        ),
{
    let ghost sub = src@.subrange(start as int, end as int);
    let mut lo: usize = start;
    while lo < end && src[lo] == ' '
        invariant
            start <= lo <= end,
            end <= src@.len(),
            forall|k: int| start <= k < lo ==> src@[k] == ' ',
        decreases end - lo,
    {
        lo = lo + 1;
    }
    let mut hi: usize = end;
    while hi > lo && src[hi - 1] == ' '
        invariant
            lo <= hi <= end,
            end <= src@.len(),
            forall|k: int| hi <= k < end ==> src@[k] == ' ',
        decreases hi,
    {
        hi = hi - 1;
    }
    proof {
        assert(forall|k: int| 0 <= k < sub.len() ==> sub[k] == src@[start + k]);
        lemma_trim_left_prefix(sub, lo - start);
        let mid = sub.skip(lo - start);
        assert(forall|k: int| 0 <= k < mid.len() ==> mid[k] == src@[lo + k]);
        lemma_trim_right_suffix(mid, hi - lo);
        assert(mid.take(hi - lo) =~= src@.subrange(lo as int, hi as int));
    }
    (lo, hi)
}

/// Relies on `String::push`: appends the given character to the end of
/// the string.
pub assume_specification[ String::push ](s: &mut String, c: char)
    ensures
        final(s)@ == old(s)@.push(c),
;

/// The characters `src[start..end]`, copied into an owned string.
pub fn span_string(src: &Vec<char>, start: usize, end: usize) -> (r: String)
    requires
        start <= end,
        end <= src@.len(),
    ensures
        r@ == src@.subrange(start as int, end as int),
{
    let mut r = String::new();
    let mut i: usize = start;
    while i < end
        invariant
            start <= i <= end,
            end <= src@.len(),
            r@ == src@.subrange(start as int, i as int),
        decreases end - i,
    {
        r.push(src[i]);
        i = i + 1;
        proof {
            assert(r@ =~= src@.subrange(start as int, i as int));
        }
    }
    r
}

/// The characters `src[start..end]` with surrounding spaces removed,
/// as an owned string.
pub fn trimmed_string(src: &Vec<char>, start: usize, end: usize) -> (r: String)
    requires
        start <= end,
        end <= src@.len(),
    ensures
        r@ == trim_spec(src@.subrange(start as int, end as int)),
{
    let (lo, hi) = trim_bounds(src, start, end);
    span_string(src, lo, hi)
}

/// The characters `src[start..end]` with surrounding whitespace
/// removed, as an owned string.
pub fn trimmed_ws_string(src: &Vec<char>, start: usize, end: usize) -> (r: String)
    requires
        start <= end,
        end <= src@.len(),
    ensures
        r@ == trim_ws_spec(src@.subrange(start as int, end as int)),
{
    let (lo, hi) = trim_ws_bounds(src, start, end);
    span_string(src, lo, hi)
}

/// The characters `src[start..end]`, copied into an owned vector.
pub fn subvec(src: &Vec<char>, start: usize, end: usize) -> (r: Vec<char>)
    requires
        start <= end,
        end <= src@.len(),
    ensures
        r@ == src@.subrange(start as int, end as int),
{
    let mut r: Vec<char> = Vec::new();
    let mut i: usize = start;
    while i < end
        invariant
            start <= i <= end,
            end <= src@.len(),
            r@ == src@.subrange(start as int, i as int),
        decreases end - i,
    {
        r.push(src[i]);
        i = i + 1;
        proof {
            assert(r@ =~= src@.subrange(start as int, i as int));
        }
    }
    r
}

/// The characters of a string slice, as a vector.
pub fn chars_of(s: &str) -> (v: Vec<char>)
    ensures
        v@ == s@,
{
    let n = s.unicode_len();
    let mut v: Vec<char> = Vec::new();
    let mut i: usize = 0;
    while i < n
        invariant
            i <= n,
            n == s@.len(),
            v@ == s@.subrange(0, i as int),
        decreases n - i,
    {
        v.push(s.get_char(i));
        i = i + 1;
        proof {
            assert(v@ =~= s@.subrange(0, i as int));
        }
    }
    proof {
        assert(v@ =~= s@);
    }
    v
}

} // verus!
