//! Character classification and conversions between `str`, `String`
//! and character vectors, shared by the parser, matcher and exporter.
use vstd::prelude::*;

verus! {

/// The Unicode `White_Space` property.
pub open spec fn is_ws_spec(c: char) -> bool {
    ||| ('\u{9}' <= c && c <= '\u{d}')
    ||| c == ' '
    ||| c == '\u{85}'
    ||| c == '\u{a0}'
    ||| c == '\u{1680}'
    ||| ('\u{2000}' <= c && c <= '\u{200a}')
    ||| c == '\u{2028}'
    ||| c == '\u{2029}'
    ||| c == '\u{202f}'
    ||| c == '\u{205f}'
    ||| c == '\u{3000}'
}

/// Whether `c` has the Unicode `White_Space` property.
pub fn is_ws(c: char) -> (r: bool)
    ensures
        r == is_ws_spec(c),
{
    ('\u{9}' <= c && c <= '\u{d}') || c == ' ' || c == '\u{85}' || c == '\u{a0}' || c == '\u{1680}'
        || ('\u{2000}' <= c && c <= '\u{200a}') || c == '\u{2028}' || c == '\u{2029}' || c
        == '\u{202f}' || c == '\u{205f}' || c == '\u{3000}'
}

pub open spec fn is_digit_spec(c: char) -> bool {
    '0' <= c && c <= '9'
}

pub fn is_digit(c: char) -> (r: bool)
    ensures
        r == is_digit_spec(c),
{
    '0' <= c && c <= '9'
}

pub open spec fn is_lower_spec(c: char) -> bool {
    'a' <= c && c <= 'z'
}

pub fn is_lower(c: char) -> (r: bool)
    ensures
        r == is_lower_spec(c),
{
    'a' <= c && c <= 'z'
}

pub open spec fn is_alpha_spec(c: char) -> bool {
    ('a' <= c && c <= 'z') || ('A' <= c && c <= 'Z')
}

pub fn is_alpha(c: char) -> (r: bool)
    ensures
        r == is_alpha_spec(c),
{
    ('a' <= c && c <= 'z') || ('A' <= c && c <= 'Z')
}

/// Number of bytes in the UTF-8 encoding of `c`.
pub open spec fn utf8_width_spec(c: char) -> nat {
    if (c as u32) < 0x80 {
        1
    } else if (c as u32) < 0x800 {
        2
    } else if (c as u32) < 0x10000 {
        3
    } else {
        4
    }
}

pub fn utf8_width(c: char) -> (r: usize)
    ensures
        r == utf8_width_spec(c),
        1 <= r <= 4,
{
    let v = c as u32;
    if v < 0x80 {
        1
    } else if v < 0x800 {
        2
    } else if v < 0x10000 {
        3
    } else {
        4
    }
}

/// Number of UTF-8 bytes needed for the first `n` characters of `s`.
pub open spec fn utf8_prefix(s: Seq<char>, n: int) -> nat
    decreases n,
{
    if n <= 0 || s.len() == 0 {
        0
    } else if n > s.len() {
        utf8_prefix(s, s.len() as int)
    } else {
        utf8_prefix(s, n - 1) + utf8_width_spec(s[n - 1])
    }
}

pub open spec fn utf8_len(s: Seq<char>) -> nat {
    utf8_prefix(s, s.len() as int)
}

pub proof fn lemma_utf8_prefix_mono(s: Seq<char>, i: int, j: int)
    requires
        0 <= i <= j <= s.len(),
    ensures
        utf8_prefix(s, i) <= utf8_prefix(s, j),
    decreases j - i,
{
    if i < j {
        lemma_utf8_prefix_mono(s, i, j - 1);
    }
}

/// Appends the characters `start..end` of `chars` to `text`.
pub fn append_range(text: &mut Vec<char>, chars: &[char], start: usize, end: usize)
    requires
        start <= end <= chars@.len(),
    ensures
        final(text)@ == old(text)@ + chars@.subrange(start as int, end as int),
{
    let ghost before = text@;
    let mut k = start;
    while k < end
        invariant
            start <= k <= end <= chars@.len(),
            text@ == before + chars@.subrange(start as int, k as int),
        decreases end - k,
    {
        text.push(chars[k]);
        k = k + 1;
        assert(chars@.subrange(start as int, k as int) =~= chars@.subrange(start as int, k - 1) + seq![chars@[k - 1]]);
    }
}

/// Whether two character slices hold the same characters.
pub fn chars_equal(a: &[char], b: &[char]) -> (r: bool)
    ensures
        r == (a@ == b@),
{
    if a.len() != b.len() {
        return false;
    }
    let mut k: usize = 0;
    while k < a.len()
        invariant
            a@.len() == b@.len(),
            k <= a@.len(),
            forall|t: int| 0 <= t < k ==> a@[t] == b@[t],
        decreases a@.len() - k,
    {
        if a[k] != b[k] {
            return false;
        }
        k = k + 1;
    }
    assert(a@ =~= b@);
    true
}

/// Whether two strings are equal.
pub fn same_str(a: &str, b: &str) -> (r: bool)
    ensures
        r == (a@ == b@),
{
    chars_equal(chars_of(a).as_slice(), chars_of(b).as_slice())
}

/// The characters of a string slice.
#[verifier::external_body]
pub(crate) fn chars_of(s: &str) -> (r: Vec<char>)
    ensures
        r@ == s@,
        utf8_len(r@) <= usize::MAX,
{
    s.chars().collect()
}

/// A string holding exactly the given characters.
#[verifier::external_body]
pub(crate) fn string_of(chars: &[char]) -> (r: String)
    ensures
        r@ == chars@,
{
    chars.iter().collect()
}

/// The characters of `chars` from `start` up to `end`, as a string.
pub fn string_of_range(chars: &[char], start: usize, end: usize) -> (r: String)
    requires
        start <= end <= chars@.len(),
    ensures
        r@ == chars@.subrange(start as int, end as int),
{
    let mut piece: Vec<char> = Vec::new();
    let mut i = start;
    while i < end
        invariant
            start <= i <= end <= chars@.len(),
            piece@ == chars@.subrange(start as int, i as int),
        decreases end - i,
    {
        piece.push(chars[i]);
        i = i + 1;
    }
    string_of(piece.as_slice())
}

/// Byte offset of every character boundary: entry `i` is the number of
/// UTF-8 bytes before character `i`; the last entry is the total length.
pub fn byte_offsets(chars: &[char]) -> (r: Vec<usize>)
    requires
        utf8_len(chars@) <= usize::MAX,
    ensures
        r@.len() == chars@.len() + 1,
        forall|i: int| 0 <= i <= chars@.len() ==> r@[i] == utf8_prefix(chars@, i),
{
    let mut r: Vec<usize> = Vec::new();
    let mut total: usize = 0;
    r.push(0);
    let mut i: usize = 0;
    while i < chars.len()
        invariant
            i <= chars@.len(),
            r@.len() == i + 1,
            total == utf8_prefix(chars@, i as int),
            utf8_len(chars@) <= usize::MAX,
            forall|k: int| 0 <= k <= i ==> r@[k] == utf8_prefix(chars@, k),
        decreases chars@.len() - i,
    {
        proof {
            lemma_utf8_prefix_mono(chars@, i + 1, chars@.len() as int);
        }
        let w = utf8_width(chars[i]);
        total = total + w;
        i = i + 1;
        r.push(total);
    }
    r
}

/// Whether `pattern` occurs in `chars` at position `pos`, without
/// reaching past `limit`.
pub open spec fn occurs_at(chars: Seq<char>, pos: int, limit: int, pattern: Seq<char>) -> bool {
    &&& 0 <= pos
    &&& pos + pattern.len() <= limit
    &&& limit <= chars.len()
    &&& chars.subrange(pos, pos + pattern.len()) == pattern
}

pub fn starts_with_at(chars: &[char], pos: usize, limit: usize, pattern: &[char]) -> (r: bool)
    requires
        limit <= chars@.len(),
    ensures
        r == occurs_at(chars@, pos as int, limit as int, pattern@),
{
    if pos > limit || pattern.len() > limit - pos {
        return false;
    }
    let mut k: usize = 0;
    while k < pattern.len()
        invariant
            pos + pattern@.len() <= limit <= chars@.len(),
            k <= pattern@.len(),
            forall|j: int| 0 <= j < k ==> chars@[pos + j] == pattern@[j],
        decreases pattern@.len() - k,
    {
        if chars[pos + k] != pattern[k] {
            assert(chars@.subrange(pos as int, pos + pattern@.len())[k as int] != pattern@[k as int]);
            return false;
        }
        k = k + 1;
    }
    assert(chars@.subrange(pos as int, pos + pattern@.len()) =~= pattern@);
    true
}


/// `s` without its leading whitespace.
pub open spec fn trim_start_spec(s: Seq<char>) -> Seq<char>
    decreases s.len(),
{
    if s.len() > 0 && is_ws_spec(s[0]) {
        trim_start_spec(s.drop_first())
    } else {
        s
    }
}

/// `s` without its trailing whitespace.
pub open spec fn trim_end_spec(s: Seq<char>) -> Seq<char>
    decreases s.len(),
{
    if s.len() > 0 && is_ws_spec(s.last()) {
        trim_end_spec(s.drop_last())
    } else {
        s
    }
}

/// `s` without surrounding whitespace.
pub open spec fn trim_spec(s: Seq<char>) -> Seq<char> {
    trim_end_spec(trim_start_spec(s))
}

/// The characters of `s` without surrounding whitespace.
pub fn trim(s: &[char]) -> (r: Vec<char>)
    ensures
        r@ == trim_spec(s@),
{
    let mut lo: usize = 0;
    assert(s@.subrange(0, s@.len() as int) =~= s@);
    while lo < s.len() && is_ws(s[lo])
        invariant
            lo <= s@.len(),
            trim_start_spec(s@.subrange(lo as int, s@.len() as int)) == trim_start_spec(s@),
        decreases s@.len() - lo,
    {
        assert(s@.subrange(lo as int, s@.len() as int).drop_first() =~= s@.subrange(lo + 1, s@.len() as int));
        lo = lo + 1;
    }
    assert(s@.subrange(0, s@.len() as int) =~= s@);
    let ghost front = s@.subrange(lo as int, s@.len() as int);
    assert(trim_start_spec(front) == front);
    let mut hi: usize = s.len();
    while hi > lo && is_ws(s[hi - 1])
        invariant
            lo <= hi <= s@.len(),
            front == s@.subrange(lo as int, s@.len() as int),
            trim_end_spec(s@.subrange(lo as int, hi as int)) == trim_end_spec(front),
        decreases hi,
    {
        assert(s@.subrange(lo as int, hi as int).drop_last() =~= s@.subrange(lo as int, hi - 1));
        hi = hi - 1;
    }
    let mut r: Vec<char> = Vec::new();
    let mut k = lo;
    while k < hi
        invariant
            lo <= k <= hi <= s@.len(),
            r@ == s@.subrange(lo as int, k as int),
        decreases hi - k,
    {
        r.push(s[k]);
        k = k + 1;
    }
    r
}

} // verus!
