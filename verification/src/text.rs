//! Character sequences: the model of every text the library reads or writes.
//!
//! Positions are character indices into a `Seq<char>`; where the library
//! speaks of byte offsets it means offsets into the UTF-8 encoding, given by
//! `utf8_len`.
use vstd::prelude::*;
use vstd::utf8::*;

verus! {

broadcast use vstd::seq_lib::group_seq_properties;

// ---------------------------------------------------------------------------
// Character classes
// ---------------------------------------------------------------------------

/// Unicode `White_Space`, the property that `char::is_whitespace` tests.
pub open spec fn is_ws(c: char) -> bool {
    ||| ('\u{9}' <= c && c <= '\u{d}')
    ||| c == ' '
    ||| c == '\u{85}'
    ||| c == '\u{a0}'
    ||| c == '\u{1680}'
    ||| ('\u{2000}' <= c && c <= '\u{200a}')
    ||| c == '\u{2028}'
    ||| c == '\u{2029}'
    ||| c == '\u{202f}'
    ||| c == '\u{205f}'
    ||| c == '\u{3000}'
}

pub open spec fn is_alpha(c: char) -> bool {
    ('a' <= c && c <= 'z') || ('A' <= c && c <= 'Z')
}

pub open spec fn is_upper(c: char) -> bool {
    'A' <= c && c <= 'Z'
}

pub open spec fn is_digit(c: char) -> bool {
    '0' <= c && c <= '9'
}

pub fn whitespace(c: char) -> (b: bool)
    ensures
        b == is_ws(c),
{
    ('\u{9}' <= c && c <= '\u{d}') || c == ' ' || c == '\u{85}' || c == '\u{a0}' || c
        == '\u{1680}' || ('\u{2000}' <= c && c <= '\u{200a}') || c == '\u{2028}' || c
        == '\u{2029}' || c == '\u{202f}' || c == '\u{205f}' || c == '\u{3000}'
}

pub fn alphabetic(c: char) -> (b: bool)
    ensures
        b == is_alpha(c),
{
    ('a' <= c && c <= 'z') || ('A' <= c && c <= 'Z')
}

pub fn uppercase(c: char) -> (b: bool)
    ensures
        b == is_upper(c),
{
    'A' <= c && c <= 'Z'
}

pub fn digit(c: char) -> (b: bool)
    ensures
        b == is_digit(c),
{
    '0' <= c && c <= '9'
}

// ---------------------------------------------------------------------------
// Searching
// ---------------------------------------------------------------------------

/// `needle` occurs in `s` at character index `at`.
pub open spec fn starts_at(s: Seq<char>, at: int, needle: Seq<char>) -> bool {
    &&& 0 <= at
    &&& at + needle.len() <= s.len()
    &&& s.subrange(at, at + needle.len()) == needle
}

/// The first index at or after `at` where `needle` occurs.
pub open spec fn find_from(s: Seq<char>, at: int, needle: Seq<char>) -> Option<int>
    decreases s.len() + 1 - at,
{
    if at < 0 || at + needle.len() > s.len() {
        None
    } else if starts_at(s, at, needle) {
        Some(at)
    } else {
        find_from(s, at + 1, needle)
    }
}

pub open spec fn contains(s: Seq<char>, needle: Seq<char>) -> bool {
    find_from(s, 0, needle) is Some
}

/// The first index at or after `at` that does not hold whitespace.
pub open spec fn skip_ws(s: Seq<char>, at: int) -> int
    decreases s.len() - at,
{
    if at < s.len() && at >= 0 && is_ws(s[at]) {
        skip_ws(s, at + 1)
    } else {
        at
    }
}

pub proof fn lemma_starts_at(s: Seq<char>, at: int, needle: Seq<char>)
    requires
        starts_at(s, at, needle),
    ensures
        forall|k: int| 0 <= k < needle.len() ==> s[at + k] == #[trigger] needle[k],
        needle.len() > 0 ==> s[at] == needle[0],
{
    assert forall|k: int| 0 <= k < needle.len() implies s[at + k] == needle[k] by {
        assert(s.subrange(at, at + needle.len())[k] == s[at + k]);
    }
}

pub proof fn lemma_find_from_bounds(s: Seq<char>, at: int, needle: Seq<char>)
    requires
        0 <= at,
    ensures
        find_from(s, at, needle) matches Some(p) ==> at <= p && starts_at(s, p, needle)
            && forall|q: int| at <= q < p ==> !starts_at(s, q, needle),
        find_from(s, at, needle) is None ==> forall|q: int|
            at <= q && 0 <= q ==> !starts_at(s, q, needle),
    decreases s.len() + 1 - at,
{
    if at < 0 || at + needle.len() > s.len() {
    } else if starts_at(s, at, needle) {
    } else {
        lemma_find_from_bounds(s, at + 1, needle);
    }
}

pub proof fn lemma_skip_ws(s: Seq<char>, at: int)
    requires
        0 <= at <= s.len(),
    ensures
        at <= skip_ws(s, at) <= s.len(),
        forall|q: int| at <= q < skip_ws(s, at) ==> is_ws(s[q]),
        skip_ws(s, at) < s.len() ==> !is_ws(s[skip_ws(s, at)]),
    decreases s.len() - at,
{
    if at < s.len() && is_ws(s[at]) {
        lemma_skip_ws(s, at + 1);
    }
}

/// Whether `needle` occurs in `s` at `at`.
pub fn starts_str(s: &[char], at: usize, needle: &str) -> (b: bool)
    ensures
        b == starts_at(s@, at as int, needle@),
{
    let nv = chars_of(needle);
    starts_chars(s, at, &nv)
}

/// Whether `needle` occurs in `s` at `at`.
pub fn starts_chars(s: &[char], at: usize, needle: &[char]) -> (b: bool)
    ensures
        b == starts_at(s@, at as int, needle@),
{
    let n = needle.len();
    if at > s.len() || n > s.len() - at {
        return false;
    }
    let mut k: usize = 0;
    while k < n
        invariant
            k <= n,
            n == needle@.len(),
            at + n <= s@.len(),
            s@.len() == s.len(),
            forall|j: int| 0 <= j < k ==> s@[at + j] == needle@[j],
        decreases n - k,
    {
        if s[at + k] != needle[k] {
            assert(s@.subrange(at as int, at + n)[k as int] != needle@[k as int]);
            return false;
        }
        k += 1;
    }
    assert(s@.subrange(at as int, at + n) =~= needle@);
    true
}

/// The first index at or after `at` where `needle` occurs.
pub fn find_str(s: &[char], at: usize, needle: &str) -> (r: Option<usize>)
    ensures
        r matches Some(p) ==> find_from(s@, at as int, needle@) == Some(p as int),
        r is None ==> find_from(s@, at as int, needle@) is None,
{
    let nv = chars_of(needle);
    find_chars(s, at, &nv)
}

/// The first index at or after `at` where `needle` occurs.
pub fn find_chars(s: &[char], at: usize, needle: &[char]) -> (r: Option<usize>)
    ensures
        r matches Some(p) ==> find_from(s@, at as int, needle@) == Some(p as int),
        r is None ==> find_from(s@, at as int, needle@) is None,
{
    if at > s.len() {
        return None;
    }
    let mut p = at;
    loop
        invariant
            at <= p <= s@.len(),
            find_from(s@, at as int, needle@) == find_from(s@, p as int, needle@),
        decreases s@.len() - p,
    {
        if starts_chars(s, p, needle) {
            return Some(p);
        }
        if p == s.len() {
            assert(needle@.len() > 0) by {
                if needle@.len() == 0 {
                    assert(s@.subrange(p as int, p as int) =~= needle@);
                }
            }
            return None;
        }
        p += 1;
    }
}

/// Whether `needle` occurs anywhere in `s`.
pub fn contains_str(s: &[char], needle: &str) -> (b: bool)
    ensures
        b == contains(s@, needle@),
{
    find_str(s, 0, needle).is_some()
}

/// The first index at or after `at` that does not hold whitespace.
pub fn skip_whitespace(s: &[char], at: usize) -> (r: usize)
    requires
        at <= s@.len(),
    ensures
        r == skip_ws(s@, at as int),
        at <= r <= s@.len(),
{
    let mut p = at;
    while p < s.len() && whitespace(s[p])
        invariant
            at <= p <= s@.len(),
            skip_ws(s@, at as int) == skip_ws(s@, p as int),
        decreases s@.len() - p,
    {
        p += 1;
    }
    p
}

// ---------------------------------------------------------------------------
// Building
// ---------------------------------------------------------------------------

/// The characters of a string slice, in order.
pub fn chars_of(s: &str) -> (v: Vec<char>)
    ensures
        v@ == s@,
{
    let mut v: Vec<char> = Vec::new();
    for c in it: s.chars()
        invariant
            v@ == it.seq().take(it.index() as int),
    {
        v.push(c);
    }
    v
}

/// `String::push` appends one character to the end of the string.
pub assume_specification[ String::push ](s: &mut String, ch: char)
    ensures
        final(s)@ == old(s)@.push(ch),
;

/// A string holding exactly the given characters.
pub fn string_from(v: &[char]) -> (s: String)
    ensures
        s@ == v@,
{
    let mut s = String::new();
    let mut i: usize = 0;
    while i < v.len()
        invariant
            i <= v@.len(),
            s@ == v@.take(i as int),
        decreases v@.len() - i,
    {
        s.push(v[i]);
        i += 1;
        assert(v@.take(i as int) == v@.take((i - 1) as int).push(v@[i - 1]));
    }
    assert(v@.take(i as int) == v@);
    s
}

/// A string holding `v[from..to]`.
pub fn string_range(v: &[char], from: usize, to: usize) -> (s: String)
    requires
        from <= to <= v@.len(),
    ensures
        s@ == v@.subrange(from as int, to as int),
{
    let mut s = String::new();
    let mut i: usize = from;
    while i < to
        invariant
            from <= i <= to <= v@.len(),
            s@ == v@.subrange(from as int, i as int),
        decreases to - i,
    {
        s.push(v[i]);
        i += 1;
        assert(v@.subrange(from as int, i as int) == v@.subrange(from as int, i - 1).push(
            v@[i - 1],
        ));
    }
    s
}

/// Appends the characters of a string slice.
pub fn push_str(out: &mut Vec<char>, lit: &str)
    ensures
        final(out)@ == old(out)@ + lit@,
{
    let ghost start = out@;
    for c in it: lit.chars()
        invariant
            it.seq() == lit@,
            out@ == start + lit@.take(it.index() as int),
    {
        out.push(c);
        assert(lit@.take(it.index() + 1) == lit@.take(it.index() as int).push(c));
    }
    assert(lit@.take(lit@.len() as int) == lit@);
}

/// Appends `src[from..to]`.
pub fn push_range(out: &mut Vec<char>, src: &[char], from: usize, to: usize)
    requires
        from <= to <= src@.len(),
    ensures
        final(out)@ == old(out)@ + src@.subrange(from as int, to as int),
{
    let ghost start = out@;
    let mut i = from;
    while i < to
        invariant
            from <= i <= to <= src@.len(),
            out@ == start + src@.subrange(from as int, i as int),
        decreases to - i,
    {
        out.push(src[i]);
        i += 1;
        assert(src@.subrange(from as int, i as int) == src@.subrange(from as int, i - 1).push(
            src@[i - 1],
        ));
    }
}

/// Whether two character sequences are equal.
pub fn chars_eq(a: &[char], b: &[char]) -> (r: bool)
    ensures
        r == (a@ == b@),
{
    if a.len() != b.len() {
        return false;
    }
    let mut i: usize = 0;
    while i < a.len()
        invariant
            a@.len() == b@.len(),
            i <= a@.len(),
            forall|j: int| 0 <= j < i ==> a@[j] == b@[j],
        decreases a@.len() - i,
    {
        if a[i] != b[i] {
            return false;
        }
        i += 1;
    }
    assert(a@ =~= b@);
    true
}

/// Whether `a[from..to]` equals `b`.
pub fn range_eq(a: &[char], from: usize, to: usize, b: &[char]) -> (r: bool)
    requires
        from <= to <= a@.len(),
    ensures
        r == (a@.subrange(from as int, to as int) == b@),
{
    if to - from != b.len() {
        return false;
    }
    let mut i: usize = 0;
    while i < b.len()
        invariant
            from <= to <= a@.len(),
            to - from == b@.len(),
            i <= b@.len(),
            forall|j: int| 0 <= j < i ==> a@[from + j] == b@[j],
        decreases b@.len() - i,
    {
        if a[from + i] != b[i] {
            assert(a@.subrange(from as int, to as int)[i as int] != b@[i as int]);
            return false;
        }
        i += 1;
    }
    assert(a@.subrange(from as int, to as int) =~= b@);
    true
}

/// Whether a character sequence equals a string slice.
pub fn chars_eq_str(a: &[char], lit: &str) -> (r: bool)
    ensures
        r == (a@ == lit@),
{
    a.len() == lit.unicode_len() && starts_str(a, 0, lit) && {
        assert(a@.subrange(0, a@.len() as int) =~= a@);
        true
    }
}

// ---------------------------------------------------------------------------
// Decimal numerals and UTF-8 widths
// ---------------------------------------------------------------------------

/// The decimal numeral of `n`, without leading zeros.
pub open spec fn decimal(n: nat) -> Seq<char>
    decreases n,
{
    if n < 10 {
        seq![digit_char(n)]
    } else {
        decimal(n / 10).push(digit_char(n % 10))
    }
}

pub open spec fn digit_char(d: nat) -> char {
    if d == 0 { '0' }
    else if d == 1 { '1' }
    else if d == 2 { '2' }
    else if d == 3 { '3' }
    else if d == 4 { '4' }
    else if d == 5 { '5' }
    else if d == 6 { '6' }
    else if d == 7 { '7' }
    else if d == 8 { '8' }
    else { '9' }
}

fn digit_of(d: usize) -> (c: char)
    requires
        d < 10,
    ensures
        c == digit_char(d as nat),
{
    if d == 0 { '0' }
    else if d == 1 { '1' }
    else if d == 2 { '2' }
    else if d == 3 { '3' }
    else if d == 4 { '4' }
    else if d == 5 { '5' }
    else if d == 6 { '6' }
    else if d == 7 { '7' }
    else if d == 8 { '8' }
    else { '9' }
}

/// Appends the decimal numeral of `n`.
pub fn push_decimal(out: &mut Vec<char>, n: usize)
    ensures
        final(out)@ == old(out)@ + decimal(n as nat),
    decreases n,
{
    if n < 10 {
        out.push(digit_of(n));
        assert(decimal(n as nat) == seq![digit_char(n as nat)]);
    } else {
        push_decimal(out, n / 10);
        out.push(digit_of(n % 10));
    }
}

/// Appends the decimal numeral of `n`.
pub fn push_decimal_u64(out: &mut Vec<char>, n: u64)
    ensures
        final(out)@ == old(out)@ + decimal(n as nat),
    decreases n,
{
    if n < 10 {
        out.push(digit_of(n as usize));
        assert(decimal(n as nat) == seq![digit_char(n as nat)]);
    } else {
        push_decimal_u64(out, n / 10);
        out.push(digit_of((n % 10) as usize));
    }
}

/// Appends the decimal numeral of `n`.
pub fn push_decimal_u128(out: &mut Vec<char>, n: u128)
    ensures
        final(out)@ == old(out)@ + decimal(n as nat),
    decreases n,
{
    if n < 10 {
        out.push(digit_of(n as usize));
        assert(decimal(n as nat) == seq![digit_char(n as nat)]);
    } else {
        push_decimal_u128(out, n / 10);
        out.push(digit_of((n % 10) as usize));
    }
}

/// The decimal numeral of an integer, with a `-` before a negative one.
pub open spec fn signed_decimal(n: int) -> Seq<char> {
    if n < 0 {
        seq!['-'] + decimal((-n) as nat)
    } else {
        decimal(n as nat)
    }
}

/// Appends the decimal numeral of `n`, with a `-` before a negative one.
pub fn push_signed_decimal(out: &mut Vec<char>, n: i64)
    ensures
        final(out)@ == old(out)@ + signed_decimal(n as int),
{
    let ghost start = out@;
    if n < 0 {
        out.push('-');
        let magnitude: u64 = if n == i64::MIN {
            9223372036854775808u64
        } else {
            (-n) as u64
        };
        push_decimal_u64(out, magnitude);
        assert(out@ =~= start + signed_decimal(n as int));
    } else {
        push_decimal_u64(out, n as u64);
    }
}

/// Number of bytes in the UTF-8 encoding of `s`.
pub open spec fn utf8_len(s: Seq<char>) -> nat {
    encode_utf8(s).len()
}

/// Number of bytes in the UTF-8 encoding of one character.
pub open spec fn char_utf8_len(c: char) -> nat {
    encode_scalar(c as u32).len()
}

pub proof fn lemma_encode_concat(a: Seq<char>, b: Seq<char>)
    ensures
        encode_utf8(a + b) == encode_utf8(a) + encode_utf8(b),
    decreases a.len(),
{
    if a.len() == 0 {
        assert(a + b == b);
    } else {
        assert((a + b).drop_first() == a.drop_first() + b);
        lemma_encode_concat(a.drop_first(), b);
    }
}

pub proof fn lemma_utf8_len_concat(a: Seq<char>, b: Seq<char>)
    ensures
        utf8_len(a + b) == utf8_len(a) + utf8_len(b),
{
    lemma_encode_concat(a, b);
}

pub proof fn lemma_utf8_len_push(a: Seq<char>, c: char)
    ensures
        utf8_len(a.push(c)) == utf8_len(a) + char_utf8_len(c),
{
    lemma_encode_concat(a, seq![c]);
    assert(a.push(c) == a + seq![c]);
    assert(seq![c].drop_first() =~= Seq::<char>::empty());
    assert(encode_utf8(Seq::<char>::empty()) =~= Seq::<u8>::empty());
    assert(encode_utf8(seq![c]) =~= encode_scalar(c as u32));
}

pub proof fn lemma_utf8_len_monotone(s: Seq<char>, i: int, j: int)
    requires
        0 <= i <= j <= s.len(),
    ensures
        utf8_len(s.take(i)) <= utf8_len(s.take(j)),
{
    assert(s.take(j) == s.take(i) + s.subrange(i, j));
    lemma_utf8_len_concat(s.take(i), s.subrange(i, j));
}

/// Number of bytes that `c` takes in UTF-8.
pub fn utf8_width(c: char) -> (w: usize)
    ensures
        w == char_utf8_len(c),
        1 <= w <= 4,
{
    let v = c as u32;
    if v <= 0x7f {
        1
    } else if v <= 0x7ff {
        2
    } else if v <= 0xffff {
        proof {
            char_is_scalar(c);
        }
        3
    } else {
        proof {
            char_is_scalar(c);
        }
        4
    }
}

} // verus!
