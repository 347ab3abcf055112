//! Character classes, spans, literals and numerals of the strace output format.
use vstd::prelude::*;

verus! {

/// The character classes that the strace grammar scans over.
#[derive(Clone, Copy, PartialEq, Eq, Debug)]
pub enum CharClass {
    /// `' '` or `'\t'`.
    Space,
    /// `' '`, `'\t'`, `'\r'` or `'\n'`.
    MultiSpace,
    /// `'0'..='9'`.
    Dec,
    /// `'0'..='7'`.
    Oct,
    /// `'0'..='9'`, `'a'..='f'`, `'A'..='F'`.
    Hex,
    /// ASCII letters, digits and `'_'`.
    IdentChar,
    /// Unicode upper-case letters.
    Upper,
    /// Unicode alphanumerics and `'_'`.
    FlagChar,
    /// Anything but `')'`.
    NotCloseParen,
}

/// What `char::is_uppercase` returns for `c`.
pub uninterp spec fn char_is_uppercase(c: char) -> bool;

/// What `char::is_alphanumeric` returns for `c`.
pub uninterp spec fn char_is_alphanumeric(c: char) -> bool;

/// Calls `char::is_uppercase`, Unicode's `Uppercase` property; its result is
/// named by `char_is_uppercase`. Among ASCII characters the property holds of
/// `'A'..='Z'` alone; beyond ASCII nothing more is stated.
#[verifier::external_body]
fn is_uppercase(c: char) -> (b: bool)
    ensures
        b == char_is_uppercase(c),
        (c as u32) < 128 ==> (b <==> ('A' <= c && c <= 'Z')),
{
    c.is_uppercase()
}

/// Calls `char::is_alphanumeric`, Unicode's `Alphabetic` or `Numeric`; its
/// result is named by `char_is_alphanumeric`. Among ASCII characters it holds
/// of the letters and the digits alone; beyond ASCII nothing more is stated.
#[verifier::external_body]
fn is_alphanumeric(c: char) -> (b: bool)
    ensures
        b == char_is_alphanumeric(c),
        (c as u32) < 128 ==> (b <==> (is_ascii_alpha(c) || is_dec(c))),
{
    c.is_alphanumeric()
}

pub open spec fn is_ascii_alpha(c: char) -> bool {
    ('A' <= c && c <= 'Z') || ('a' <= c && c <= 'z')
}

pub open spec fn is_dec(c: char) -> bool {
    '0' <= c && c <= '9'
}

pub open spec fn is_oct(c: char) -> bool {
    '0' <= c && c <= '7'
}

pub open spec fn is_hex(c: char) -> bool {
    is_dec(c) || ('a' <= c && c <= 'f') || ('A' <= c && c <= 'F')
}

pub open spec fn is_ident_start(c: char) -> bool {
    is_ascii_alpha(c) || c == '_'
}

pub open spec fn in_class(cls: CharClass, c: char) -> bool {
    match cls {
        CharClass::Space => c == ' ' || c == '\t',
        CharClass::MultiSpace => c == ' ' || c == '\t' || c == '\r' || c == '\n',
        CharClass::Dec => is_dec(c),
        CharClass::Oct => is_oct(c),
        CharClass::Hex => is_hex(c),
        CharClass::IdentChar => is_ascii_alpha(c) || is_dec(c) || c == '_',
        CharClass::Upper => upper_char(c),
        CharClass::FlagChar => alnum_char(c) || c == '_',
        CharClass::NotCloseParen => c != ')',
    }
}

/// Whether `c` is upper-case as `char::is_uppercase` says: among ASCII
/// characters, `'A'..='Z'`.
pub open spec fn upper_char(c: char) -> bool {
    if (c as u32) < 128 {
        'A' <= c && c <= 'Z'
    } else {
        char_is_uppercase(c)
    }
}

/// Whether `c` is alphanumeric as `char::is_alphanumeric` says: among ASCII
/// characters, the letters and the digits.
pub open spec fn alnum_char(c: char) -> bool {
    if (c as u32) < 128 {
        is_ascii_alpha(c) || is_dec(c)
    } else {
        char_is_alphanumeric(c)
    }
}

/// The end of the longest run of `cls` characters of `s` that starts at `i`.
pub open spec fn span(s: Seq<char>, i: int, cls: CharClass) -> int
    decreases s.len() - i,
{
    if 0 <= i < s.len() && in_class(cls, s[i]) {
        span(s, i + 1, cls)
    } else {
        i
    }
}

pub proof fn lemma_span(s: Seq<char>, i: int, cls: CharClass)
    requires
        0 <= i <= s.len(),
    ensures
        i <= span(s, i, cls) <= s.len(),
        forall|k: int| i <= k < span(s, i, cls) ==> in_class(cls, #[trigger] s[k]),
        span(s, i, cls) < s.len() ==> !in_class(cls, s[span(s, i, cls)]),
    decreases s.len() - i,
{
    if i < s.len() && in_class(cls, s[i]) {
        lemma_span(s, i + 1, cls);
    }
}

pub fn char_in_class(cls: CharClass, c: char) -> (b: bool)
    ensures
        b == in_class(cls, c),
{
    match cls {
        CharClass::Space => c == ' ' || c == '\t',
        CharClass::MultiSpace => c == ' ' || c == '\t' || c == '\r' || c == '\n',
        CharClass::Dec => '0' <= c && c <= '9',
        CharClass::Oct => '0' <= c && c <= '7',
        CharClass::Hex => ('0' <= c && c <= '9') || ('a' <= c && c <= 'f') || ('A' <= c && c
            <= 'F'),
        CharClass::IdentChar => ('A' <= c && c <= 'Z') || ('a' <= c && c <= 'z') || ('0' <= c
            && c <= '9') || c == '_',
        CharClass::Upper => is_uppercase(c),
        CharClass::FlagChar => is_alphanumeric(c) || c == '_',
        CharClass::NotCloseParen => c != ')',
    }
}

/// Scans the run of `cls` characters that starts at `i`.
pub fn scan(cs: &[char], i: usize, cls: CharClass) -> (j: usize)
    requires
        i <= cs@.len(),
    ensures
        j == span(cs@, i as int, cls),
        i <= j <= cs@.len(),
{
    let mut j = i;
    while j < cs.len() && char_in_class(cls, cs[j])
        invariant
            i <= j <= cs@.len(),
            span(cs@, j as int, cls) == span(cs@, i as int, cls),
        decreases cs@.len() - j,
    {
        j = j + 1;
    }
    j
}

/// `s` holds `t` at position `i`.
pub open spec fn lit(s: Seq<char>, i: int, t: Seq<char>) -> bool {
    0 <= i && i + t.len() <= s.len() && s.subrange(i, i + t.len()) == t
}

/// `s` holds the character `c` at position `i`.
pub open spec fn ch(s: Seq<char>, i: int, c: char) -> bool {
    0 <= i < s.len() && s[i] == c
}

pub fn has_char(cs: &[char], i: usize, c: char) -> (b: bool)
    ensures
        b == ch(cs@, i as int, c),
{
    i < cs.len() && cs[i] == c
}

pub fn has_lit(cs: &[char], i: usize, t: &str) -> (b: bool)
    ensures
        b == lit(cs@, i as int, t@),
{
    let n = t.unicode_len();
    if i > cs.len() || n > cs.len() - i {
        return false;
    }
    let len = cs.len();
    let mut k: usize = 0;
    while k < n
        invariant
            n == t@.len(),
            len == cs@.len(),
            i + n <= len,
            k <= n,
            forall|m: int| 0 <= m < k ==> cs@[i + m] == t@[m],
        decreases n - k,
    {
        if cs[i + k] != t.get_char(k) {
            assert(cs@.subrange(i as int, i + n)[k as int] != t@[k as int]);
            return false;
        }
        k = k + 1;
    }
    assert(cs@.subrange(i as int, i + n) =~= t@);
    true
}

/// The first position at or after `i` where `s` holds `t`.
pub open spec fn find_from(s: Seq<char>, i: int, t: Seq<char>) -> Option<int>
    decreases s.len() + 1 - i,
{
    if i < 0 || i + t.len() > s.len() {
        None
    } else if lit(s, i, t) {
        Some(i)
    } else {
        find_from(s, i + 1, t)
    }
}

pub proof fn lemma_find_from(s: Seq<char>, i: int, t: Seq<char>)
    requires
        0 <= i,
    ensures
        find_from(s, i, t) matches Some(k) ==> i <= k && k + t.len() <= s.len() && lit(s, k, t),
    decreases s.len() + 1 - i,
{
    if i + t.len() <= s.len() && !lit(s, i, t) {
        lemma_find_from(s, i + 1, t);
    }
}

pub fn find_lit(cs: &[char], i: usize, t: &str) -> (r: Option<usize>)
    requires
        i <= cs@.len(),
    ensures
        r matches Some(k) ==> find_from(cs@, i as int, t@) == Some(k as int),
        r is None ==> find_from(cs@, i as int, t@) is None,
{
    let n = t.unicode_len();
    if n == 0 {
        assert(cs@.subrange(i as int, i as int) =~= t@);
        return Some(i);
    }
    let mut k = i;
    while k < cs.len() && n <= cs.len() - k
        invariant
            i <= k <= cs@.len(),
            n == t@.len(),
            n > 0,
            find_from(cs@, k as int, t@) == find_from(cs@, i as int, t@),
        decreases cs@.len() - k,
    {
        if has_lit(cs, k, t) {
            return Some(k);
        }
        k = k + 1;
    }
    None
}

/// The digit that `c` stands for, in any base up to sixteen.
pub open spec fn digit_of(c: char) -> nat {
    if '0' <= c && c <= '9' {
        (c as nat - '0' as nat) as nat
    } else if 'a' <= c && c <= 'f' {
        (c as nat - 'a' as nat + 10) as nat
    } else if 'A' <= c && c <= 'F' {
        (c as nat - 'A' as nat + 10) as nat
    } else {
        0
    }
}

/// The number that the digits `d` spell in base `base`, most significant first.
pub open spec fn digits_value(d: Seq<char>, base: nat) -> nat
    decreases d.len(),
{
    if d.len() == 0 {
        0
    } else {
        digits_value(d.drop_last(), base) * base + digit_of(d.last())
    }
}

pub proof fn lemma_digits_step(d: Seq<char>, k: int, base: nat)
    requires
        0 <= k < d.len(),
    ensures
        digits_value(d.subrange(0, k + 1), base) == digits_value(d.subrange(0, k), base) * base
            + digit_of(d[k]),
{
    assert(d.subrange(0, k + 1).drop_last() =~= d.subrange(0, k));
}

/// Appending digits never makes a numeral smaller.
pub proof fn lemma_digits_monotone(d: Seq<char>, k: int, base: nat)
    requires
        0 <= k <= d.len(),
        base >= 1,
    ensures
        digits_value(d.subrange(0, k), base) <= digits_value(d, base),
    decreases d.len() - k,
{
    if k < d.len() {
        lemma_digits_step(d, k, base);
        let v = digits_value(d.subrange(0, k), base);
        assert(v <= v * base + digit_of(d[k])) by (nonlinear_arith)
            requires
                base >= 1,
        ;
        lemma_digits_monotone(d, k + 1, base);
    } else {
        assert(d.subrange(0, k) =~= d);
    }
}

pub fn digit(c: char) -> (v: u64)
    ensures
        v == digit_of(c),
        v < 16,
{
    if '0' <= c && c <= '9' {
        (c as u64) - ('0' as u64)
    } else if 'a' <= c && c <= 'f' {
        (c as u64) - ('a' as u64) + 10
    } else if 'A' <= c && c <= 'F' {
        (c as u64) - ('A' as u64) + 10
    } else {
        0
    }
}

/// The value of the numeral `cs[from..to]` in base `base`, if it is at most `max`.
pub fn numeral(cs: &[char], from: usize, to: usize, base: u64, max: u64) -> (r: Option<u64>)
    requires
        from <= to <= cs@.len(),
        1 <= base <= 16,
    ensures
        r matches Some(v) ==> v == digits_value(cs@.subrange(from as int, to as int), base as nat)
            && v <= max,
        r is None ==> digits_value(cs@.subrange(from as int, to as int), base as nat) > max,
{
    let ghost d = cs@.subrange(from as int, to as int);
    let mut acc: u64 = 0;
    let mut k = from;
    assert(d.subrange(0, 0).len() == 0);
    while k < to
        invariant
            from <= k <= to <= cs@.len(),
            d == cs@.subrange(from as int, to as int),
            1 <= base <= 16,
            acc == digits_value(d.subrange(0, k - from), base as nat),
            acc <= max,
        decreases to - k,
    {
        let dv = digit(cs[k]);
        proof {
            lemma_digits_step(d, k - from, base as nat);
            assert(d[k - from] == cs@[k as int]);
        }
        assert((acc as u128) * (base as u128) <= 0xffff_ffff_ffff_ffffu128 * 16) by (nonlinear_arith)
            requires
                acc <= 0xffff_ffff_ffff_ffffu64,
                base <= 16,
        ;
        let wide: u128 = (acc as u128) * (base as u128) + (dv as u128);
        if wide > max as u128 {
            proof {
                lemma_digits_monotone(d, k - from + 1, base as nat);
            }
            return None;
        }
        acc = wide as u64;
        k = k + 1;
    }
    assert(d.subrange(0, to - from) =~= d);
    Some(acc)
}

} // verus!
