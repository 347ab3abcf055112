//! The grammar of strace's output, as spec functions over the input's
//! characters. Each parser takes the input `s` and a position `i` and gives
//! back the position after what it read, with the value read, or `None` where
//! the text at `i` is not of its form. Parsers that cannot fail give back the
//! pair alone. `ws` and `mws` skip blanks (spaces and tabs) and whitespace.
use vstd::prelude::*;

use super::lex::{ch, digit_of, digits_value, find_from, in_class, is_ident_start, lemma_span, lit, span, CharClass};

verus! {

/// What a parsed strace value denotes.
pub enum ValueModel {
    Oct(u64),
    Int(i64),
    Addr(u64),
    Call(CallModel),
    Ident(Seq<char>),
    FlagSet(Seq<Seq<char>>),
    Str(StringModel),
    Record(Seq<MemberModel>),
    List(Seq<ValueModel>),
    InverseList(Seq<ValueModel>),
}

pub struct CallModel {
    pub func: Seq<char>,
    pub args: Seq<ValueModel>,
}

pub enum StringModel {
    Complete(Seq<char>),
    Clipped(Seq<char>),
}

pub struct MemberModel {
    pub name: Seq<char>,
    pub value: ArgModel,
}

pub struct ArgModel {
    pub value: ValueModel,
    pub changed: Option<ValueModel>,
}

pub enum DecodedModel {
    Errno(Seq<char>),
    Flags(Seq<Seq<char>>),
}

pub struct CallResultModel {
    pub ret: ValueModel,
    pub decoded: Option<DecodedModel>,
}

pub struct FinishedModel {
    pub prev_changed: Option<ValueModel>,
    pub args: Seq<ArgModel>,
    pub call_result: Option<CallResultModel>,
}

pub enum CaseModel {
    Complete(FinishedModel),
    Unfinished(Seq<ArgModel>),
    Resumed(FinishedModel),
    Detached(Seq<ArgModel>),
}

pub enum EventModel {
    Exit(u32),
    Normal(Seq<char>, CaseModel),
}

pub struct ThreadEventModel {
    pub pid: i32,
    pub event: EventModel,
}

/// Skips blanks.
pub open spec fn ws(s: Seq<char>, i: int) -> int {
    span(s, i, CharClass::Space)
}

/// Skips whitespace, line breaks included.
pub open spec fn mws(s: Seq<char>, i: int) -> int {
    span(s, i, CharClass::MultiSpace)
}

/// An identifier: a letter or `_`, then letters, digits and `_`.
pub open spec fn ident(s: Seq<char>, i: int) -> Option<int> {
    if 0 <= i < s.len() && is_ident_start(s[i]) {
        Some(span(s, i + 1, CharClass::IdentChar))
    } else {
        None
    }
}

/// A non-empty run of `cls` digits at `i`, read in `base`, if its value is at most `max`.
pub open spec fn unsigned(s: Seq<char>, i: int, cls: CharClass, base: nat, max: nat) -> Option<(int, nat)> {
    let j = span(s, i, cls);
    if 0 <= i && j > i && digits_value(s.subrange(i, j), base) <= max {
        Some((j, digits_value(s.subrange(i, j), base)))
    } else {
        None
    }
}

/// `0x` and hexadecimal digits that fit in a `u64`.
pub open spec fn hex(s: Seq<char>, i: int) -> Option<(int, u64)> {
    if lit(s, i, "0x"@) {
        match unsigned(s, i + 2, CharClass::Hex, 16, u64::MAX as nat) {
            Some((j, v)) => Some((j, v as u64)),
            None => None,
        }
    } else {
        None
    }
}

/// `0` and octal digits that fit in a `u64`.
pub open spec fn oct(s: Seq<char>, i: int) -> Option<(int, u64)> {
    if ch(s, i, '0') {
        match unsigned(s, i + 1, CharClass::Oct, 8, u64::MAX as nat) {
            Some((j, v)) => Some((j, v as u64)),
            None => None,
        }
    } else {
        None
    }
}

/// An optional `-` and decimal digits whose value is at most `max`.
pub open spec fn signed(s: Seq<char>, i: int, max: nat) -> Option<(int, int)> {
    let neg = ch(s, i, '-');
    let a = if neg { i + 1 } else { i };
    match unsigned(s, a, CharClass::Dec, 10, max) {
        Some((j, v)) => Some((j, if neg { -v } else { v as int })),
        None => None,
    }
}

/// Scans the body of a quoted string from `p`: characters other than `\` and
/// `"`, and `\"` pairs, up to the closing quote, whose position it gives.
pub open spec fn string_body(s: Seq<char>, p: int) -> Option<int>
    decreases s.len() - p,
{
    if p < 0 || p >= s.len() {
        None
    } else if s[p] == '"' {
        Some(p)
    } else if s[p] == '\\' {
        if p + 1 < s.len() && s[p + 1] == '"' {
            string_body(s, p + 2)
        } else {
            None
        }
    } else {
        string_body(s, p + 1)
    }
}

/// A quoted string, clipped where `...` follows it.
pub open spec fn string_value(s: Seq<char>, i: int) -> Option<(int, StringModel)> {
    if ch(s, i, '"') {
        match string_body(s, i + 1) {
            Some(e) => if lit(s, e + 1, "..."@) {
                Some((e + 4, StringModel::Clipped(s.subrange(i + 1, e))))
            } else {
                Some((e + 1, StringModel::Complete(s.subrange(i + 1, e))))
            },
            None => None,
        }
    } else {
        None
    }
}

/// The end of a `/* ... */` comment that starts at `i`.
pub open spec fn comment(s: Seq<char>, i: int) -> Option<int> {
    if lit(s, i, "/*"@) {
        match find_from(s, i + 2, "*/"@) {
            Some(k) => Some(k + 2),
            None => None,
        }
    } else {
        None
    }
}

/// After an integer: an optional comment with the blanks around it.
pub open spec fn int_tail(s: Seq<char>, j: int) -> int {
    match comment(s, ws(s, j)) {
        Some(e) => ws(s, e),
        None => j,
    }
}

/// After a record: blanks, an optional comment, blanks.
pub open spec fn record_tail(s: Seq<char>, j: int) -> int {
    let a = ws(s, j);
    match comment(s, a) {
        Some(e) => ws(s, e),
        None => a,
    }
}

/// Flag names (alphanumerics and `_`) separated by `|`; possibly none.
pub open spec fn flag_set(s: Seq<char>, i: int) -> (int, Seq<Seq<char>>) {
    let j = span(s, i, CharClass::FlagChar);
    if 0 <= i && j > i {
        let (k, rest) = flags_more(s, j);
        (k, seq![s.subrange(i, j)] + rest)
    } else {
        (i, seq![])
    }
}

pub open spec fn flags_more(s: Seq<char>, j: int) -> (int, Seq<Seq<char>>)
    decreases s.len() - j,
{
    if ch(s, j, '|') {
        let k = span(s, j + 1, CharClass::FlagChar);
        proof {
            lemma_span(s, j + 1, CharClass::FlagChar);
        }
        if k > j + 1 {
            let (m, rest) = flags_more(s, k);
            (m, seq![s.subrange(j + 1, k)] + rest)
        } else {
            (j, seq![])
        }
    } else {
        (j, seq![])
    }
}

/// The separator of a bracketed list: blanks, or `, `.
pub open spec fn list_sep(s: Seq<char>, j: int) -> Option<int> {
    if 0 <= j < s.len() && in_class(CharClass::Space, s[j]) {
        Some(span(s, j, CharClass::Space))
    } else if lit(s, j, ", "@) {
        Some(j + 2)
    } else {
        None
    }
}

/// A value: an address, a call, a flag set or identifier, an octal or decimal
/// number, a string, a list, an inverted list, or a record.
pub open spec fn value(s: Seq<char>, i: int) -> Option<(int, ValueModel)>
    decreases s.len() - i, 8int,
{
    if i < 0 || i > s.len() {
        None
    } else {
        match hex(s, i) {
            Some((j, v)) => Some((ws(s, j), ValueModel::Addr(v))),
            None => match call_value(s, i) {
                Some((j, c)) => Some((ws(s, j), ValueModel::Call(c))),
                None => match ident(s, i) {
                    Some(j) => if ch(s, ws(s, j), '|') {
                        let (m, fs) = flag_set(s, i);
                        Some((ws(s, m), ValueModel::FlagSet(fs)))
                    } else {
                        Some((ws(s, j), ValueModel::Ident(s.subrange(i, j))))
                    },
                    None => match oct(s, i) {
                        Some((j, v)) => Some((j, ValueModel::Oct(v))),
                        None => match signed(s, i, i64::MAX as nat) {
                            Some((j, v)) => Some((int_tail(s, j), ValueModel::Int(v as i64))),
                            None => match string_value(s, i) {
                                Some((j, sv)) => Some((ws(s, j), ValueModel::Str(sv))),
                                None => if ch(s, i, '[') {
                                    let (j, vs) = list_first(s, i + 1);
                                    if ch(s, j, ']') {
                                        Some((j + 1, ValueModel::List(vs)))
                                    } else {
                                        None
                                    }
                                } else if ch(s, i, '~') {
                                    if ch(s, i + 1, '[') {
                                        let (j, vs) = inv_first(s, i + 2);
                                        if ch(s, j, ']') {
                                            Some((j + 1, ValueModel::InverseList(vs)))
                                        } else {
                                            None
                                        }
                                    } else {
                                        None
                                    }
                                } else if ch(s, i, '{') {
                                    match record_value(s, i) {
                                        Some((j, ms)) => Some(
                                            (record_tail(s, ws(s, j)), ValueModel::Record(ms)),
                                        ),
                                        None => None,
                                    }
                                } else {
                                    None
                                },
                            },
                        },
                    },
                },
            },
        }
    }
}

/// `name(args)`, with the arguments separated by `,`.
pub open spec fn call_value(s: Seq<char>, i: int) -> Option<(int, CallModel)>
    decreases s.len() - i, 7int,
{
    match ident(s, i) {
        Some(j) => if ch(s, j, '(') {
            proof {
                lemma_span(s, i + 1, CharClass::IdentChar);
            }
            let (k, args) = call_args_first(s, j + 1);
            if ch(s, k, ')') {
                Some((k + 1, CallModel { func: s.subrange(i, j), args }))
            } else {
                None
            }
        } else {
            None
        },
        None => None,
    }
}

pub open spec fn call_args_first(s: Seq<char>, i: int) -> (int, Seq<ValueModel>)
    decreases s.len() - i, 10int,
{
    if i < 0 || i > s.len() {
        (i, seq![])
    } else {
        let a = ws(s, i);
        proof {
            lemma_span(s, i, CharClass::Space);
        }
        match value(s, a) {
            Some((j, v)) => {
                let b = ws(s, j);
                if i <= j <= s.len() {
                    proof {
                        lemma_span(s, j, CharClass::Space);
                    }
                    let (k, rest) = call_args_more(s, b);
                    (k, seq![v] + rest)
                } else {
                    (i, seq![])
                }
            },
            None => (i, seq![]),
        }
    }
}

pub open spec fn call_args_more(s: Seq<char>, j: int) -> (int, Seq<ValueModel>)
    decreases s.len() - j, 3int,
{
    if ch(s, j, ',') {
        let a = ws(s, j + 1);
        proof {
            lemma_span(s, j + 1, CharClass::Space);
        }
        match value(s, a) {
            Some((k, v)) => {
                let b = ws(s, k);
                if a <= k <= s.len() {
                    proof {
                        lemma_span(s, k, CharClass::Space);
                    }
                    let (m, rest) = call_args_more(s, b);
                    (m, seq![v] + rest)
                } else {
                    (j, seq![])
                }
            },
            None => (j, seq![]),
        }
    } else {
        (j, seq![])
    }
}

pub open spec fn list_first(s: Seq<char>, i: int) -> (int, Seq<ValueModel>)
    decreases s.len() - i, 10int,
{
    match value(s, i) {
        Some((j, v)) => if i <= j <= s.len() {
            let (k, rest) = list_more(s, j);
            (k, seq![v] + rest)
        } else {
            (i, seq![])
        },
        None => (i, seq![]),
    }
}

pub open spec fn list_more(s: Seq<char>, j: int) -> (int, Seq<ValueModel>)
    decreases s.len() - j, 3int,
{
    match list_sep(s, j) {
        Some(a) => {
            proof {
                reveal_strlit(", ");
                if 0 <= j < s.len() && in_class(CharClass::Space, s[j]) {
                    lemma_span(s, j + 1, CharClass::Space);
                    assert(span(s, j, CharClass::Space) == span(s, j + 1, CharClass::Space));
                }
            }
            match value(s, a) {
                Some((k, v)) => if a <= k <= s.len() {
                    let (m, rest) = list_more(s, k);
                    (m, seq![v] + rest)
                } else {
                    (j, seq![])
                },
                None => (j, seq![]),
            }
        },
        None => (j, seq![]),
    }
}

pub open spec fn inv_first(s: Seq<char>, i: int) -> (int, Seq<ValueModel>)
    decreases s.len() - i, 10int,
{
    match value(s, i) {
        Some((j, v)) => if i <= j <= s.len() {
            let (k, rest) = inv_more(s, j);
            (k, seq![v] + rest)
        } else {
            (i, seq![])
        },
        None => (i, seq![]),
    }
}

pub open spec fn inv_more(s: Seq<char>, j: int) -> (int, Seq<ValueModel>)
    decreases s.len() - j, 3int,
{
    if ch(s, j, ' ') {
        match value(s, j + 1) {
            Some((k, v)) => if j + 1 <= k <= s.len() {
                let (m, rest) = inv_more(s, k);
                (m, seq![v] + rest)
            } else {
                (j, seq![])
            },
            None => (j, seq![]),
        }
    } else {
        (j, seq![])
    }
}

/// `{member, ...}`.
pub open spec fn record_value(s: Seq<char>, i: int) -> Option<(int, Seq<MemberModel>)>
    decreases s.len() - i, 7int,
{
    if ch(s, i, '{') {
        let (j, ms) = members_first(s, i + 1);
        if ch(s, j, '}') {
            Some((j + 1, ms))
        } else {
            None
        }
    } else {
        None
    }
}

pub open spec fn members_first(s: Seq<char>, i: int) -> (int, Seq<MemberModel>)
    decreases s.len() - i, 10int,
{
    if i < 0 || i > s.len() {
        (i, seq![])
    } else {
        let a = ws(s, i);
        proof {
            lemma_span(s, i, CharClass::Space);
        }
        match record_member(s, a) {
            Some((j, m)) => {
                let b = ws(s, j);
                if i <= j <= s.len() {
                    proof {
                        lemma_span(s, j, CharClass::Space);
                    }
                    let (k, rest) = members_more(s, b);
                    (k, seq![m] + rest)
                } else {
                    (i, seq![])
                }
            },
            None => (i, seq![]),
        }
    }
}

pub open spec fn members_more(s: Seq<char>, j: int) -> (int, Seq<MemberModel>)
    decreases s.len() - j, 3int,
{
    if ch(s, j, ',') {
        let a = ws(s, j + 1);
        proof {
            lemma_span(s, j + 1, CharClass::Space);
        }
        match record_member(s, a) {
            Some((k, m)) => {
                let b = ws(s, k);
                if a <= k <= s.len() {
                    proof {
                        lemma_span(s, k, CharClass::Space);
                    }
                    let (n, rest) = members_more(s, b);
                    (n, seq![m] + rest)
                } else {
                    (j, seq![])
                }
            },
            None => (j, seq![]),
        }
    } else {
        (j, seq![])
    }
}

/// `name=arg`.
pub open spec fn record_member(s: Seq<char>, i: int) -> Option<(int, MemberModel)>
    decreases s.len() - i, 9int,
{
    match ident(s, i) {
        Some(j) => if ch(s, j, '=') {
            proof {
                lemma_span(s, i + 1, CharClass::IdentChar);
            }
            match arg(s, j + 1) {
                Some((k, a)) => Some((k, MemberModel { name: s.subrange(i, j), value: a })),
                None => None,
            }
        } else {
            None
        },
        None => None,
    }
}

/// A value, and what it changed to (`value => value`) where strace shows that.
pub open spec fn arg(s: Seq<char>, i: int) -> Option<(int, ArgModel)>
    decreases s.len() - i, 9int,
{
    if i < 0 || i > s.len() {
        None
    } else {
        let a = ws(s, i);
        proof {
            lemma_span(s, i, CharClass::Space);
        }
        match value(s, a) {
            Some((j, v)) => if a <= j <= s.len() {
                let b = ws(s, j);
                let c = ws(s, b);
                proof {
                    lemma_span(s, j, CharClass::Space);
                    lemma_span(s, b, CharClass::Space);
                }
                if lit(s, c, "=>"@) {
                    let d = ws(s, c + 2);
                    proof {
                        reveal_strlit("=>");
                        lemma_span(s, c + 2, CharClass::Space);
                    }
                    match value(s, ws(s, d)) {
                        Some((f, w)) => Some(
                            (ws(s, f), ArgModel { value: v, changed: Some(w) }),
                        ),
                        None => Some((b, ArgModel { value: v, changed: None })),
                    }
                } else {
                    Some((b, ArgModel { value: v, changed: None }))
                }
            } else {
                None
            },
            None => None,
        }
    }
}

/// `(...)`: a parenthesised, non-empty text without `)`.
pub open spec fn parens(s: Seq<char>, k: int) -> Option<int> {
    if ch(s, k, '(') {
        let m = span(s, k + 1, CharClass::NotCloseParen);
        if m > k + 1 && ch(s, m, ')') {
            Some(m + 1)
        } else {
            None
        }
    } else {
        None
    }
}

/// An error name in capitals, whitespace, and its description in parentheses.
pub open spec fn errno(s: Seq<char>, i: int) -> Option<(int, Seq<char>)> {
    let j = span(s, i, CharClass::Upper);
    if 0 <= i && j > i {
        let k = span(s, j, CharClass::MultiSpace);
        if k > j {
            match parens(s, k) {
                Some(m) => Some((m, s.subrange(i, j))),
                None => None,
            }
        } else {
            None
        }
    } else {
        None
    }
}

/// How strace decodes a return value: an error, or `(flags ...)`.
pub open spec fn decoded(s: Seq<char>, i: int) -> Option<(int, DecodedModel)> {
    let a = ws(s, i);
    match errno(s, a) {
        Some((j, e)) => Some((ws(s, j), DecodedModel::Errno(e))),
        None => if ch(s, a, '(') && lit(s, a + 1, "flags"@) {
            let (c, fs) = flag_set(s, ws(s, a + 6));
            let d = ws(s, c);
            if ch(s, d, ')') {
                Some((ws(s, d + 1), DecodedModel::Flags(fs)))
            } else {
                None
            }
        } else {
            None
        },
    }
}

/// A return value, and how strace decodes it where it does.
pub open spec fn call_result(s: Seq<char>, i: int) -> Option<(int, CallResultModel)> {
    match value(s, i) {
        Some((j, v)) => match decoded(s, ws(s, j)) {
            Some((k, d)) => Some((ws(s, k), CallResultModel { ret: v, decoded: Some(d) })),
            None => Some((j, CallResultModel { ret: v, decoded: None })),
        },
        None => None,
    }
}

/// The end of a call: `) = ` and the result, or `?` where there is none.
pub open spec fn finish(s: Seq<char>, m: int) -> Option<(int, Option<CallResultModel>)> {
    let a = ws(s, m);
    if ch(s, a, ')') {
        let c = ws(s, ws(s, a + 1));
        if ch(s, c, '=') {
            let d = ws(s, c + 1);
            let e = ws(s, d);
            if ch(s, e, '?') {
                Some((ws(s, e + 1), None))
            } else {
                match call_result(s, ws(s, d)) {
                    Some((g, cr)) => Some((ws(s, g), Some(cr))),
                    None => None,
                }
            }
        } else {
            None
        }
    } else {
        None
    }
}

/// Arguments of a system call, separated by `,`.
pub open spec fn event_args_first(s: Seq<char>, i: int) -> (int, Seq<ArgModel>)
    decreases s.len() - i, 1int,
{
    match arg(s, ws(s, i)) {
        Some((j, a)) => {
            let b = ws(s, j);
            if 0 <= i <= b <= s.len() {
                let (k, rest) = event_args_more(s, b);
                (k, seq![a] + rest)
            } else {
                (i, seq![])
            }
        },
        None => (i, seq![]),
    }
}

pub open spec fn event_args_more(s: Seq<char>, j: int) -> (int, Seq<ArgModel>)
    decreases s.len() - j, 0int,
{
    if ch(s, j, ',') {
        match arg(s, ws(s, j + 1)) {
            Some((k, a)) => {
                let b = ws(s, k);
                if j < b <= s.len() {
                    let (m, rest) = event_args_more(s, b);
                    (m, seq![a] + rest)
                } else {
                    (j, seq![])
                }
            },
            None => (j, seq![]),
        }
    } else {
        (j, seq![])
    }
}

/// `<... name resumed>`, giving the name.
pub open spec fn resumed_tag(s: Seq<char>, i: int) -> Option<(int, Seq<char>)> {
    if ch(s, i, '<') && lit(s, i + 1, "..."@) {
        let a = ws(s, i + 4);
        match ident(s, a) {
            Some(j) => {
                let b = ws(s, j);
                if lit(s, b, "resumed"@) && ch(s, b + 7, '>') {
                    Some((b + 8, s.subrange(a, j)))
                } else {
                    None
                }
            },
            None => None,
        }
    } else {
        None
    }
}

/// An optional `<... resuming interrupted name ...>` marker.
pub open spec fn resuming(s: Seq<char>, a: int) -> int {
    let b = ws(s, a);
    if lit(s, b, "<... resuming interrupted"@) {
        match ident(s, ws(s, b + 25)) {
            Some(e) => {
                let f = ws(s, e);
                if lit(s, f, "...>"@) {
                    ws(s, f + 4)
                } else {
                    a
                }
            },
            None => a,
        }
    } else {
        a
    }
}

/// The call of a thread that did not exit: resumed, unfinished, detached or complete.
pub open spec fn normal(s: Seq<char>, i: int) -> Option<(int, EventModel)> {
    match resumed_tag(s, i) {
        Some((j, func)) => {
            let b = ws(s, j);
            let c = ws(s, b);
            let prev: Option<(int, Option<ValueModel>)> = if lit(s, c, "=>"@) {
                match value(s, ws(s, ws(s, c + 2))) {
                    Some((f, w)) => {
                        let h = ws(s, ws(s, f));
                        if ch(s, h, ',') {
                            Some((ws(s, h + 1), Some(w)))
                        } else {
                            None
                        }
                    },
                    None => None,
                }
            } else {
                Some((b, None))
            };
            match prev {
                Some((k, prev_changed)) => {
                    let (m, args) = event_args_first(s, k);
                    match finish(s, m) {
                        Some((p, call_result)) => Some(
                            (
                                p,
                                EventModel::Normal(
                                    func,
                                    CaseModel::Resumed(
                                        FinishedModel { prev_changed, args, call_result },
                                    ),
                                ),
                            ),
                        ),
                        None => None,
                    }
                },
                None => None,
            }
        },
        None => match ident(s, i) {
            Some(j) => if ch(s, j, '(') {
                let func = s.subrange(i, j);
                let (m, args) = event_args_first(s, resuming(s, j + 1));
                let x = ws(s, m);
                let n = if ch(s, x, ',') {
                    ws(s, x + 1)
                } else {
                    m
                };
                if lit(s, n, "<unfinished ...>"@) {
                    Some((ws(s, n + 16), EventModel::Normal(func, CaseModel::Unfinished(args))))
                } else if lit(s, n, "<detached ...>"@) {
                    Some((ws(s, n + 14), EventModel::Normal(func, CaseModel::Detached(args))))
                } else {
                    match finish(s, n) {
                        Some((p, call_result)) => Some(
                            (
                                p,
                                EventModel::Normal(
                                    func,
                                    CaseModel::Complete(
                                        FinishedModel { prev_changed: None, args, call_result },
                                    ),
                                ),
                            ),
                        ),
                        None => None,
                    }
                }
            } else {
                None
            },
            None => None,
        },
    }
}

/// `+++ exited with status +++`.
pub open spec fn exit(s: Seq<char>, i: int) -> Option<(int, u32)> {
    if lit(s, i, "+++ exited with "@) {
        match unsigned(s, i + 16, CharClass::Dec, 10, u32::MAX as nat) {
            Some((j, v)) => if lit(s, j, " +++"@) {
                Some((j + 4, v as u32))
            } else {
                None
            },
            None => None,
        }
    } else {
        None
    }
}

/// What a thread did: exit, or a call.
pub open spec fn event(s: Seq<char>, i: int) -> Option<(int, EventModel)> {
    let a = ws(s, i);
    match exit(s, a) {
        Some((j, st)) => Some((ws(s, j), EventModel::Exit(st))),
        None => match normal(s, a) {
            Some((j, e)) => Some((ws(s, j), e)),
            None => None,
        },
    }
}

/// A line of the trace: the thread's id and what it did.
pub open spec fn thread_event(s: Seq<char>, i: int) -> Option<(int, ThreadEventModel)> {
    match signed(s, ws(s, i), i32::MAX as nat) {
        Some((j, pid)) => match event(s, ws(s, ws(s, j))) {
            Some((k, e)) => Some((ws(s, k), ThreadEventModel { pid: pid as i32, event: e })),
            None => None,
        },
        None => None,
    }
}

pub open spec fn events_first(s: Seq<char>, i: int) -> (int, Seq<ThreadEventModel>)
    decreases s.len() - i, 1int,
{
    match thread_event(s, ws(s, i)) {
        Some((j, e)) => {
            let b = ws(s, j);
            if 0 <= i <= b <= s.len() {
                let (k, rest) = events_more(s, b);
                (k, seq![e] + rest)
            } else {
                (i, seq![])
            }
        },
        None => (i, seq![]),
    }
}

pub open spec fn events_more(s: Seq<char>, j: int) -> (int, Seq<ThreadEventModel>)
    decreases s.len() - j, 0int,
{
    if ch(s, j, '\n') {
        match thread_event(s, ws(s, j + 1)) {
            Some((k, e)) => {
                let b = ws(s, k);
                if j < b <= s.len() {
                    let (m, rest) = events_more(s, b);
                    (m, seq![e] + rest)
                } else {
                    (j, seq![])
                }
            },
            None => (j, seq![]),
        }
    } else {
        (j, seq![])
    }
}

/// A whole trace: thread events, one per line, with whitespace around them.
/// Reading a trace never fails: it reads as many events as it can.
pub open spec fn trace(s: Seq<char>) -> (int, Seq<ThreadEventModel>) {
    let (c, events) = events_first(s, ws(s, mws(s, 0)));
    (mws(s, ws(s, c)), events)
}


/// A run of characters that ends the text stays a run with one more
/// character of its class after it.
proof fn lemma_span_push(s: Seq<char>, k: int, cls: CharClass, d: char)
    requires
        0 <= k <= s.len(),
        span(s, k, cls) == s.len(),
        in_class(cls, d),
    ensures
        span(s.push(d), k, cls) == s.len() + 1,
    decreases s.len() - k,
{
    let t = s.push(d);
    if k < s.len() {
        assert(t[k] == s[k]);
        assert(in_class(cls, s[k]));
        lemma_span_push(s, k + 1, cls, d);
    } else {
        assert(t[k] == d);
        assert(span(t, k + 1, cls) == k + 1);
    }
}

/// An octal literal is read in base eight: `0` and one octal digit stands
/// for that digit, and one more octal digit after a literal of value `v`
/// that ends the text stands for `8 * v` plus that digit.
pub proof fn lemma_oct_base_eight(s: Seq<char>, i: int, d: char)
    requires
        0 <= i < s.len(),
        '0' <= d && d <= '7',
        s[i] == '0',
        i + 1 == s.len() || (oct(s, i) matches Some((j, v)) && j == s.len() && 8 * v + (d as int - '0' as int)
            <= u64::MAX),
    ensures
        oct(s.push(d), i) == Some(
            (
                s.len() + 1int,
                (if i + 1 == s.len() {
                    d as int - '0' as int
                } else {
                    8 * oct(s, i).unwrap().1 + (d as int - '0' as int)
                }) as u64,
            ),
        ),
{
    let t = s.push(d);
    assert(t[i] == s[i]);
    assert(in_class(CharClass::Oct, d));
    if i + 1 == s.len() {
        assert(span(s, i + 1, CharClass::Oct) == s.len());
    }
    lemma_span_push(s, i + 1, CharClass::Oct, d);
    let digits = s.subrange(i + 1, s.len() as int);
    assert(t.subrange(i + 1, t.len() as int) == digits.push(d));
    assert(digits.push(d).drop_last() == digits);
    if i + 1 == s.len() {
        assert(digits.len() == 0);
    }
}


/// One more digit after a run of digits that ends the text: the run grows
/// by it and its value is the old value times the base plus the digit.
proof fn lemma_digits_push(s: Seq<char>, a: int, cls: CharClass, base: nat, d: char)
    requires
        0 <= a <= s.len(),
        span(s, a, cls) == s.len(),
        in_class(cls, d),
    ensures
        span(s.push(d), a, cls) == s.len() + 1,
        digits_value(s.push(d).subrange(a, s.len() + 1int), base) == digits_value(s.subrange(a, s.len() as int), base)
            * base + digit_of(d),
{
    lemma_span_push(s, a, cls, d);
    let digits = s.subrange(a, s.len() as int);
    assert(s.push(d).subrange(a, s.len() + 1int) == digits.push(d));
    assert(digits.push(d).drop_last() == digits);
}

/// The value of a hexadecimal digit.
pub open spec fn hex_digit(d: char) -> int {
    if '0' <= d && d <= '9' {
        d as int - '0' as int
    } else if 'a' <= d && d <= 'f' {
        d as int - 'a' as int + 10
    } else {
        d as int - 'A' as int + 10
    }
}

/// A hexadecimal address is read in base sixteen: `0x` and one digit stands
/// for that digit, and one more digit after an address of value `v` that
/// ends the text stands for `16 * v` plus that digit.
pub proof fn lemma_hex_base_sixteen(s: Seq<char>, i: int, d: char)
    requires
        lit(s, i, "0x"@),
        ('0' <= d && d <= '9') || ('a' <= d && d <= 'f') || ('A' <= d && d <= 'F'),
        i + 2 == s.len() || (hex(s, i) matches Some((j, v)) && j == s.len() && 16 * v + hex_digit(d) <= u64::MAX),
    ensures
        hex(s.push(d), i) == Some(
            (
                s.len() + 1int,
                (if i + 2 == s.len() {
                    hex_digit(d)
                } else {
                    16 * hex(s, i).unwrap().1 + hex_digit(d)
                }) as u64,
            ),
        ),
{
    reveal_strlit("0x");
    let t = s.push(d);
    assert(t.subrange(i, i + 2) == s.subrange(i, i + 2));
    assert(lit(t, i, "0x"@));
    if i + 2 == s.len() {
        assert(span(s, i + 2, CharClass::Hex) == s.len());
    }
    lemma_digits_push(s, i + 2, CharClass::Hex, 16, d);
    if i + 2 == s.len() {
        assert(s.subrange(i + 2, s.len() as int).len() == 0);
    }
}

/// A decimal integer is read in base ten: one more digit after an integer
/// of value `v` that ends the text stands for `10 * v` plus that digit, or
/// minus it where the integer is negative.
pub proof fn lemma_signed_base_ten(s: Seq<char>, i: int, d: char, max: nat)
    requires
        '0' <= d && d <= '9',
        signed(s, i, max) matches Some((j, v)) && j == s.len() && 10 * (if v < 0 {
            -v
        } else {
            v
        }) + (d as int - '0' as int) <= max,
    ensures
        signed(s.push(d), i, max) == Some(
            (
                s.len() + 1int,
                if ch(s, i, '-') {
                    10 * signed(s, i, max).unwrap().1 - (d as int - '0' as int)
                } else {
                    10 * signed(s, i, max).unwrap().1 + (d as int - '0' as int)
                },
            ),
        ),
{
    let t = s.push(d);
    let neg = ch(s, i, '-');
    let a = if neg {
        i + 1
    } else {
        i
    };
    assert(ch(t, i, '-') == neg);
    lemma_digits_push(s, a, CharClass::Dec, 10, d);
}

} // verus!
