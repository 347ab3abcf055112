//! Parsing strace's output (as `strace --no-abbrev --string-limit 0
//! --follow-forks` writes it) into thread events.
use vstd::prelude::*;
use crate::text::{chars_of, push_char};

use super::grammar::{
    arg, call_args_first, call_args_more, call_result, call_value, comment, decoded, errno,
    event, event_args_first, event_args_more, events_first, events_more, exit, finish,
    flag_set, flags_more, hex, ident, int_tail, inv_first, inv_more, list_first, list_more,
    list_sep, members_first, members_more, mws, normal, oct, parens, record_member,
    record_tail, record_value, resumed_tag, resuming, signed, string_body, string_value,
    thread_event, trace, unsigned, value, ws, ArgModel, CallModel, CallResultModel,
    CaseModel, DecodedModel, EventModel, FinishedModel, MemberModel, StringModel,
    ThreadEventModel, ValueModel,
};
use super::lex::{
    ch, char_in_class, digits_value, find_lit, has_char, has_lit, in_class, is_ident_start,
    lemma_span, lit, numeral, scan, span, CharClass,
};

verus! {

/// A whole trace.
#[derive(PartialEq, Eq, Debug)]
pub struct Trace {
    pub events: Vec<ThreadEvent>,
}

/// The result of a finished call.
#[derive(PartialEq, Eq, Debug)]
pub struct CallResult {
    pub ret: Value,
    pub decoded: Option<DecodedRetValue>,
}

/// How strace decodes a return value.
#[derive(PartialEq, Eq, Debug)]
pub enum DecodedRetValue {
    Errno(Errno),
    Flags(FlagSet),
}

/// The name of an error, such as `ENOENT`.
#[derive(PartialEq, Eq, Debug)]
pub struct Errno(pub String);

/// One line of the trace: what thread `pid` did.
#[derive(PartialEq, Eq, Debug)]
pub struct ThreadEvent {
    pub pid: i32,
    pub event: Event,
}

#[derive(PartialEq, Eq, Debug)]
pub enum Event {
    Exit(ExitThreadEvent),
    Normal(NormalThreadEvent),
}

#[derive(PartialEq, Eq, Debug)]
pub struct ExitThreadEvent {
    pub status: u32,
}

/// A call of `func`.
#[derive(PartialEq, Eq, Debug)]
pub struct NormalThreadEvent {
    pub func: String,
    pub case: NonExitEvent,
}

#[derive(PartialEq, Eq, Debug)]
pub enum NonExitEvent {
    Complete(FinishedEvent),
    Unfinished(Unfinished),
    Resumed(FinishedEvent),
    Detached(Unfinished),
}

#[derive(PartialEq, Eq, Debug)]
pub struct Unfinished {
    pub args: Vec<Arg>,
}

#[derive(PartialEq, Eq, Debug)]
pub struct FinishedEvent {
    pub prev_changed: Option<Value>,
    pub args: Vec<Arg>,
    pub call_result: Option<CallResult>,
}

/// An argument, and what the call changed it to.
#[derive(PartialEq, Eq, Debug)]
pub struct Arg {
    pub value: Value,
    pub changed: Option<Value>,
}

#[derive(PartialEq, Eq, Debug)]
pub enum Value {
    Oct(u64),
    Int(i64),
    Addr(u64),
    Call(CallValue),
    Ident(String),
    FlagSet(FlagSet),
    String(StringValue),
    Record(RecordValue),
    List(Vec<Value>),
    InverseList(Vec<Value>),
}

#[derive(PartialEq, Eq, Debug)]
pub struct FlagSet(pub Vec<String>);

#[derive(PartialEq, Eq, Debug)]
pub struct CallValue {
    pub func: String,
    pub args: Vec<Value>,
}

#[derive(PartialEq, Eq, Debug)]
pub enum StringValue {
    Complete(String),
    Clipped(String),
}

#[derive(PartialEq, Eq, Debug)]
pub struct RecordValue(pub Vec<RecordMember>);

#[derive(PartialEq, Eq, Debug)]
pub struct RecordMember {
    pub name: String,
    pub value: Arg,
}

impl Value {
    pub open spec fn model(self) -> ValueModel
        decreases self,
    {
        match self {
            Value::Oct(v) => ValueModel::Oct(v),
            Value::Int(v) => ValueModel::Int(v),
            Value::Addr(v) => ValueModel::Addr(v),
            Value::Call(c) => ValueModel::Call(CallModel { func: c.func@, args: values_model(c.args@) }),
            Value::Ident(s) => ValueModel::Ident(s@),
            Value::FlagSet(fs) => ValueModel::FlagSet(strings_model(fs.0@)),
            Value::String(sv) => ValueModel::Str(sv.model()),
            Value::Record(r) => ValueModel::Record(members_model(r.0@)),
            Value::List(vs) => ValueModel::List(values_model(vs@)),
            Value::InverseList(vs) => ValueModel::InverseList(values_model(vs@)),
        }
    }
}

impl Arg {
    pub open spec fn model(self) -> ArgModel
        decreases self,
    {
        ArgModel {
            value: self.value.model(),
            changed: match self.changed {
                Some(c) => Some(c.model()),
                None => None,
            },
        }
    }
}

pub open spec fn values_model(vs: Seq<Value>) -> Seq<ValueModel>
    decreases vs,
{
    if vs.len() == 0 {
        seq![]
    } else {
        values_model(vs.subrange(0, vs.len() - 1)).push(vs[vs.len() - 1].model())
    }
}

pub open spec fn members_model(ms: Seq<RecordMember>) -> Seq<MemberModel>
    decreases ms,
{
    if ms.len() == 0 {
        seq![]
    } else {
        let m = ms[ms.len() - 1];
        members_model(ms.subrange(0, ms.len() - 1)).push(
            MemberModel { name: m.name@, value: m.value.model() },
        )
    }
}

pub open spec fn strings_model(ss: Seq<String>) -> Seq<Seq<char>> {
    ss.map_values(|s: String| s@)
}

pub open spec fn args_model(args: Seq<Arg>) -> Seq<ArgModel> {
    args.map_values(|a: Arg| a.model())
}

impl CallValue {
    pub open spec fn model(self) -> CallModel {
        CallModel { func: self.func@, args: values_model(self.args@) }
    }
}

impl RecordMember {
    pub open spec fn model(self) -> MemberModel {
        MemberModel { name: self.name@, value: self.value.model() }
    }
}

impl DecodedRetValue {
    pub open spec fn model(self) -> DecodedModel {
        match self {
            DecodedRetValue::Errno(e) => DecodedModel::Errno(e.0@),
            DecodedRetValue::Flags(fs) => DecodedModel::Flags(strings_model(fs.0@)),
        }
    }
}

impl CallResult {
    pub open spec fn model(self) -> CallResultModel {
        CallResultModel {
            ret: self.ret.model(),
            decoded: match self.decoded {
                Some(d) => Some(d.model()),
                None => None,
            },
        }
    }
}

impl FinishedEvent {
    pub open spec fn model(self) -> FinishedModel {
        FinishedModel {
            prev_changed: match self.prev_changed {
                Some(v) => Some(v.model()),
                None => None,
            },
            args: args_model(self.args@),
            call_result: match self.call_result {
                Some(c) => Some(c.model()),
                None => None,
            },
        }
    }
}

impl NonExitEvent {
    pub open spec fn model(self) -> CaseModel {
        match self {
            NonExitEvent::Complete(f) => CaseModel::Complete(f.model()),
            NonExitEvent::Unfinished(u) => CaseModel::Unfinished(args_model(u.args@)),
            NonExitEvent::Resumed(f) => CaseModel::Resumed(f.model()),
            NonExitEvent::Detached(u) => CaseModel::Detached(args_model(u.args@)),
        }
    }
}

impl Event {
    pub open spec fn model(self) -> EventModel {
        match self {
            Event::Exit(e) => EventModel::Exit(e.status),
            Event::Normal(n) => EventModel::Normal(n.func@, n.case.model()),
        }
    }
}

impl ThreadEvent {
    pub open spec fn model(self) -> ThreadEventModel {
        ThreadEventModel { pid: self.pid, event: self.event.model() }
    }
}

pub open spec fn events_model(events: Seq<ThreadEvent>) -> Seq<ThreadEventModel> {
    events.map_values(|e: ThreadEvent| e.model())
}

impl StringValue {
    pub open spec fn model(self) -> StringModel {
        match self {
            StringValue::Complete(s) => StringModel::Complete(s@),
            StringValue::Clipped(s) => StringModel::Clipped(s@),
        }
    }
}

pub proof fn lemma_values_model_push(vs: Seq<Value>, v: Value)
    ensures
        values_model(vs.push(v)) == values_model(vs).push(v.model()),
{
    assert(vs.push(v).subrange(0, vs.len() as int) =~= vs);
}

pub proof fn lemma_members_model_push(ms: Seq<RecordMember>, m: RecordMember)
    ensures
        members_model(ms.push(m)) == members_model(ms).push(
            MemberModel { name: m.name@, value: m.value.model() },
        ),
{
    assert(ms.push(m).subrange(0, ms.len() as int) =~= ms);
}

/// The characters `cs[from..to]` as a string.
fn text(cs: &[char], from: usize, to: usize) -> (s: String)
    requires
        from <= to <= cs@.len(),
    ensures
        s@ == cs@.subrange(from as int, to as int),
{
    let mut s = String::new();
    let mut k = from;
    while k < to
        invariant
            from <= k <= to <= cs@.len(),
            s@ == cs@.subrange(from as int, k as int),
        decreases to - k,
    {
        push_char(&mut s, cs[k]);
        assert(cs@.subrange(from as int, k + 1) =~= cs@.subrange(from as int, k as int).push(
            cs@[k as int],
        ));
        k = k + 1;
    }
    s
}


fn ws_at(cs: &[char], i: usize) -> (j: usize)
    requires
        i <= cs@.len(),
    ensures
        j == ws(cs@, i as int),
        i <= j <= cs@.len(),
{
    scan(cs, i, CharClass::Space)
}

fn ident_at(cs: &[char], i: usize) -> (r: Option<usize>)
    requires
        i <= cs@.len(),
    ensures
        r matches Some(j) ==> ident(cs@, i as int) == Some(j as int) && i < j <= cs@.len(),
        r is None ==> ident(cs@, i as int) is None,
{
    if i < cs.len() && (('A' <= cs[i] && cs[i] <= 'Z') || ('a' <= cs[i] && cs[i] <= 'z')
        || cs[i] == '_') {
        Some(scan(cs, i + 1, CharClass::IdentChar))
    } else {
        None
    }
}

fn unsigned_at(cs: &[char], i: usize, cls: CharClass, base: u64, max: u64) -> (r: Option<(usize, u64)>)
    requires
        i <= cs@.len(),
        1 <= base <= 16,
    ensures
        r matches Some((j, v)) ==> unsigned(cs@, i as int, cls, base as nat, max as nat) == Some(
            (j as int, v as nat),
        ) && i < j <= cs@.len(),
        r is None ==> unsigned(cs@, i as int, cls, base as nat, max as nat) is None,
{
    let j = scan(cs, i, cls);
    if j > i {
        match numeral(cs, i, j, base, max) {
            Some(v) => Some((j, v)),
            None => None,
        }
    } else {
        None
    }
}

fn hex_at(cs: &[char], i: usize) -> (r: Option<(usize, u64)>)
    requires
        i <= cs@.len(),
    ensures
        r matches Some((j, v)) ==> hex(cs@, i as int) == Some((j as int, v)) && i < j <= cs@.len(),
        r is None ==> hex(cs@, i as int) is None,
{
    let len = cs.len();
    proof {
        reveal_strlit("0x");
    }
    if has_lit(cs, i, "0x") {
        unsigned_at(cs, i + 2, CharClass::Hex, 16, u64::MAX)
    } else {
        None
    }
}

fn oct_at(cs: &[char], i: usize) -> (r: Option<(usize, u64)>)
    requires
        i <= cs@.len(),
    ensures
        r matches Some((j, v)) ==> oct(cs@, i as int) == Some((j as int, v)) && i < j <= cs@.len(),
        r is None ==> oct(cs@, i as int) is None,
{
    let len = cs.len();
    if has_char(cs, i, '0') {
        unsigned_at(cs, i + 1, CharClass::Oct, 8, u64::MAX)
    } else {
        None
    }
}

fn signed_at(cs: &[char], i: usize, max: u64) -> (r: Option<(usize, i64)>)
    requires
        i <= cs@.len(),
        max <= i64::MAX,
    ensures
        r matches Some((j, v)) ==> signed(cs@, i as int, max as nat) == Some((j as int, v as int))
            && i < j <= cs@.len(),
        r is None ==> signed(cs@, i as int, max as nat) is None,
{
    let len = cs.len();
    let neg = has_char(cs, i, '-');
    let a = if neg {
        i + 1
    } else {
        i
    };
    match unsigned_at(cs, a, CharClass::Dec, 10, max) {
        Some((j, v)) => {
            let v = v as i64;
            if neg {
                Some((j, -v))
            } else {
                Some((j, v))
            }
        },
        None => None,
    }
}

fn string_body_at(cs: &[char], p: usize) -> (r: Option<usize>)
    requires
        p <= cs@.len(),
    ensures
        r matches Some(e) ==> string_body(cs@, p as int) == Some(e as int) && p <= e < cs@.len(),
        r is None ==> string_body(cs@, p as int) is None,
{
    let mut q = p;
    loop
        invariant
            p <= q <= cs@.len(),
            string_body(cs@, q as int) == string_body(cs@, p as int),
        decreases cs@.len() - q,
    {
        if q >= cs.len() {
            return None;
        } else if cs[q] == '"' {
            return Some(q);
        } else if cs[q] == '\\' {
            if q + 1 < cs.len() && cs[q + 1] == '"' {
                q = q + 2;
            } else {
                return None;
            }
        } else {
            q = q + 1;
        }
    }
}

fn string_value_at(cs: &[char], i: usize) -> (r: Option<(usize, StringValue)>)
    requires
        i <= cs@.len(),
    ensures
        r matches Some((j, v)) ==> string_value(cs@, i as int) == Some((j as int, v.model()))
            && i < j <= cs@.len(),
        r is None ==> string_value(cs@, i as int) is None,
{
    let len = cs.len();
    proof {
        reveal_strlit("...");
    }
    if has_char(cs, i, '"') {
        match string_body_at(cs, i + 1) {
            Some(e) => {
                let body = text(cs, i + 1, e);
                if has_lit(cs, e + 1, "...") {
                    Some((e + 4, StringValue::Clipped(body)))
                } else {
                    Some((e + 1, StringValue::Complete(body)))
                }
            },
            None => None,
        }
    } else {
        None
    }
}

fn comment_at(cs: &[char], i: usize) -> (r: Option<usize>)
    requires
        i <= cs@.len(),
    ensures
        r matches Some(e) ==> comment(cs@, i as int) == Some(e as int) && i < e <= cs@.len(),
        r is None ==> comment(cs@, i as int) is None,
{
    let len = cs.len();
    proof {
        reveal_strlit("/*");
        reveal_strlit("*/");
    }
    if has_lit(cs, i, "/*") {
        match find_lit(cs, i + 2, "*/") {
            Some(k) => {
                proof {
                    super::lex::lemma_find_from(cs@, i + 2, "*/"@);
                }
                Some(k + 2)
            },
            None => None,
        }
    } else {
        None
    }
}

fn int_tail_at(cs: &[char], j: usize) -> (k: usize)
    requires
        j <= cs@.len(),
    ensures
        k == int_tail(cs@, j as int),
        j <= k <= cs@.len(),
{
    let a = ws_at(cs, j);
    match comment_at(cs, a) {
        Some(e) => ws_at(cs, e),
        None => j,
    }
}

fn record_tail_at(cs: &[char], j: usize) -> (k: usize)
    requires
        j <= cs@.len(),
    ensures
        k == record_tail(cs@, j as int),
        j <= k <= cs@.len(),
{
    let a = ws_at(cs, j);
    match comment_at(cs, a) {
        Some(e) => ws_at(cs, e),
        None => a,
    }
}

fn flag_set_at(cs: &[char], i: usize) -> (r: (usize, FlagSet))
    requires
        i <= cs@.len(),
    ensures
        flag_set(cs@, i as int) == (r.0 as int, strings_model(r.1.0@)),
        i <= r.0 <= cs@.len(),
{
    let len = cs.len();
    let j = scan(cs, i, CharClass::FlagChar);
    let mut out: Vec<String> = Vec::new();
    if j == i {
        assert(strings_model(out@) =~= seq![]);
        return (i, FlagSet(out));
    }
    out.push(text(cs, i, j));
    let mut p = j;
    let ghost target = flags_more(cs@, j as int);
    assert(flag_set(cs@, i as int) == (target.0, seq![cs@.subrange(i as int, j as int)] + target.1));
    loop
        invariant
            flag_set(cs@, i as int) == (target.0, seq![cs@.subrange(i as int, j as int)] + target.1),
            len == cs@.len(),
            i < j <= p <= cs@.len(),
            j == span(cs@, i as int, CharClass::FlagChar),
            flags_more(cs@, p as int).0 == target.0,
            strings_model(out@) + flags_more(cs@, p as int).1 == seq![cs@.subrange(i as int, j as int)] + target.1,
        decreases cs@.len() - p,
    {
        if has_char(cs, p, '|') {
            let k = scan(cs, p + 1, CharClass::FlagChar);
            if k > p + 1 {
                let ghost before = strings_model(out@);
                let piece = text(cs, p + 1, k);
                out.push(piece);
                proof {
                    assert(strings_model(out@) =~= before.push(cs@.subrange(p + 1, k as int)));
                    assert(flags_more(cs@, p as int).1 =~= seq![cs@.subrange(p + 1, k as int)] + flags_more(cs@, k as int).1);
                    assert(strings_model(out@) + flags_more(cs@, k as int).1 =~= before + flags_more(cs@, p as int).1);
                }
                p = k;
            } else {
                assert(strings_model(out@) =~= strings_model(out@) + flags_more(cs@, p as int).1);
                return (p, FlagSet(out));
            }
        } else {
            assert(flags_more(cs@, p as int).1 =~= Seq::<Seq<char>>::empty());
            assert(strings_model(out@) =~= strings_model(out@) + flags_more(cs@, p as int).1);
            return (p, FlagSet(out));
        }
    }
}

fn value_at(cs: &[char], i: usize) -> (r: Option<(usize, Value)>)
    requires
        i <= cs@.len(),
    ensures
        r matches Some((j, v)) ==> value(cs@, i as int) == Some((j as int, v.model())) && i <= j
            <= cs@.len(),
        r is None ==> value(cs@, i as int) is None,
    decreases cs@.len() - i, 8int,
{
    let len = cs.len();
    if let Some((j, v)) = hex_at(cs, i) {
        return Some((ws_at(cs, j), Value::Addr(v)));
    }
    if let Some((j, c)) = call_value_at(cs, i) {
        return Some((ws_at(cs, j), Value::Call(c)));
    }
    if let Some(j) = ident_at(cs, i) {
        let k = ws_at(cs, j);
        if has_char(cs, k, '|') {
            let (m, fs) = flag_set_at(cs, i);
            return Some((ws_at(cs, m), Value::FlagSet(fs)));
        } else {
            return Some((k, Value::Ident(text(cs, i, j))));
        }
    }
    if let Some((j, v)) = oct_at(cs, i) {
        return Some((j, Value::Oct(v)));
    }
    if let Some((j, v)) = signed_at(cs, i, 0x7fff_ffff_ffff_ffffu64) {
        return Some((int_tail_at(cs, j), Value::Int(v)));
    }
    if let Some((j, sv)) = string_value_at(cs, i) {
        return Some((ws_at(cs, j), Value::String(sv)));
    }
    if has_char(cs, i, '[') {
        let (j, vs) = list_at(cs, i + 1);
        if has_char(cs, j, ']') {
            Some((j + 1, Value::List(vs)))
        } else {
            None
        }
    } else if has_char(cs, i, '~') {
        if has_char(cs, i + 1, '[') {
            let (j, vs) = inv_at(cs, i + 2);
            if has_char(cs, j, ']') {
                Some((j + 1, Value::InverseList(vs)))
            } else {
                None
            }
        } else {
            None
        }
    } else if has_char(cs, i, '{') {
        match record_value_at(cs, i) {
            Some((j, r)) => Some((record_tail_at(cs, ws_at(cs, j)), Value::Record(r))),
            None => None,
        }
    } else {
        None
    }
}

fn call_value_at(cs: &[char], i: usize) -> (r: Option<(usize, CallValue)>)
    requires
        i <= cs@.len(),
    ensures
        r matches Some((j, c)) ==> call_value(cs@, i as int) == Some((j as int, c.model())) && i
            <= j <= cs@.len(),
        r is None ==> call_value(cs@, i as int) is None,
    decreases cs@.len() - i, 7int,
{
    let len = cs.len();
    match ident_at(cs, i) {
        Some(j) => if has_char(cs, j, '(') {
            let (k, args) = call_args_at(cs, j + 1);
            if has_char(cs, k, ')') {
                Some((k + 1, CallValue { func: text(cs, i, j), args }))
            } else {
                None
            }
        } else {
            None
        },
        None => None,
    }
}

fn call_args_at(cs: &[char], i: usize) -> (r: (usize, Vec<Value>))
    requires
        i <= cs@.len(),
    ensures
        call_args_first(cs@, i as int) == (r.0 as int, values_model(r.1@)),
        i <= r.0 <= cs@.len(),
    decreases cs@.len() - i, 10int,
{
    let len = cs.len();
    let a = ws_at(cs, i);
    let mut out: Vec<Value> = Vec::new();
    match value_at(cs, a) {
        None => {
            assert(values_model(out@) =~= seq![]);
            (i, out)
        },
        Some((j, v)) => {
            let ghost vm = v.model();
            out.push(v);
            proof {
                lemma_values_model_push(seq![], v);
                assert(seq![].push(v) =~= out@);
                assert(values_model(Seq::<Value>::empty()) =~= seq![]);
            }
            let b = ws_at(cs, j);
            let ghost target = call_args_more(cs@, b as int);
            let mut p = b;
            loop
                invariant
                    len == cs@.len(),
                    i <= p <= cs@.len(),
                    call_args_first(cs@, i as int) == (target.0, seq![vm] + target.1),
                    call_args_more(cs@, p as int).0 == target.0,
                    values_model(out@) + call_args_more(cs@, p as int).1 == seq![vm] + target.1,
                decreases cs@.len() - p,
            {
                if has_char(cs, p, ',') {
                    let a2 = ws_at(cs, p + 1);
                    match value_at(cs, a2) {
                        Some((k, w)) => {
                            let b2 = ws_at(cs, k);
                            let ghost before = values_model(out@);
                            proof {
                                lemma_values_model_push(out@, w);
                            }
                            let ghost wm = w.model();
                            out.push(w);
                            assert(call_args_more(cs@, p as int).1 =~= seq![wm] + call_args_more(
                                cs@,
                                b2 as int,
                            ).1);
                            assert(values_model(out@) + call_args_more(cs@, b2 as int).1 =~= before
                                + call_args_more(cs@, p as int).1);
                            p = b2;
                        },
                        None => {
                            assert(values_model(out@) =~= values_model(out@) + call_args_more(
                                cs@,
                                p as int,
                            ).1);
                            return (p, out);
                        },
                    }
                } else {
                    assert(values_model(out@) =~= values_model(out@) + call_args_more(
                        cs@,
                        p as int,
                    ).1);
                    return (p, out);
                }
            }
        },
    }
}

fn list_at(cs: &[char], i: usize) -> (r: (usize, Vec<Value>))
    requires
        i <= cs@.len(),
    ensures
        list_first(cs@, i as int) == (r.0 as int, values_model(r.1@)),
        i <= r.0 <= cs@.len(),
    decreases cs@.len() - i, 10int,
{
    let len = cs.len();
    let mut out: Vec<Value> = Vec::new();
    match value_at(cs, i) {
        None => {
            assert(values_model(out@) =~= seq![]);
            (i, out)
        },
        Some((j, v)) => {
            let ghost vm = v.model();
            out.push(v);
            proof {
                lemma_values_model_push(seq![], v);
                assert(seq![].push(v) =~= out@);
                assert(values_model(Seq::<Value>::empty()) =~= seq![]);
            }
            let ghost target = list_more(cs@, j as int);
            let mut p = j;
            loop
                invariant
                    len == cs@.len(),
                    i <= p <= cs@.len(),
                    list_first(cs@, i as int) == (target.0, seq![vm] + target.1),
                    list_more(cs@, p as int).0 == target.0,
                    values_model(out@) + list_more(cs@, p as int).1 == seq![vm] + target.1,
                decreases cs@.len() - p,
            {
                proof {
                    reveal_strlit(", ");
                }
                let sep = if p < len && (cs[p] == ' ' || cs[p] == '\t') {
                    Some(ws_at(cs, p))
                } else if has_lit(cs, p, ", ") {
                    Some(p + 2)
                } else {
                    None
                };
                proof {
                    reveal_strlit(", ");
                    assert(sep matches Some(a) ==> list_sep(cs@, p as int) == Some(a as int));
                    if p < len && in_class(CharClass::Space, cs@[p as int]) {
                        lemma_span(cs@, p + 1, CharClass::Space);
                    }
                }
                match sep {
                    Some(a2) => match value_at(cs, a2) {
                        Some((k, w)) => {
                            let ghost before = values_model(out@);
                            proof {
                                lemma_values_model_push(out@, w);
                            }
                            let ghost wm = w.model();
                            out.push(w);
                            assert(list_more(cs@, p as int).1 =~= seq![wm] + list_more(
                                cs@,
                                k as int,
                            ).1);
                            assert(values_model(out@) + list_more(cs@, k as int).1 =~= before
                                + list_more(cs@, p as int).1);
                            p = k;
                        },
                        None => {
                            assert(values_model(out@) =~= values_model(out@) + list_more(
                                cs@,
                                p as int,
                            ).1);
                            return (p, out);
                        },
                    },
                    None => {
                        assert(values_model(out@) =~= values_model(out@) + list_more(
                            cs@,
                            p as int,
                        ).1);
                        return (p, out);
                    },
                }
            }
        },
    }
}

fn inv_at(cs: &[char], i: usize) -> (r: (usize, Vec<Value>))
    requires
        i <= cs@.len(),
    ensures
        inv_first(cs@, i as int) == (r.0 as int, values_model(r.1@)),
        i <= r.0 <= cs@.len(),
    decreases cs@.len() - i, 10int,
{
    let len = cs.len();
    let mut out: Vec<Value> = Vec::new();
    match value_at(cs, i) {
        None => {
            assert(values_model(out@) =~= seq![]);
            (i, out)
        },
        Some((j, v)) => {
            let ghost vm = v.model();
            out.push(v);
            proof {
                lemma_values_model_push(seq![], v);
                assert(seq![].push(v) =~= out@);
                assert(values_model(Seq::<Value>::empty()) =~= seq![]);
            }
            let ghost target = inv_more(cs@, j as int);
            let mut p = j;
            loop
                invariant
                    len == cs@.len(),
                    i <= p <= cs@.len(),
                    inv_first(cs@, i as int) == (target.0, seq![vm] + target.1),
                    inv_more(cs@, p as int).0 == target.0,
                    values_model(out@) + inv_more(cs@, p as int).1 == seq![vm] + target.1,
                decreases cs@.len() - p,
            {
                if has_char(cs, p, ' ') {
                    match value_at(cs, p + 1) {
                        Some((k, w)) => {
                            let ghost before = values_model(out@);
                            proof {
                                lemma_values_model_push(out@, w);
                            }
                            let ghost wm = w.model();
                            out.push(w);
                            assert(inv_more(cs@, p as int).1 =~= seq![wm] + inv_more(
                                cs@,
                                k as int,
                            ).1);
                            assert(values_model(out@) + inv_more(cs@, k as int).1 =~= before
                                + inv_more(cs@, p as int).1);
                            p = k;
                        },
                        None => {
                            assert(values_model(out@) =~= values_model(out@) + inv_more(
                                cs@,
                                p as int,
                            ).1);
                            return (p, out);
                        },
                    }
                } else {
                    assert(values_model(out@) =~= values_model(out@) + inv_more(
                        cs@,
                        p as int,
                    ).1);
                    return (p, out);
                }
            }
        },
    }
}

fn record_value_at(cs: &[char], i: usize) -> (r: Option<(usize, RecordValue)>)
    requires
        i <= cs@.len(),
    ensures
        r matches Some((j, rv)) ==> record_value(cs@, i as int) == Some(
            (j as int, members_model(rv.0@)),
        ) && i <= j <= cs@.len(),
        r is None ==> record_value(cs@, i as int) is None,
    decreases cs@.len() - i, 7int,
{
    let len = cs.len();
    if has_char(cs, i, '{') {
        let (j, ms) = members_at(cs, i + 1);
        if has_char(cs, j, '}') {
            Some((j + 1, RecordValue(ms)))
        } else {
            None
        }
    } else {
        None
    }
}

fn members_at(cs: &[char], i: usize) -> (r: (usize, Vec<RecordMember>))
    requires
        i <= cs@.len(),
    ensures
        members_first(cs@, i as int) == (r.0 as int, members_model(r.1@)),
        i <= r.0 <= cs@.len(),
    decreases cs@.len() - i, 10int,
{
    let len = cs.len();
    let a = ws_at(cs, i);
    let mut out: Vec<RecordMember> = Vec::new();
    match record_member_at(cs, a) {
        None => {
            assert(members_model(out@) =~= seq![]);
            (i, out)
        },
        Some((j, m)) => {
            let ghost mm = m.model();
            out.push(m);
            proof {
                lemma_members_model_push(seq![], m);
                assert(seq![].push(m) =~= out@);
                assert(members_model(Seq::<RecordMember>::empty()) =~= seq![]);
            }
            let b = ws_at(cs, j);
            let ghost target = members_more(cs@, b as int);
            let mut p = b;
            loop
                invariant
                    len == cs@.len(),
                    i <= p <= cs@.len(),
                    members_first(cs@, i as int) == (target.0, seq![mm] + target.1),
                    members_more(cs@, p as int).0 == target.0,
                    members_model(out@) + members_more(cs@, p as int).1 == seq![mm] + target.1,
                decreases cs@.len() - p,
            {
                if has_char(cs, p, ',') {
                    let a2 = ws_at(cs, p + 1);
                    match record_member_at(cs, a2) {
                        Some((k, w)) => {
                            let b2 = ws_at(cs, k);
                            let ghost before = members_model(out@);
                            proof {
                                lemma_members_model_push(out@, w);
                            }
                            let ghost wm = w.model();
                            out.push(w);
                            assert(members_more(cs@, p as int).1 =~= seq![wm] + members_more(
                                cs@,
                                b2 as int,
                            ).1);
                            assert(members_model(out@) + members_more(cs@, b2 as int).1 =~= before
                                + members_more(cs@, p as int).1);
                            p = b2;
                        },
                        None => {
                            assert(members_model(out@) =~= members_model(out@) + members_more(
                                cs@,
                                p as int,
                            ).1);
                            return (p, out);
                        },
                    }
                } else {
                    assert(members_model(out@) =~= members_model(out@) + members_more(
                        cs@,
                        p as int,
                    ).1);
                    return (p, out);
                }
            }
        },
    }
}

fn record_member_at(cs: &[char], i: usize) -> (r: Option<(usize, RecordMember)>)
    requires
        i <= cs@.len(),
    ensures
        r matches Some((j, m)) ==> record_member(cs@, i as int) == Some((j as int, m.model())) && i
            <= j <= cs@.len(),
        r is None ==> record_member(cs@, i as int) is None,
    decreases cs@.len() - i, 9int,
{
    let len = cs.len();
    match ident_at(cs, i) {
        Some(j) => if has_char(cs, j, '=') {
            match arg_at(cs, j + 1) {
                Some((k, a)) => Some((k, RecordMember { name: text(cs, i, j), value: a })),
                None => None,
            }
        } else {
            None
        },
        None => None,
    }
}

fn arg_at(cs: &[char], i: usize) -> (r: Option<(usize, Arg)>)
    requires
        i <= cs@.len(),
    ensures
        r matches Some((j, a)) ==> arg(cs@, i as int) == Some((j as int, a.model())) && i <= j
            <= cs@.len(),
        r is None ==> arg(cs@, i as int) is None,
    decreases cs@.len() - i, 9int,
{
    let len = cs.len();
    let a = ws_at(cs, i);
    match value_at(cs, a) {
        Some((j, v)) => {
            let b = ws_at(cs, j);
            let c = ws_at(cs, b);
            proof {
                reveal_strlit("=>");
            }
            if has_lit(cs, c, "=>") {
                let d = ws_at(cs, c + 2);
                match value_at(cs, ws_at(cs, d)) {
                    Some((f, w)) => Some((ws_at(cs, f), Arg { value: v, changed: Some(w) })),
                    None => Some((b, Arg { value: v, changed: None })),
                }
            } else {
                Some((b, Arg { value: v, changed: None }))
            }
        },
        None => None,
    }
}

fn parens_at(cs: &[char], k: usize) -> (r: Option<usize>)
    requires
        k <= cs@.len(),
    ensures
        r matches Some(m) ==> parens(cs@, k as int) == Some(m as int) && k < m <= cs@.len(),
        r is None ==> parens(cs@, k as int) is None,
{
    let len = cs.len();
    if has_char(cs, k, '(') {
        let m = scan(cs, k + 1, CharClass::NotCloseParen);
        if m > k + 1 && has_char(cs, m, ')') {
            Some(m + 1)
        } else {
            None
        }
    } else {
        None
    }
}

fn errno_at(cs: &[char], i: usize) -> (r: Option<(usize, Errno)>)
    requires
        i <= cs@.len(),
    ensures
        r matches Some((j, e)) ==> errno(cs@, i as int) == Some((j as int, e.0@)) && i < j
            <= cs@.len(),
        r is None ==> errno(cs@, i as int) is None,
{
    let j = scan(cs, i, CharClass::Upper);
    if j > i {
        let k = scan(cs, j, CharClass::MultiSpace);
        if k > j {
            match parens_at(cs, k) {
                Some(m) => Some((m, Errno(text(cs, i, j)))),
                None => None,
            }
        } else {
            None
        }
    } else {
        None
    }
}

fn decoded_at(cs: &[char], i: usize) -> (r: Option<(usize, DecodedRetValue)>)
    requires
        i <= cs@.len(),
    ensures
        r matches Some((j, d)) ==> decoded(cs@, i as int) == Some((j as int, d.model())) && i
            <= j <= cs@.len(),
        r is None ==> decoded(cs@, i as int) is None,
{
    let len = cs.len();
    let a = ws_at(cs, i);
    proof {
        reveal_strlit("flags");
    }
    match errno_at(cs, a) {
        Some((j, e)) => Some((ws_at(cs, j), DecodedRetValue::Errno(e))),
        None => if has_char(cs, a, '(') && has_lit(cs, a + 1, "flags") {
            let (c, fs) = flag_set_at(cs, ws_at(cs, a + 6));
            let d = ws_at(cs, c);
            if has_char(cs, d, ')') {
                Some((ws_at(cs, d + 1), DecodedRetValue::Flags(fs)))
            } else {
                None
            }
        } else {
            None
        },
    }
}

fn call_result_at(cs: &[char], i: usize) -> (r: Option<(usize, CallResult)>)
    requires
        i <= cs@.len(),
    ensures
        r matches Some((j, c)) ==> call_result(cs@, i as int) == Some((j as int, c.model())) && i
            <= j <= cs@.len(),
        r is None ==> call_result(cs@, i as int) is None,
{
    match value_at(cs, i) {
        Some((j, v)) => match decoded_at(cs, ws_at(cs, j)) {
            Some((k, d)) => Some((ws_at(cs, k), CallResult { ret: v, decoded: Some(d) })),
            None => Some((j, CallResult { ret: v, decoded: None })),
        },
        None => None,
    }
}

fn finish_at(cs: &[char], m: usize) -> (r: Option<(usize, Option<CallResult>)>)
    requires
        m <= cs@.len(),
    ensures
        r matches Some((j, c)) ==> finish(cs@, m as int) == Some(
            (
                j as int,
                match c {
                    Some(c) => Some(c.model()),
                    None => None,
                },
            ),
        ) && m <= j <= cs@.len(),
        r is None ==> finish(cs@, m as int) is None,
{
    let len = cs.len();
    let a = ws_at(cs, m);
    if has_char(cs, a, ')') {
        let c = ws_at(cs, ws_at(cs, a + 1));
        if has_char(cs, c, '=') {
            let d = ws_at(cs, c + 1);
            let e = ws_at(cs, d);
            if has_char(cs, e, '?') {
                Some((ws_at(cs, e + 1), None))
            } else {
                match call_result_at(cs, ws_at(cs, d)) {
                    Some((g, cr)) => Some((ws_at(cs, g), Some(cr))),
                    None => None,
                }
            }
        } else {
            None
        }
    } else {
        None
    }
}

fn event_args_at(cs: &[char], i: usize) -> (r: (usize, Vec<Arg>))
    requires
        i <= cs@.len(),
    ensures
        event_args_first(cs@, i as int) == (r.0 as int, args_model(r.1@)),
        i <= r.0 <= cs@.len(),
{
    let len = cs.len();
    let mut out: Vec<Arg> = Vec::new();
    match arg_at(cs, ws_at(cs, i)) {
        None => {
            assert(args_model(out@) =~= seq![]);
            (i, out)
        },
        Some((j, a)) => {
            let ghost am = a.model();
            out.push(a);
            assert(args_model(out@) =~= seq![am]);
            let b = ws_at(cs, j);
            let ghost target = event_args_more(cs@, b as int);
            let mut p = b;
            loop
                invariant
                    len == cs@.len(),
                    i <= p <= cs@.len(),
                    event_args_first(cs@, i as int) == (target.0, seq![am] + target.1),
                    event_args_more(cs@, p as int).0 == target.0,
                    args_model(out@) + event_args_more(cs@, p as int).1 == seq![am] + target.1,
                decreases cs@.len() - p,
            {
                if has_char(cs, p, ',') {
                    match arg_at(cs, ws_at(cs, p + 1)) {
                        Some((k, w)) => {
                            let b2 = ws_at(cs, k);
                            let ghost before = args_model(out@);
                            let ghost wm = w.model();
                            out.push(w);
                            assert(args_model(out@) =~= before.push(wm));
                            assert(event_args_more(cs@, p as int).1 =~= seq![wm]
                                + event_args_more(cs@, b2 as int).1);
                            assert(args_model(out@) + event_args_more(cs@, b2 as int).1 =~= before
                                + event_args_more(cs@, p as int).1);
                            p = b2;
                        },
                        None => {
                            assert(args_model(out@) =~= args_model(out@) + event_args_more(
                                cs@,
                                p as int,
                            ).1);
                            return (p, out);
                        },
                    }
                } else {
                    assert(args_model(out@) =~= args_model(out@) + event_args_more(
                        cs@,
                        p as int,
                    ).1);
                    return (p, out);
                }
            }
        },
    }
}

fn resumed_tag_at(cs: &[char], i: usize) -> (r: Option<(usize, String)>)
    requires
        i <= cs@.len(),
    ensures
        r matches Some((j, f)) ==> resumed_tag(cs@, i as int) == Some((j as int, f@)) && i < j
            <= cs@.len(),
        r is None ==> resumed_tag(cs@, i as int) is None,
{
    let len = cs.len();
    proof {
        reveal_strlit("...");
        reveal_strlit("resumed");
    }
    if has_char(cs, i, '<') && has_lit(cs, i + 1, "...") {
        let a = ws_at(cs, i + 4);
        match ident_at(cs, a) {
            Some(j) => {
                let b = ws_at(cs, j);
                if has_lit(cs, b, "resumed") && has_char(cs, b + 7, '>') {
                    Some((b + 8, text(cs, a, j)))
                } else {
                    None
                }
            },
            None => None,
        }
    } else {
        None
    }
}

fn resuming_at(cs: &[char], a: usize) -> (r: usize)
    requires
        a <= cs@.len(),
    ensures
        r == resuming(cs@, a as int),
        a <= r <= cs@.len(),
{
    let len = cs.len();
    proof {
        reveal_strlit("<... resuming interrupted");
        reveal_strlit("...>");
    }
    let b = ws_at(cs, a);
    if has_lit(cs, b, "<... resuming interrupted") {
        match ident_at(cs, ws_at(cs, b + 25)) {
            Some(e) => {
                let f = ws_at(cs, e);
                if has_lit(cs, f, "...>") {
                    ws_at(cs, f + 4)
                } else {
                    a
                }
            },
            None => a,
        }
    } else {
        a
    }
}

fn normal_at(cs: &[char], i: usize) -> (r: Option<(usize, NormalThreadEvent)>)
    requires
        i <= cs@.len(),
    ensures
        r matches Some((j, n)) ==> normal(cs@, i as int) == Some(
            (j as int, EventModel::Normal(n.func@, n.case.model())),
        ) && i <= j <= cs@.len(),
        r is None ==> normal(cs@, i as int) is None,
{
    let len = cs.len();
    proof {
        reveal_strlit("=>");
        reveal_strlit("<unfinished ...>");
        reveal_strlit("<detached ...>");
    }
    match resumed_tag_at(cs, i) {
        Some((j, func)) => {
            let b = ws_at(cs, j);
            let c = ws_at(cs, b);
            let prev: Option<(usize, Option<Value>)> = if has_lit(cs, c, "=>") {
                match value_at(cs, ws_at(cs, ws_at(cs, c + 2))) {
                    Some((f, w)) => {
                        let h = ws_at(cs, ws_at(cs, f));
                        if has_char(cs, h, ',') {
                            Some((ws_at(cs, h + 1), Some(w)))
                        } else {
                            None
                        }
                    },
                    None => None,
                }
            } else {
                Some((b, None))
            };
            match prev {
                Some((k, prev_changed)) => {
                    let (m, args) = event_args_at(cs, k);
                    match finish_at(cs, m) {
                        Some((p, call_result)) => Some(
                            (
                                p,
                                NormalThreadEvent {
                                    func,
                                    case: NonExitEvent::Resumed(
                                        FinishedEvent { prev_changed, args, call_result },
                                    ),
                                },
                            ),
                        ),
                        None => None,
                    }
                },
                None => None,
            }
        },
        None => match ident_at(cs, i) {
            Some(j) => if has_char(cs, j, '(') {
                let func = text(cs, i, j);
                let (m, args) = event_args_at(cs, resuming_at(cs, j + 1));
                let x = ws_at(cs, m);
                let n = if has_char(cs, x, ',') {
                    ws_at(cs, x + 1)
                } else {
                    m
                };
                if has_lit(cs, n, "<unfinished ...>") {
                    Some(
                        (
                            ws_at(cs, n + 16),
                            NormalThreadEvent { func, case: NonExitEvent::Unfinished(Unfinished { args }) },
                        ),
                    )
                } else if has_lit(cs, n, "<detached ...>") {
                    Some(
                        (
                            ws_at(cs, n + 14),
                            NormalThreadEvent { func, case: NonExitEvent::Detached(Unfinished { args }) },
                        ),
                    )
                } else {
                    match finish_at(cs, n) {
                        Some((p, call_result)) => Some(
                            (
                                p,
                                NormalThreadEvent {
                                    func,
                                    case: NonExitEvent::Complete(
                                        FinishedEvent { prev_changed: None, args, call_result },
                                    ),
                                },
                            ),
                        ),
                        None => None,
                    }
                }
            } else {
                None
            },
            None => None,
        },
    }
}

fn exit_at(cs: &[char], i: usize) -> (r: Option<(usize, ExitThreadEvent)>)
    requires
        i <= cs@.len(),
    ensures
        r matches Some((j, e)) ==> exit(cs@, i as int) == Some((j as int, e.status)) && i < j
            <= cs@.len(),
        r is None ==> exit(cs@, i as int) is None,
{
    let len = cs.len();
    proof {
        reveal_strlit("+++ exited with ");
        reveal_strlit(" +++");
    }
    if has_lit(cs, i, "+++ exited with ") {
        match unsigned_at(cs, i + 16, CharClass::Dec, 10, 0xffff_ffffu64) {
            Some((j, v)) => if has_lit(cs, j, " +++") {
                Some((j + 4, ExitThreadEvent { status: v as u32 }))
            } else {
                None
            },
            None => None,
        }
    } else {
        None
    }
}

fn event_at(cs: &[char], i: usize) -> (r: Option<(usize, Event)>)
    requires
        i <= cs@.len(),
    ensures
        r matches Some((j, e)) ==> event(cs@, i as int) == Some((j as int, e.model())) && i <= j
            <= cs@.len(),
        r is None ==> event(cs@, i as int) is None,
{
    let a = ws_at(cs, i);
    match exit_at(cs, a) {
        Some((j, e)) => Some((ws_at(cs, j), Event::Exit(e))),
        None => match normal_at(cs, a) {
            Some((j, n)) => Some((ws_at(cs, j), Event::Normal(n))),
            None => None,
        },
    }
}

fn thread_event_at(cs: &[char], i: usize) -> (r: Option<(usize, ThreadEvent)>)
    requires
        i <= cs@.len(),
    ensures
        r matches Some((j, e)) ==> thread_event(cs@, i as int) == Some((j as int, e.model()))
            && i <= j <= cs@.len(),
        r is None ==> thread_event(cs@, i as int) is None,
{
    match signed_at(cs, ws_at(cs, i), 0x7fff_ffffu64) {
        Some((j, pid)) => match event_at(cs, ws_at(cs, ws_at(cs, j))) {
            Some((k, e)) => Some((ws_at(cs, k), ThreadEvent { pid: pid as i32, event: e })),
            None => None,
        },
        None => None,
    }
}

fn events_at(cs: &[char], i: usize) -> (r: (usize, Vec<ThreadEvent>))
    requires
        i <= cs@.len(),
    ensures
        events_first(cs@, i as int) == (r.0 as int, events_model(r.1@)),
        i <= r.0 <= cs@.len(),
{
    let len = cs.len();
    let mut out: Vec<ThreadEvent> = Vec::new();
    match thread_event_at(cs, ws_at(cs, i)) {
        None => {
            assert(events_model(out@) =~= seq![]);
            (i, out)
        },
        Some((j, e)) => {
            let ghost em = e.model();
            out.push(e);
            assert(events_model(out@) =~= seq![em]);
            let b = ws_at(cs, j);
            let ghost target = events_more(cs@, b as int);
            let mut p = b;
            loop
                invariant
                    len == cs@.len(),
                    i <= p <= cs@.len(),
                    events_first(cs@, i as int) == (target.0, seq![em] + target.1),
                    events_more(cs@, p as int).0 == target.0,
                    events_model(out@) + events_more(cs@, p as int).1 == seq![em] + target.1,
                decreases cs@.len() - p,
            {
                if has_char(cs, p, '\n') {
                    match thread_event_at(cs, ws_at(cs, p + 1)) {
                        Some((k, w)) => {
                            let b2 = ws_at(cs, k);
                            let ghost before = events_model(out@);
                            let ghost wm = w.model();
                            out.push(w);
                            assert(events_model(out@) =~= before.push(wm));
                            assert(events_more(cs@, p as int).1 =~= seq![wm] + events_more(
                                cs@,
                                b2 as int,
                            ).1);
                            assert(events_model(out@) + events_more(cs@, b2 as int).1 =~= before
                                + events_more(cs@, p as int).1);
                            p = b2;
                        },
                        None => {
                            assert(events_model(out@) =~= events_model(out@) + events_more(
                                cs@,
                                p as int,
                            ).1);
                            return (p, out);
                        },
                    }
                } else {
                    assert(events_model(out@) =~= events_model(out@) + events_more(
                        cs@,
                        p as int,
                    ).1);
                    return (p, out);
                }
            }
        },
    }
}

/// `rest` is what is left of `s` after a parser that gave back `r` read `m`.
pub open spec fn parsed<T>(s: Seq<char>, r: Option<(int, T)>, rest: Seq<char>, m: T) -> bool {
    &&& r == Some((s.len() - rest.len(), m))
    &&& rest == s.subrange(s.len() - rest.len(), s.len() as int)
}

impl Trace {
    /// Reads a whole trace, one thread event per line, with whitespace
    /// around; gives back what is left after the last event it could read.
    pub fn parse(input: &str) -> (r: (&str, Trace))
        ensures
            r.0@ == input@.subrange(trace(input@).0, input@.len() as int),
            events_model(r.1.events@) == trace(input@).1,
    {
        let cs = chars_of(input);
        let c = cs.as_slice();
        let a = ws_at(c, scan(c, 0, CharClass::MultiSpace));
        let (k, events) = events_at(c, a);
        let e = scan(c, ws_at(c, k), CharClass::MultiSpace);
        (input.substring_char(e, cs.len()), Trace { events })
    }
}

impl FlagSet {
    /// Reads flag names separated by `|`; possibly none.
    pub fn parse(input: &str) -> (r: (&str, FlagSet))
        ensures
            r.0@ == input@.subrange(flag_set(input@, 0).0, input@.len() as int),
            strings_model(r.1.0@) == flag_set(input@, 0).1,
    {
        let cs = chars_of(input);
        let (k, fs) = flag_set_at(cs.as_slice(), 0);
        (input.substring_char(k, cs.len()), fs)
    }
}

impl ThreadEvent {
    /// Reads a line of the trace: a thread id and what the thread did.
    pub fn parse(input: &str) -> (r: Option<(&str, ThreadEvent)>)
        ensures
            r matches Some((rest, v)) ==> parsed(input@, thread_event(input@, 0), rest@, v.model()),
            r is None ==> thread_event(input@, 0) is None,
    {
        let cs = chars_of(input);
        match thread_event_at(cs.as_slice(), 0) {
            Some((j, v)) => Some((input.substring_char(j, cs.len()), v)),
            None => None,
        }
    }
}

impl Event {
    /// Reads what a thread did: exit, or a call.
    pub fn parse(input: &str) -> (r: Option<(&str, Event)>)
        ensures
            r matches Some((rest, v)) ==> parsed(input@, event(input@, 0), rest@, v.model()),
            r is None ==> event(input@, 0) is None,
    {
        let cs = chars_of(input);
        match event_at(cs.as_slice(), 0) {
            Some((j, v)) => Some((input.substring_char(j, cs.len()), v)),
            None => None,
        }
    }
}

impl NormalThreadEvent {
    /// Reads a call: resumed, unfinished, detached or complete.
    pub fn parse(input: &str) -> (r: Option<(&str, NormalThreadEvent)>)
        ensures
            r matches Some((rest, v)) ==> parsed(input@, normal(input@, 0), rest@, EventModel::Normal(v.func@, v.case.model())),
            r is None ==> normal(input@, 0) is None,
    {
        let cs = chars_of(input);
        match normal_at(cs.as_slice(), 0) {
            Some((j, v)) => Some((input.substring_char(j, cs.len()), v)),
            None => None,
        }
    }
}

impl CallResult {
    /// Reads a call's return value and how strace decodes it.
    pub fn parse(input: &str) -> (r: Option<(&str, CallResult)>)
        ensures
            r matches Some((rest, v)) ==> parsed(input@, call_result(input@, 0), rest@, v.model()),
            r is None ==> call_result(input@, 0) is None,
    {
        let cs = chars_of(input);
        match call_result_at(cs.as_slice(), 0) {
            Some((j, v)) => Some((input.substring_char(j, cs.len()), v)),
            None => None,
        }
    }
}

impl DecodedRetValue {
    /// Reads how strace decodes a return value.
    pub fn parse(input: &str) -> (r: Option<(&str, DecodedRetValue)>)
        ensures
            r matches Some((rest, v)) ==> parsed(input@, decoded(input@, 0), rest@, v.model()),
            r is None ==> decoded(input@, 0) is None,
    {
        let cs = chars_of(input);
        match decoded_at(cs.as_slice(), 0) {
            Some((j, v)) => Some((input.substring_char(j, cs.len()), v)),
            None => None,
        }
    }
}

impl Arg {
    /// Reads an argument, and what the call changed it to.
    pub fn parse(input: &str) -> (r: Option<(&str, Arg)>)
        ensures
            r matches Some((rest, v)) ==> parsed(input@, arg(input@, 0), rest@, v.model()),
            r is None ==> arg(input@, 0) is None,
    {
        let cs = chars_of(input);
        match arg_at(cs.as_slice(), 0) {
            Some((j, v)) => Some((input.substring_char(j, cs.len()), v)),
            None => None,
        }
    }
}

impl Value {
    /// Reads a value.
    pub fn parse(input: &str) -> (r: Option<(&str, Value)>)
        ensures
            r matches Some((rest, v)) ==> parsed(input@, value(input@, 0), rest@, v.model()),
            r is None ==> value(input@, 0) is None,
    {
        let cs = chars_of(input);
        match value_at(cs.as_slice(), 0) {
            Some((j, v)) => Some((input.substring_char(j, cs.len()), v)),
            None => None,
        }
    }
}

impl CallValue {
    /// Reads `name(args)`.
    pub fn parse(input: &str) -> (r: Option<(&str, CallValue)>)
        ensures
            r matches Some((rest, v)) ==> parsed(input@, call_value(input@, 0), rest@, v.model()),
            r is None ==> call_value(input@, 0) is None,
    {
        let cs = chars_of(input);
        match call_value_at(cs.as_slice(), 0) {
            Some((j, v)) => Some((input.substring_char(j, cs.len()), v)),
            None => None,
        }
    }
}

impl StringValue {
    /// Reads a quoted string.
    pub fn parse(input: &str) -> (r: Option<(&str, StringValue)>)
        ensures
            r matches Some((rest, v)) ==> parsed(input@, string_value(input@, 0), rest@, v.model()),
            r is None ==> string_value(input@, 0) is None,
    {
        let cs = chars_of(input);
        match string_value_at(cs.as_slice(), 0) {
            Some((j, v)) => Some((input.substring_char(j, cs.len()), v)),
            None => None,
        }
    }
}

impl RecordValue {
    /// Reads `{name=arg, ...}`.
    pub fn parse(input: &str) -> (r: Option<(&str, RecordValue)>)
        ensures
            r matches Some((rest, v)) ==> parsed(input@, record_value(input@, 0), rest@, members_model(v.0@)),
            r is None ==> record_value(input@, 0) is None,
    {
        let cs = chars_of(input);
        match record_value_at(cs.as_slice(), 0) {
            Some((j, v)) => Some((input.substring_char(j, cs.len()), v)),
            None => None,
        }
    }
}

impl RecordMember {
    /// Reads `name=arg`.
    pub fn parse(input: &str) -> (r: Option<(&str, RecordMember)>)
        ensures
            r matches Some((rest, v)) ==> parsed(input@, record_member(input@, 0), rest@, v.model()),
            r is None ==> record_member(input@, 0) is None,
    {
        let cs = chars_of(input);
        match record_member_at(cs.as_slice(), 0) {
            Some((j, v)) => Some((input.substring_char(j, cs.len()), v)),
            None => None,
        }
    }
}

impl ExitThreadEvent {
    /// Reads `+++ exited with status +++`.
    pub fn parse(input: &str) -> (r: Option<(&str, ExitThreadEvent)>)
        ensures
            r matches Some((rest, v)) ==> parsed(input@, exit(input@, 0), rest@, v.status),
            r is None ==> exit(input@, 0) is None,
    {
        let cs = chars_of(input);
        match exit_at(cs.as_slice(), 0) {
            Some((j, v)) => Some((input.substring_char(j, cs.len()), v)),
            None => None,
        }
    }
}

} // verus!
