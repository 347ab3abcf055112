//! The WASI preview1 types as the solver fuzzer uses them, and how it draws
//! values of them, paths among them, from the fuzzing input.
use vstd::prelude::*;

use crate::entropy::{
    after_uint, arbitrary_bool, arbitrary_i64, arbitrary_u32, arbitrary_u64, arbitrary_u8, bools_drawn,
    choose_index, i64_drawn, index_drawn, uint_drawn, DataError, Entropy,
};
use crate::wasi::types::WazziType;

pub use crate::wasi::types::{
    FlagsType, IntRepr, ListType, RecordMemberLayout, RecordMemberType, RecordType,
    VariantCaseType, VariantType, WasiType,
};
pub use crate::wasi::value::{FlagsValue, ListValue, RecordValue, VariantValue, WasiValue};

verus! {

/// Whether a byte may stand in a drawn path: a dot, a slash or an `a`.
pub open spec fn path_byte(b: u8) -> bool {
    b == 46 || b == 47 || b == 97
}

/// A string of dots, slashes and `a`s, between one and thirty-two bytes
/// long, as drawn for path parameters.
#[derive(PartialEq, Eq, Debug)]
pub struct RestrictedString(Vec<u8>);

impl RestrictedString {
    pub closed spec fn view(&self) -> Seq<u8> {
        self.0@
    }

    pub fn as_bytes(&self) -> (r: &[u8])
        ensures
            r@ == self.view(),
    {
        self.0.as_slice()
    }

    pub fn is_empty(&self) -> (r: bool)
        ensures
            r == (self.view().len() == 0),
    {
        self.0.len() == 0
    }

    /// Draws a string from the fuzzing input: first its length, then each
    /// byte among `.`, `/` and `a`. It never fails.
    pub fn arbitrary(u: &mut Entropy) -> (r: Result<RestrictedString, DataError>)
        ensures
            r is Ok,
            r matches Ok(s) ==> 1 <= s.view().len() <= 32 && forall|i: int|
                0 <= i < s.view().len() ==> path_byte(#[trigger] s.view()[i]),
            r matches Ok(s) ==> (s.view(), final(u).data()) == restricted_drawn(old(u).data()),
    {
        let ghost d0 = u.data();
        let len = match choose_index(u, 32) {
            Ok(n) => n + 1,
            Err(e) => {
                return Err(e);
            },
        };
        let choices: [u8; 3] = [46u8, 47u8, 97u8];
        let mut bytes: Vec<u8> = Vec::new();
        let mut i: usize = 0;
        let ghost d1 = u.data();
        assert(len == index_drawn(d0, 32).0 + 1 && d1 == index_drawn(d0, 32).1);
        while i < len
            invariant
                len <= 32,
                i <= len,
                bytes@.len() == i,
                choices@ == seq![46u8, 47u8, 97u8],
                forall|k: int| 0 <= k < i ==> path_byte(#[trigger] bytes@[k]),
                (bytes@, u.data()) == path_bytes_drawn(d1, i as nat),
            decreases len - i,
        {
            match choose_index(u, 3) {
                Ok(k) => bytes.push(choices[k]),
                Err(e) => {
                    return Err(e);
                },
            }
            i = i + 1;
        }
        Ok(RestrictedString(bytes))
    }
}

/// `n` bytes of a restricted string drawn from `data`, each chosen among a
/// dot, a slash and an `a`, and what is left of it.
pub open spec fn path_bytes_drawn(data: Seq<u8>, n: nat) -> (Seq<u8>, Seq<u8>)
    decreases n,
{
    if n == 0 {
        (Seq::empty(), data)
    } else {
        let (bs, mid) = path_bytes_drawn(data, (n - 1) as nat);
        let (k, rest) = index_drawn(mid, 3);
        (bs.push(seq![46u8, 47u8, 97u8][k as int]), rest)
    }
}

/// The restricted string drawn from `data`, its length first, and what is
/// left of it.
pub open spec fn restricted_drawn(data: Seq<u8>) -> (Seq<u8>, Seq<u8>) {
    let (n, mid) = index_drawn(data, 32);
    path_bytes_drawn(mid, (n + 1) as nat)
}

/// Whether values can be drawn for a type as the solver fuzzer draws them:
/// no `u16` is met through cases, members and items.
pub open spec fn drawable(t: WazziType) -> bool
    decreases t,
{
    match t.wasi {
        WasiType::U16 => false,
        WasiType::Variant(v) => forall|i: int|
            0 <= i < v.cases@.len() ==> match #[trigger] v.cases@[i].payload {
                Some(p) => drawable(p),
                None => true,
            },
        WasiType::Record(r) => forall|i: int| 0 <= i < r.members@.len() ==> drawable(#[trigger] r.members@[i].ty),
        WasiType::List(l) => drawable(l.item),
        _ => true,
    }
}

/// Whether drawing a value for the type may meet a variant without cases,
/// through cases, members and items.
pub open spec fn meets_empty(t: WazziType) -> bool
    decreases t,
{
    match t.wasi {
        WasiType::Variant(v) => v.cases@.len() == 0 || exists|i: int|
            0 <= i < v.cases@.len() && match #[trigger] v.cases@[i].payload {
                Some(p) => meets_empty(p),
                None => false,
            },
        WasiType::Record(r) => exists|i: int| 0 <= i < r.members@.len() && meets_empty(#[trigger] r.members@[i].ty),
        WasiType::List(l) => meets_empty(l.item),
        _ => false,
    }
}

/// Whether a string is a restricted string: one to thirty-two bytes, each a
/// dot, a slash or an `a`.
pub open spec fn restricted(s: Seq<u8>) -> bool {
    &&& 1 <= s.len() <= 32
    &&& forall|i: int| 0 <= i < s.len() ==> path_byte(#[trigger] s[i])
}

/// A drawn path: the drawn string itself where it starts with a slash or
/// there is no prefix, and otherwise the prefix, a slash and the string.
pub open spec fn joined(prefix: Seq<u8>, s: Seq<u8>) -> Seq<u8> {
    if s[0] == 47 || prefix.len() == 0 {
        s
    } else {
        prefix + seq![47u8] + s
    }
}

/// The prefix that drawn paths are put under: none where none is given.
pub open spec fn prefix_of(p: Option<&[u8]>) -> Seq<u8> {
    match p {
        Some(b) => b@,
        None => Seq::empty(),
    }
}

/// Whether `v` is a value that drawing for `t` can give under `prefix`:
/// integers and handles of the type's kind, one flag per field, a case of
/// the variant with a payload drawn for that case's type, members drawn for
/// their types, a path made of a restricted string, and up to three items
/// drawn for the item type.
pub open spec fn drawn(t: WazziType, v: WasiValue, prefix: Seq<u8>) -> bool
    decreases t,
{
    match (t.wasi, v) {
        (WasiType::S64, WasiValue::S64(_)) => true,
        (WasiType::U8, WasiValue::U8(_)) => true,
        (WasiType::U32, WasiValue::U32(_)) => true,
        (WasiType::U64, WasiValue::U64(_)) => true,
        (WasiType::Handle, WasiValue::Handle(_)) => true,
        (WasiType::Flags(f), WasiValue::Flags(fv)) => fv.fields@.len() == f.fields@.len(),
        (WasiType::Variant(vt), WasiValue::Variant(b)) => {
            &&& b.case_idx < vt.cases@.len()
            &&& match (vt.cases@[b.case_idx as int].payload, b.payload) {
                (Some(p), Some(pv)) => drawn(p, pv, prefix),
                (None, None) => true,
                _ => false,
            }
        },
        (WasiType::Record(r), WasiValue::Record(rv)) => {
            &&& rv.members@.len() == r.members@.len()
            &&& forall|i: int| 0 <= i < r.members@.len() ==> drawn(#[trigger] r.members@[i].ty, rv.members@[i], prefix)
        },
        (WasiType::String, WasiValue::String(b)) => exists|s: Seq<u8>| restricted(s) && b@ == joined(prefix, s),
        (WasiType::List(l), WasiValue::List(lv)) => {
            &&& lv.items@.len() < 4
            &&& forall|i: int| 0 <= i < lv.items@.len() ==> drawn(l.item, #[trigger] lv.items@[i], prefix)
        },
        _ => false,
    }
}

/// The payload drawn for a case: none where the case has none.
fn draw_payload(c: &VariantCaseType, u: &mut Entropy, string_prefix: Option<&[u8]>) -> (r: Result<
    Option<WasiValue>,
    DataError,
>)
    requires
        c.payload matches Some(p) ==> drawable(p),
    ensures
        r matches Ok(o) ==> match (c.payload, o) {
            (Some(p), Some(pv)) => drawn(p, pv, prefix_of(string_prefix)),
            (None, None) => true,
            _ => false,
        },
        r is Err ==> (c.payload matches Some(p) && meets_empty(p)),
        match c.payload {
            Some(p) => {
                &&& final(u).data() == run(p, old(u).data()).1
                &&& r is Err <==> run(p, old(u).data()).0
                &&& r matches Ok(o) ==> (o matches Some(pv) && value_drawn(p, prefix_of(string_prefix), old(u).data(), pv))
            },
            None => r is Ok && final(u).data() == old(u).data(),
        },
    decreases c,
{
    match &c.payload {
        Some(p) => match p.arbitrary_value(u, string_prefix) {
            Ok(v) => Ok(Some(v)),
            Err(e) => Err(e),
        },
        None => Ok(None),
    }
}

/// A case chosen from the input, and a payload drawn for it.
fn draw_case(cs: &Vec<VariantCaseType>, u: &mut Entropy, string_prefix: Option<&[u8]>) -> (r: Result<
    (usize, Option<WasiValue>),
    DataError,
>)
    requires
        forall|i: int|
            0 <= i < cs@.len() ==> match #[trigger] cs@[i].payload {
                Some(p) => drawable(p),
                None => true,
            },
    ensures
        r matches Ok((k, o)) ==> k < cs@.len() && match (cs@[k as int].payload, o) {
            (Some(p), Some(pv)) => drawn(p, pv, prefix_of(string_prefix)),
            (None, None) => true,
            _ => false,
        },
        r is Err ==> cs@.len() == 0 || exists|i: int|
            0 <= i < cs@.len() && match #[trigger] cs@[i].payload {
                Some(p) => meets_empty(p),
                None => false,
            },
        ({
            let (k, after) = index_drawn(old(u).data(), cs@.len() as usize);
            if cs@.len() == 0 {
                r is Err && final(u).data() == old(u).data()
            } else {
                &&& k < cs@.len()
                &&& match cs@[k as int].payload {
                    Some(p) => {
                        &&& final(u).data() == run(p, after).1
                        &&& r is Err <==> run(p, after).0
                        &&& r matches Ok((k2, o)) ==> k2 == k && (o matches Some(pv) && value_drawn(
                            p,
                            prefix_of(string_prefix),
                            after,
                            pv,
                        ))
                    },
                    None => r == Ok::<(usize, Option<WasiValue>), DataError>((k, None)) && final(u).data() == after,
                }
            }
        }),
    decreases cs,
{
    let k = match choose_index(u, cs.len()) {
        Ok(k) => k,
        Err(e) => {
            return Err(e);
        },
    };
    assert(cs@[k as int].payload matches Some(p) ==> drawable(p));
    match draw_payload(&cs[k], u, string_prefix) {
        Ok(o) => Ok((k, o)),
        Err(e) => {
            assert(cs@[k as int].payload matches Some(p) && meets_empty(p));
            Err(e)
        },
    }
}

/// A value drawn for a member's type.
fn draw_member(m: &RecordMemberType, u: &mut Entropy, string_prefix: Option<&[u8]>) -> (r: Result<
    WasiValue,
    DataError,
>)
    requires
        drawable(m.ty),
    ensures
        r matches Ok(v) ==> drawn(m.ty, v, prefix_of(string_prefix)),
        r is Err ==> meets_empty(m.ty),
        final(u).data() == run(m.ty, old(u).data()).1,
        r is Err <==> run(m.ty, old(u).data()).0,
        r matches Ok(v) ==> value_drawn(m.ty, prefix_of(string_prefix), old(u).data(), v),
    decreases m,
{
    m.ty.arbitrary_value(u, string_prefix)
}

/// Values drawn for the members, one after the other.
fn draw_members(ms: &Vec<RecordMemberType>, u: &mut Entropy, string_prefix: Option<&[u8]>) -> (r: Result<
    Vec<WasiValue>,
    DataError,
>)
    requires
        forall|i: int| 0 <= i < ms@.len() ==> drawable(#[trigger] ms@[i].ty),
    ensures
        r matches Ok(vs) ==> vs@.len() == ms@.len() && forall|i: int|
            0 <= i < ms@.len() ==> drawn(#[trigger] ms@[i].ty, vs@[i], prefix_of(string_prefix)),
        r is Err ==> exists|i: int| 0 <= i < ms@.len() && meets_empty(#[trigger] ms@[i].ty),
        final(u).data() == members_run(ms@, old(u).data()).1,
        r is Err <==> members_run(ms@, old(u).data()).0,
        r matches Ok(vs) ==> forall|k: int|
            0 <= k < ms@.len() ==> value_drawn(
                ms@[k].ty,
                prefix_of(string_prefix),
                members_run(ms@.subrange(0, k), old(u).data()).1,
                #[trigger] vs@[k],
            ),
    decreases ms,
{
    let ghost d0 = u.data();
    let mut vs: Vec<WasiValue> = Vec::new();
    let mut i: usize = 0;
    while i < ms.len()
        invariant
            forall|k: int| 0 <= k < ms@.len() ==> drawable(#[trigger] ms@[k].ty),
            i <= ms@.len(),
            vs@.len() == i,
            forall|k: int| 0 <= k < i ==> drawn(#[trigger] ms@[k].ty, vs@[k], prefix_of(string_prefix)),
            d0 == old(u).data(),
            !members_run(ms@.subrange(0, i as int), d0).0,
            u.data() == members_run(ms@.subrange(0, i as int), d0).1,
            forall|k: int|
                0 <= k < i ==> value_drawn(
                    ms@[k].ty,
                    prefix_of(string_prefix),
                    members_run(ms@.subrange(0, k), d0).1,
                    #[trigger] vs@[k],
                ),
        decreases ms@.len() - i,
    {
        assert(drawable(ms@[i as int].ty));
        let ghost next = ms@.subrange(0, i + 1);
        assert(next.subrange(0, i as int) == ms@.subrange(0, i as int));
        assert(next[i as int] == ms@[i as int]);
        let ghost before = vs@;
        match draw_member(&ms[i], u, string_prefix) {
            Ok(v) => vs.push(v),
            Err(e) => {
                assert(meets_empty(ms@[i as int].ty));
                proof {
                    lemma_members_run_failed(ms@, d0, i + 1);
                }
                return Err(e);
            },
        }
        proof {
            assert forall|k: int|
                0 <= k < i + 1 implies value_drawn(
                ms@[k].ty,
                prefix_of(string_prefix),
                members_run(ms@.subrange(0, k), d0).1,
                #[trigger] vs@[k],
            ) by {
                if k < i {
                    assert(vs@[k] == before[k]);
                }
            }
        }
        i = i + 1;
    }
    assert(ms@.subrange(0, ms@.len() as int) == ms@);
    Ok(vs)
}

/// Up to three items drawn for a list's item type.
fn draw_items(l: &ListType, u: &mut Entropy, string_prefix: Option<&[u8]>) -> (r: Result<
    Vec<WasiValue>,
    DataError,
>)
    requires
        drawable(l.item),
    ensures
        r matches Ok(vs) ==> vs@.len() < 4 && forall|k: int|
            0 <= k < vs@.len() ==> drawn(l.item, #[trigger] vs@[k], prefix_of(string_prefix)),
        r is Err ==> meets_empty(l.item),
        ({
            let (n, after) = index_drawn(old(u).data(), 4);
            &&& final(u).data() == items_run(l.item, after, n as nat).1
            &&& r is Err <==> items_run(l.item, after, n as nat).0
            &&& r matches Ok(vs) ==> vs@.len() == n && forall|k: int|
                0 <= k < vs@.len() ==> value_drawn(
                    l.item,
                    prefix_of(string_prefix),
                    items_run(l.item, after, k as nat).1,
                    #[trigger] vs@[k],
                )
        }),
    decreases l,
{
    let ghost d0 = u.data();
    let n = match choose_index(u, 4) {
        Ok(n) => n,
        Err(e) => {
            return Err(e);
        },
    };
    let mut items: Vec<WasiValue> = Vec::new();
    let mut i: usize = 0;
    while i < n
        invariant
            drawable(l.item),
            n < 4,
            i <= n,
            items@.len() == i,
            forall|k: int| 0 <= k < i ==> drawn(l.item, #[trigger] items@[k], prefix_of(string_prefix)),
            d0 == old(u).data(),
            n == index_drawn(d0, 4).0,
            !items_run(l.item, index_drawn(d0, 4).1, i as nat).0,
            u.data() == items_run(l.item, index_drawn(d0, 4).1, i as nat).1,
            forall|k: int|
                0 <= k < i ==> value_drawn(
                    l.item,
                    prefix_of(string_prefix),
                    items_run(l.item, index_drawn(d0, 4).1, k as nat).1,
                    #[trigger] items@[k],
                ),
        decreases n - i,
    {
        let ghost before = items@;
        match l.item.arbitrary_value(u, string_prefix) {
            Ok(v) => items.push(v),
            Err(e) => {
                proof {
                    lemma_items_run_failed(l.item, index_drawn(d0, 4).1, (i + 1) as nat, n as nat);
                }
                return Err(e);
            },
        }
        proof {
            assert forall|k: int|
                0 <= k < i + 1 implies value_drawn(
                l.item,
                prefix_of(string_prefix),
                items_run(l.item, index_drawn(d0, 4).1, k as nat).1,
                #[trigger] items@[k],
            ) by {
                if k < i {
                    assert(items@[k] == before[k]);
                }
            }
        }
        i = i + 1;
    }
    Ok(items)
}

/// Drawing a value of `t` from the bytes `data`: whether it fails, and what
/// is left of the bytes where it ends. A variant without cases fails; a
/// draw for members or items stops at the first that fails.
pub open spec fn run(t: WazziType, data: Seq<u8>) -> (bool, Seq<u8>)
    decreases t, 0int,
{
    match t.wasi {
        WasiType::S64 | WasiType::U64 => (false, after_uint(data, 8)),
        WasiType::U8 => (false, after_uint(data, 1)),
        WasiType::U32 | WasiType::Handle => (false, after_uint(data, 4)),
        WasiType::U16 => (false, data),
        WasiType::Flags(f) => (false, bools_drawn(data, f.fields@.len()).1),
        WasiType::Variant(v) => if v.cases@.len() == 0 {
            (true, data)
        } else {
            let (k, after) = index_drawn(data, v.cases@.len() as usize);
            if k < v.cases@.len() {
                match v.cases@[k as int].payload {
                    Some(p) => run(p, after),
                    None => (false, after),
                }
            } else {
                (false, after)
            }
        },
        WasiType::Record(r) => members_run(r.members@, data),
        WasiType::String => (false, restricted_drawn(data).1),
        WasiType::List(l) => {
            let (n, after) = index_drawn(data, 4);
            items_run(l.item, after, n as nat)
        },
    }
}

/// Drawing values for the members' types one after the other from `data`:
/// whether one fails, and what is left where it ends.
pub open spec fn members_run(ms: Seq<RecordMemberType>, data: Seq<u8>) -> (bool, Seq<u8>)
    decreases ms, 0int,
{
    if ms.len() == 0 {
        (false, data)
    } else {
        let (failed, d) = members_run(ms.subrange(0, ms.len() - 1), data);
        if failed {
            (true, d)
        } else {
            run(ms[ms.len() - 1].ty, d)
        }
    }
}

/// Drawing `n` values of `t` one after the other from `data`: whether one
/// fails, and what is left where it ends.
pub open spec fn items_run(t: WazziType, data: Seq<u8>, n: nat) -> (bool, Seq<u8>)
    decreases t, n,
{
    if n == 0 {
        (false, data)
    } else {
        let (failed, d) = items_run(t, data, (n - 1) as nat);
        if failed {
            (true, d)
        } else {
            run(t, d)
        }
    }
}

/// Whether `v` is the value that drawing for `t` from the bytes `data`
/// gives under `prefix`: integers and handles read from the bytes, a flag
/// drawn for each field, the case at the drawn index with its payload drawn
/// from the bytes after it, each member drawn from where the members
/// before it left the bytes, the drawn restricted string put under the
/// prefix, and as many items as the drawn count, each drawn from where the
/// items before it left the bytes.
pub open spec fn value_drawn(t: WazziType, prefix: Seq<u8>, data: Seq<u8>, v: WasiValue) -> bool
    decreases t,
{
    match (t.wasi, v) {
        (WasiType::S64, WasiValue::S64(x)) => x == i64_drawn(data),
        (WasiType::U8, WasiValue::U8(x)) => x == uint_drawn(data, 1),
        (WasiType::U32, WasiValue::U32(x)) => x == uint_drawn(data, 4),
        (WasiType::U64, WasiValue::U64(x)) => x == uint_drawn(data, 8),
        (WasiType::Handle, WasiValue::Handle(x)) => x == uint_drawn(data, 4),
        (WasiType::Flags(f), WasiValue::Flags(fv)) => fv.fields@ == bools_drawn(data, f.fields@.len()).0,
        (WasiType::Variant(vt), WasiValue::Variant(b)) => {
            let (k, after) = index_drawn(data, vt.cases@.len() as usize);
            &&& b.case_idx == k
            &&& k < vt.cases@.len()
            &&& match (vt.cases@[k as int].payload, b.payload) {
                (Some(p), Some(pv)) => value_drawn(p, prefix, after, pv),
                (None, None) => true,
                _ => false,
            }
        },
        (WasiType::Record(r), WasiValue::Record(rv)) => {
            &&& rv.members@.len() == r.members@.len()
            &&& forall|k: int|
                0 <= k < r.members@.len() ==> value_drawn(
                    r.members@[k].ty,
                    prefix,
                    members_run(r.members@.subrange(0, k), data).1,
                    #[trigger] rv.members@[k],
                )
        },
        (WasiType::String, WasiValue::String(b)) => b@ == joined(prefix, restricted_drawn(data).0),
        (WasiType::List(l), WasiValue::List(lv)) => {
            let (n, after) = index_drawn(data, 4);
            &&& lv.items@.len() == n
            &&& forall|k: int|
                0 <= k < lv.items@.len() ==> value_drawn(
                    l.item,
                    prefix,
                    items_run(l.item, after, k as nat).1,
                    #[trigger] lv.items@[k],
                )
        },
        _ => false,
    }
}

/// Once a draw for members has failed, more members change nothing.
proof fn lemma_members_run_failed(ms: Seq<RecordMemberType>, data: Seq<u8>, k: int)
    requires
        0 <= k <= ms.len(),
        members_run(ms.subrange(0, k), data).0,
    ensures
        members_run(ms, data) == members_run(ms.subrange(0, k), data),
    decreases ms.len() - k,
{
    if k < ms.len() {
        let init = ms.subrange(0, ms.len() - 1);
        assert(init.subrange(0, k) == ms.subrange(0, k));
        lemma_members_run_failed(init, data, k);
    } else {
        assert(ms.subrange(0, k) == ms);
    }
}

/// Once a draw for items has failed, more items change nothing.
proof fn lemma_items_run_failed(t: WazziType, data: Seq<u8>, k: nat, n: nat)
    requires
        k <= n,
        items_run(t, data, k).0,
    ensures
        items_run(t, data, n) == items_run(t, data, k),
    decreases n - k,
{
    if k < n {
        lemma_items_run_failed(t, data, k, (n - 1) as nat);
    }
}

impl WazziType {
    /// A value of the type drawn from the fuzzing input as the solver
    /// fuzzer draws it: integers and handles read from it, a case chosen
    /// from it, members one after the other, up to three list items, and
    /// for a string a restricted string, put after `string_prefix` and a
    /// slash unless it starts with a slash itself or there is no prefix. It
    /// fails only where a variant without cases is met.
    pub fn arbitrary_value(&self, u: &mut Entropy, string_prefix: Option<&[u8]>) -> (r: Result<
        WasiValue,
        DataError,
    >)
        requires
            drawable(*self),
        ensures
            r matches Ok(v) ==> drawn(*self, v, prefix_of(string_prefix)),
            r is Err ==> meets_empty(*self),
            final(u).data() == run(*self, old(u).data()).1,
            r is Err <==> run(*self, old(u).data()).0,
            r matches Ok(v) ==> value_drawn(*self, prefix_of(string_prefix), old(u).data(), v),
        decreases self,
    {
        let ghost d0 = u.data();
        match &self.wasi {
            WasiType::S64 => match arbitrary_i64(u) {
                Ok(x) => Ok(WasiValue::S64(x)),
                Err(e) => Err(e),
            },
            WasiType::U8 => match arbitrary_u8(u) {
                Ok(x) => Ok(WasiValue::U8(x)),
                Err(e) => Err(e),
            },
            WasiType::U16 => {
                assert(false);
                Err(DataError::IncorrectFormat)
            },
            WasiType::U32 => match arbitrary_u32(u) {
                Ok(x) => Ok(WasiValue::U32(x)),
                Err(e) => Err(e),
            },
            WasiType::U64 => match arbitrary_u64(u) {
                Ok(x) => Ok(WasiValue::U64(x)),
                Err(e) => Err(e),
            },
            WasiType::Handle => match arbitrary_u32(u) {
                Ok(x) => Ok(WasiValue::Handle(x)),
                Err(e) => Err(e),
            },
            WasiType::Flags(flags) => {
                let mut fields: Vec<bool> = Vec::new();
                let mut i: usize = 0;
                while i < flags.fields.len()
                    invariant
                        i <= flags.fields@.len(),
                        fields@.len() == i,
                        (fields@, u.data()) == bools_drawn(d0, i as nat),
                    decreases flags.fields@.len() - i,
                {
                    match arbitrary_bool(u) {
                        Ok(b) => fields.push(b),
                        Err(e) => {
                            return Err(e);
                        },
                    }
                    i = i + 1;
                }
                Ok(WasiValue::Flags(FlagsValue { fields }))
            },
            WasiType::Variant(variant) => match draw_case(&variant.cases, u, string_prefix) {
                Ok((case_idx, payload)) => Ok(WasiValue::Variant(Box::new(VariantValue { case_idx, payload }))),
                Err(e) => Err(e),
            },
            WasiType::Record(record) => match draw_members(&record.members, u, string_prefix) {
                Ok(members) => Ok(WasiValue::Record(RecordValue { members })),
                Err(e) => Err(e),
            },
            WasiType::String => {
                let s = match RestrictedString::arbitrary(u) {
                    Ok(s) => s,
                    Err(e) => {
                        return Err(e);
                    },
                };
                let bytes = s.as_bytes();
                let ghost sv = bytes@;
                let mut out: Vec<u8> = Vec::new();
                if bytes[0] != 47 {
                    match string_prefix {
                        Some(p) => {
                            let mut k: usize = 0;
                            while k < p.len()
                                invariant
                                    k <= p@.len(),
                                    out@ == p@.subrange(0, k as int),
                                decreases p@.len() - k,
                            {
                                out.push(p[k]);
                                k = k + 1;
                            }
                        },
                        None => {},
                    }
                    if out.len() > 0 {
                        out.push(47);
                    }
                }
                let ghost head = out@;
                let mut k: usize = 0;
                while k < bytes.len()
                    invariant
                        sv == bytes@,
                        k <= sv.len(),
                        out@ == head + sv.subrange(0, k as int),
                    decreases sv.len() - k,
                {
                    out.push(bytes[k]);
                    k = k + 1;
                }
                proof {
                    assert(sv.subrange(0, sv.len() as int) == sv);
                    if sv[0] != 47 && prefix_of(string_prefix).len() > 0 {
                        assert(head == prefix_of(string_prefix) + seq![47u8]);
                    } else {
                        assert(head.len() == 0);
                    }
                    assert(out@ == joined(prefix_of(string_prefix), sv));
                    assert(restricted(sv));
                }
                Ok(WasiValue::String(out))
            },
            WasiType::List(list) => match draw_items(list, u, string_prefix) {
                Ok(items) => Ok(WasiValue::List(ListValue { items })),
                Err(e) => Err(e),
            },
        }
    }
}

} // verus!
