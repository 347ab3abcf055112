//! Values of the types of a specification drawn from the fuzzing input.
use vstd::prelude::*;

use super::resolve::{
    cases_measure, lemma_cases_measure, lemma_members_measure, lemma_target_shallower,
    members_measure,
};
use super::types::{RecordMemberType, RecordType, Spec, TypeRef, VariantCaseType, WasiType};
use super::value::{FlagsValue, ListValue, PointerValue, RecordValue, VariantValue, WasiValue};
use super::zero::resolved;
use crate::entropy::{
    arbitrary_bool, arbitrary_i64, arbitrary_u16, arbitrary_u32, arbitrary_u64, arbitrary_u8,
    after_uint, bools_drawn, choose_index, choose_item, i64_drawn, index_drawn, take_bytes, uint_drawn,
    DataError, Entropy,
};
use crate::preview1::path_bytes_drawn;

verus! {

/// The type a reference stands for: the named type's, or the one written
/// out where it is used.
pub open spec fn ref_type(spec: Spec, r: TypeRef) -> WasiType {
    match r {
        TypeRef::Named(_) => resolved(spec, r),
        TypeRef::Anonymous(t) => t,
    }
}

/// Whether a reference can be followed: one by name names a type of the
/// spec.
pub open spec fn ref_ok(spec: Spec, r: TypeRef) -> bool {
    r is Named ==> r.target(spec) is Some
}

/// A reference reaches at least as deep as the type it stands for, and
/// deeper where it names one.
pub proof fn lemma_ref_type_shallower(spec: Spec, r: TypeRef)
    requires
        spec.acyclic(),
        ref_ok(spec, r),
    ensures
        spec.depth(ref_type(spec, r)) <= r.measure(spec, spec.rank()),
        r is Named ==> spec.depth(ref_type(spec, r)) < r.measure(spec, spec.rank()),
{
    if r is Named {
        lemma_target_shallower(spec, r);
    }
}

/// Whether a record is a buffer and its length: two members, `buf` and then
/// `buf_len`.
pub open spec fn is_buf_pair(r: RecordType) -> bool {
    &&& r.members@.len() == 2
    &&& r.members@[0].name@ == "buf"@
    &&& r.members@[1].name@ == "buf_len"@
}

/// The bytes that a drawn string is made of.
pub open spec fn string_byte(b: u8) -> bool {
    b == 46 || b == 47 || b == 97
}

/// Whether every reference met in a type, following references and
/// looking into every case and member, can be followed.
pub open spec fn drawable(spec: Spec, t: WasiType) -> bool
    decreases spec.depth(t), t,
    when spec.acyclic()
{
    match t {
        WasiType::Variant(v) => cases_drawable(spec, v.cases@),
        WasiType::Record(r) => is_buf_pair(r) || members_drawable(spec, r.members@),
        WasiType::Pointer(p) => ref_ok(spec, p.item) && {
            proof {
                lemma_ref_type_shallower(spec, p.item);
            }
            drawable(spec, ref_type(spec, p.item))
        },
        WasiType::List(l) => ref_ok(spec, l.item) && {
            proof {
                lemma_ref_type_shallower(spec, l.item);
            }
            drawable(spec, ref_type(spec, l.item))
        },
        _ => true,
    }
}

pub open spec fn members_drawable(spec: Spec, ms: Seq<RecordMemberType>) -> bool
    decreases members_measure(spec, spec.rank(), ms), ms,
    when spec.acyclic()
{
    if ms.len() == 0 {
        true
    } else {
        let last = ms[ms.len() - 1].tref;
        proof {
            lemma_members_measure(spec, spec.rank(), ms, ms.len() - 1);
        }
        &&& members_drawable(spec, ms.subrange(0, ms.len() - 1))
        &&& ref_ok(spec, last)
        &&& {
            proof {
                lemma_ref_type_shallower(spec, last);
            }
            drawable(spec, ref_type(spec, last))
        }
    }
}

pub open spec fn cases_drawable(spec: Spec, cs: Seq<VariantCaseType>) -> bool
    decreases cases_measure(spec, spec.rank(), cs), cs,
    when spec.acyclic()
{
    if cs.len() == 0 {
        true
    } else {
        proof {
            lemma_cases_measure(spec, spec.rank(), cs, cs.len() - 1);
        }
        &&& cases_drawable(spec, cs.subrange(0, cs.len() - 1))
        &&& match cs[cs.len() - 1].payload {
            Some(p) => ref_ok(spec, p) && {
                proof {
                    lemma_ref_type_shallower(spec, p);
                }
                drawable(spec, ref_type(spec, p))
            },
            None => true,
        }
    }
}

/// Whether drawing a value of the type may fail: it meets a variant without
/// cases, whose case cannot be chosen, or a buffer, whose bytes the input
/// may run out of.
pub open spec fn may_fail(spec: Spec, t: WasiType) -> bool
    decreases spec.depth(t), t,
    when spec.acyclic()
{
    match t {
        WasiType::Variant(v) => v.cases@.len() == 0 || cases_may_fail(spec, v.cases@),
        WasiType::Record(r) => is_buf_pair(r) || members_may_fail(spec, r.members@),
        WasiType::Pointer(p) => ref_ok(spec, p.item) && {
            proof {
                lemma_ref_type_shallower(spec, p.item);
            }
            may_fail(spec, ref_type(spec, p.item))
        },
        WasiType::List(l) => ref_ok(spec, l.item) && {
            proof {
                lemma_ref_type_shallower(spec, l.item);
            }
            may_fail(spec, ref_type(spec, l.item))
        },
        _ => false,
    }
}

pub open spec fn members_may_fail(spec: Spec, ms: Seq<RecordMemberType>) -> bool
    decreases members_measure(spec, spec.rank(), ms), ms,
    when spec.acyclic()
{
    if ms.len() == 0 {
        false
    } else {
        let last = ms[ms.len() - 1].tref;
        proof {
            lemma_members_measure(spec, spec.rank(), ms, ms.len() - 1);
        }
        ||| members_may_fail(spec, ms.subrange(0, ms.len() - 1))
        ||| ref_ok(spec, last) && {
            proof {
                lemma_ref_type_shallower(spec, last);
            }
            may_fail(spec, ref_type(spec, last))
        }
    }
}

pub open spec fn cases_may_fail(spec: Spec, cs: Seq<VariantCaseType>) -> bool
    decreases cases_measure(spec, spec.rank(), cs), cs,
    when spec.acyclic()
{
    if cs.len() == 0 {
        false
    } else {
        proof {
            lemma_cases_measure(spec, spec.rank(), cs, cs.len() - 1);
        }
        ||| cases_may_fail(spec, cs.subrange(0, cs.len() - 1))
        ||| match cs[cs.len() - 1].payload {
            Some(p) => ref_ok(spec, p) && {
                proof {
                    lemma_ref_type_shallower(spec, p);
                }
                may_fail(spec, ref_type(spec, p))
            },
            None => false,
        }
    }
}

/// Whether `v` is a value that drawing a value of `t` can give: integers and
/// handles of the type's kind, one flag per field, a variant's case with a
/// payload of that case's type where it has one, a buffer of fewer than 64
/// bytes with its length, other records member by member, a string of fewer
/// than 16 of the bytes `.`, `/` and `a`, and pointers and lists of fewer
/// than 16 items of their item type.
pub open spec fn admits(spec: Spec, t: WasiType, v: WasiValue) -> bool
    decreases spec.depth(t), t, 0nat,
    when spec.acyclic()
{
    match (t, v) {
        (WasiType::S64, WasiValue::S64(_)) => true,
        (WasiType::U8, WasiValue::U8(_)) => true,
        (WasiType::U16, WasiValue::U16(_)) => true,
        (WasiType::U32, WasiValue::U32(_)) => true,
        (WasiType::U64, WasiValue::U64(_)) => true,
        (WasiType::Handle, WasiValue::Handle(_)) => true,
        (WasiType::Flags(f), WasiValue::Flags(fv)) => fv.fields@.len() == f.fields@.len(),
        (WasiType::Variant(vt), WasiValue::Variant(b)) => {
            &&& b.case_idx < vt.cases@.len()
            &&& match (vt.cases@[b.case_idx as int].payload, b.payload) {
                (Some(p), Some(pv)) => ref_ok(spec, p) && {
                    proof {
                        lemma_cases_measure(spec, spec.rank(), vt.cases@, b.case_idx as int);
                        lemma_ref_type_shallower(spec, p);
                    }
                    admits(spec, ref_type(spec, p), pv)
                },
                (None, None) => true,
                _ => false,
            }
        },
        (WasiType::Record(r), WasiValue::Record(rv)) => if is_buf_pair(r) {
            &&& rv.members@.len() == 2
            &&& rv.members@[0] matches WasiValue::Pointer(buf)
            &&& rv.members@[1] matches WasiValue::U32(n)
            &&& n < 64
            &&& buf.items@.len() == n
            &&& forall|i: int| 0 <= i < buf.items@.len() ==> #[trigger] buf.items@[i] is U8
        } else {
            &&& rv.members@.len() == r.members@.len()
            &&& members_admit(spec, r.members@, rv.members@)
        },
        (WasiType::String, WasiValue::String(b)) => {
            &&& b@.len() < 16
            &&& forall|i: int| 0 <= i < b@.len() ==> string_byte(#[trigger] b@[i])
        },
        (WasiType::Pointer(p), WasiValue::Pointer(pv)) => {
            &&& pv.items@.len() < 16
            &&& items_admit(spec, p.item, pv.items@)
        },
        (WasiType::List(l), WasiValue::List(lv)) => {
            &&& lv.items@.len() < 16
            &&& items_admit(spec, l.item, lv.items@)
        },
        _ => false,
    }
}

/// Members and values, paired up one by one where there are as many of
/// each: each value can be drawn for its member.
pub open spec fn members_admit(spec: Spec, ms: Seq<RecordMemberType>, vs: Seq<WasiValue>) -> bool
    decreases members_measure(spec, spec.rank(), ms), ms, 0nat,
    when spec.acyclic()
{
    if ms.len() == 0 || vs.len() != ms.len() {
        true
    } else {
        let last = ms[ms.len() - 1].tref;
        proof {
            lemma_members_measure(spec, spec.rank(), ms, ms.len() - 1);
        }
        &&& members_admit(spec, ms.subrange(0, ms.len() - 1), vs.subrange(0, vs.len() - 1))
        &&& ref_ok(spec, last)
        &&& {
            proof {
                lemma_ref_type_shallower(spec, last);
            }
            admits(spec, ref_type(spec, last), vs[vs.len() - 1])
        }
    }
}

/// Each of the values can be drawn for the item type.
pub open spec fn items_admit(spec: Spec, item: TypeRef, vs: Seq<WasiValue>) -> bool
    decreases item.measure(spec, spec.rank()), item, vs.len(),
    when spec.acyclic()
{
    if vs.len() == 0 {
        true
    } else {
        &&& items_admit(spec, item, vs.subrange(0, vs.len() - 1))
        &&& ref_ok(spec, item)
        &&& {
            proof {
                lemma_ref_type_shallower(spec, item);
            }
            admits(spec, ref_type(spec, item), vs[vs.len() - 1])
        }
    }
}

/// Where every reference met through a record's members can be followed,
/// each member's can, and so can every one met through its type.
pub proof fn lemma_member_drawable_at(spec: Spec, ms: Seq<RecordMemberType>, i: int)
    requires
        spec.acyclic(),
        members_drawable(spec, ms),
        0 <= i < ms.len(),
    ensures
        ref_ok(spec, ms[i].tref),
        drawable(spec, ref_type(spec, ms[i].tref)),
    decreases ms.len(),
{
    let init = ms.subrange(0, ms.len() - 1);
    if i < ms.len() - 1 {
        lemma_member_drawable_at(spec, init, i);
        assert(init[i] == ms[i]);
    }
}

/// Where every reference met through a variant's cases can be followed,
/// each payload's can, and so can every one met through its type.
pub proof fn lemma_case_drawable_at(spec: Spec, cs: Seq<VariantCaseType>, i: int)
    requires
        spec.acyclic(),
        cases_drawable(spec, cs),
        0 <= i < cs.len(),
    ensures
        cs[i].payload matches Some(p) ==> ref_ok(spec, p) && drawable(spec, ref_type(spec, p)),
    decreases cs.len(),
{
    let init = cs.subrange(0, cs.len() - 1);
    if i < cs.len() - 1 {
        lemma_case_drawable_at(spec, init, i);
        assert(init[i] == cs[i]);
    }
}

/// Drawing for a record may fail where drawing for one of its members may.
pub proof fn lemma_member_may_fail_at(spec: Spec, ms: Seq<RecordMemberType>, i: int)
    requires
        spec.acyclic(),
        0 <= i < ms.len(),
        ref_ok(spec, ms[i].tref),
        may_fail(spec, ref_type(spec, ms[i].tref)),
    ensures
        members_may_fail(spec, ms),
    decreases ms.len(),
{
    let init = ms.subrange(0, ms.len() - 1);
    if i < ms.len() - 1 {
        assert(init[i] == ms[i]);
        lemma_member_may_fail_at(spec, init, i);
    }
}

/// Drawing for a variant may fail where drawing for one of its payloads may.
pub proof fn lemma_case_may_fail_at(spec: Spec, cs: Seq<VariantCaseType>, i: int)
    requires
        spec.acyclic(),
        0 <= i < cs.len(),
        cs[i].payload matches Some(p) && ref_ok(spec, p) && may_fail(spec, ref_type(spec, p)),
    ensures
        cases_may_fail(spec, cs),
    decreases cs.len(),
{
    let init = cs.subrange(0, cs.len() - 1);
    if i < cs.len() - 1 {
        assert(init[i] == cs[i]);
        lemma_case_may_fail_at(spec, init, i);
    }
}

/// Drawing a value of `t` from the bytes `data`, references followed:
/// whether it fails, and what is left of the bytes where it ends. A variant
/// without cases fails, and so does a buffer longer than what is left; a
/// draw for members or items stops at the first that fails.
pub open spec fn drawn_run(spec: Spec, t: WasiType, data: Seq<u8>) -> (bool, Seq<u8>)
    decreases spec.depth(t), t, 0nat,
    when spec.acyclic()
{
    match t {
        WasiType::S64 | WasiType::U64 => (false, after_uint(data, 8)),
        WasiType::U8 => (false, after_uint(data, 1)),
        WasiType::U16 => (false, after_uint(data, 2)),
        WasiType::U32 | WasiType::Handle => (false, after_uint(data, 4)),
        WasiType::Flags(f) => (false, bools_drawn(data, f.fields@.len()).1),
        WasiType::Variant(v) => if v.cases@.len() == 0 {
            (true, data)
        } else {
            let (k, after) = index_drawn(data, v.cases@.len() as usize);
            if k < v.cases@.len() {
                match v.cases@[k as int].payload {
                    Some(p) => if ref_ok(spec, p) {
                        proof {
                            lemma_cases_measure(spec, spec.rank(), v.cases@, k as int);
                            lemma_ref_type_shallower(spec, p);
                        }
                        drawn_run(spec, ref_type(spec, p), after)
                    } else {
                        (false, after)
                    },
                    None => (false, after),
                }
            } else {
                (false, after)
            }
        },
        WasiType::Record(r) => if is_buf_pair(r) {
            let (n, after) = index_drawn(data, 64);
            if after.len() < n {
                (true, after)
            } else {
                (false, after.skip(n as int))
            }
        } else {
            members_run(spec, r.members@, data)
        },
        WasiType::String => {
            let (n, after) = index_drawn(data, 16);
            (false, path_bytes_drawn(after, n as nat).1)
        },
        WasiType::Pointer(p) => {
            let (n, after) = index_drawn(data, 16);
            items_run(spec, p.item, after, n as nat)
        },
        WasiType::List(l) => {
            let (n, after) = index_drawn(data, 16);
            items_run(spec, l.item, after, n as nat)
        },
    }
}

/// Drawing values for the members' types one after the other from `data`:
/// whether one fails, and what is left where it ends.
pub open spec fn members_run(spec: Spec, ms: Seq<RecordMemberType>, data: Seq<u8>) -> (bool, Seq<u8>)
    decreases members_measure(spec, spec.rank(), ms), ms, 0nat,
    when spec.acyclic()
{
    if ms.len() == 0 {
        (false, data)
    } else {
        let last = ms[ms.len() - 1].tref;
        proof {
            lemma_members_measure(spec, spec.rank(), ms, ms.len() - 1);
        }
        let (failed, d) = members_run(spec, ms.subrange(0, ms.len() - 1), data);
        if failed {
            (true, d)
        } else if ref_ok(spec, last) {
            proof {
                lemma_ref_type_shallower(spec, last);
            }
            drawn_run(spec, ref_type(spec, last), d)
        } else {
            (false, d)
        }
    }
}

/// Drawing `n` values of the type `item` refers to one after the other from
/// `data`: whether one fails, and what is left where it ends.
pub open spec fn items_run(spec: Spec, item: TypeRef, data: Seq<u8>, n: nat) -> (bool, Seq<u8>)
    decreases item.measure(spec, spec.rank()), item, n,
    when spec.acyclic()
{
    if n == 0 {
        (false, data)
    } else {
        let (failed, d) = items_run(spec, item, data, (n - 1) as nat);
        if failed {
            (true, d)
        } else if ref_ok(spec, item) {
            proof {
                lemma_ref_type_shallower(spec, item);
            }
            drawn_run(spec, ref_type(spec, item), d)
        } else {
            (false, d)
        }
    }
}

/// Whether `v` is the value that drawing for `t` from the bytes `data`
/// gives: integers and handles read from the bytes, a flag drawn for each
/// field, the case at the drawn index with its payload drawn from the bytes
/// after it, a buffer of the drawn length taken from the bytes after it,
/// each other member drawn from where the members before it left the bytes,
/// a string of the drawn count of chosen bytes, and pointers and lists of
/// the drawn count of items, each drawn from where the items before it left
/// the bytes.
pub open spec fn value_from(spec: Spec, t: WasiType, data: Seq<u8>, v: WasiValue) -> bool
    decreases spec.depth(t), t, 0nat,
    when spec.acyclic()
{
    match (t, v) {
        (WasiType::S64, WasiValue::S64(x)) => x == i64_drawn(data),
        (WasiType::U8, WasiValue::U8(x)) => x == uint_drawn(data, 1),
        (WasiType::U16, WasiValue::U16(x)) => x == uint_drawn(data, 2),
        (WasiType::U32, WasiValue::U32(x)) => x == uint_drawn(data, 4),
        (WasiType::U64, WasiValue::U64(x)) => x == uint_drawn(data, 8),
        (WasiType::Handle, WasiValue::Handle(x)) => x == uint_drawn(data, 4),
        (WasiType::Flags(f), WasiValue::Flags(fv)) => fv.fields@ == bools_drawn(data, f.fields@.len()).0,
        (WasiType::Variant(vt), WasiValue::Variant(b)) => {
            let (k, after) = index_drawn(data, vt.cases@.len() as usize);
            &&& b.case_idx == k
            &&& k < vt.cases@.len()
            &&& match (vt.cases@[k as int].payload, b.payload) {
                (Some(p), Some(pv)) => ref_ok(spec, p) && {
                    proof {
                        lemma_cases_measure(spec, spec.rank(), vt.cases@, k as int);
                        lemma_ref_type_shallower(spec, p);
                    }
                    value_from(spec, ref_type(spec, p), after, pv)
                },
                (None, None) => true,
                _ => false,
            }
        },
        (WasiType::Record(r), WasiValue::Record(rv)) => if is_buf_pair(r) {
            let (n, after) = index_drawn(data, 64);
            &&& rv.members@.len() == 2
            &&& rv.members@[0] matches WasiValue::Pointer(buf)
            &&& rv.members@[1] matches WasiValue::U32(m)
            &&& m == n
            &&& buf.items@.len() == n
            &&& forall|i: int| 0 <= i < buf.items@.len() ==> (#[trigger] buf.items@[i] matches WasiValue::U8(x) && x == after[i])
        } else {
            members_from(spec, r.members@, data, rv.members@)
        },
        (WasiType::String, WasiValue::String(b)) => {
            let (n, after) = index_drawn(data, 16);
            b@ == path_bytes_drawn(after, n as nat).0
        },
        (WasiType::Pointer(p), WasiValue::Pointer(pv)) => {
            let (n, after) = index_drawn(data, 16);
            pv.items@.len() == n && items_from(spec, p.item, after, pv.items@)
        },
        (WasiType::List(l), WasiValue::List(lv)) => {
            let (n, after) = index_drawn(data, 16);
            lv.items@.len() == n && items_from(spec, l.item, after, lv.items@)
        },
        _ => false,
    }
}

/// Whether `vs` are the values drawn for the members' types one after the
/// other from `data`.
pub open spec fn members_from(spec: Spec, ms: Seq<RecordMemberType>, data: Seq<u8>, vs: Seq<WasiValue>) -> bool
    decreases members_measure(spec, spec.rank(), ms), ms, 0nat,
    when spec.acyclic()
{
    if ms.len() == 0 {
        vs.len() == 0
    } else {
        let last = ms[ms.len() - 1].tref;
        proof {
            lemma_members_measure(spec, spec.rank(), ms, ms.len() - 1);
        }
        &&& vs.len() == ms.len()
        &&& members_from(spec, ms.subrange(0, ms.len() - 1), data, vs.subrange(0, vs.len() - 1))
        &&& ref_ok(spec, last)
        &&& {
            proof {
                lemma_ref_type_shallower(spec, last);
            }
            value_from(spec, ref_type(spec, last), members_run(spec, ms.subrange(0, ms.len() - 1), data).1, vs[vs.len() - 1])
        }
    }
}

/// Whether `vs` are values of the type `item` refers to, drawn one after
/// the other from `data`.
pub open spec fn items_from(spec: Spec, item: TypeRef, data: Seq<u8>, vs: Seq<WasiValue>) -> bool
    decreases item.measure(spec, spec.rank()), item, vs.len(),
    when spec.acyclic()
{
    if vs.len() == 0 {
        true
    } else {
        &&& items_from(spec, item, data, vs.subrange(0, vs.len() - 1))
        &&& ref_ok(spec, item)
        &&& {
            proof {
                lemma_ref_type_shallower(spec, item);
            }
            value_from(spec, ref_type(spec, item), items_run(spec, item, data, (vs.len() - 1) as nat).1, vs[vs.len() - 1])
        }
    }
}

/// Once a draw for members has failed, more members change nothing.
proof fn lemma_members_run_failed(spec: Spec, ms: Seq<RecordMemberType>, data: Seq<u8>, k: int)
    requires
        spec.acyclic(),
        0 <= k <= ms.len(),
        members_run(spec, ms.subrange(0, k), data).0,
    ensures
        members_run(spec, ms, data) == members_run(spec, ms.subrange(0, k), data),
    decreases ms.len() - k,
{
    if k < ms.len() {
        let init = ms.subrange(0, ms.len() - 1);
        assert(init.subrange(0, k) == ms.subrange(0, k));
        lemma_members_run_failed(spec, init, data, k);
    } else {
        assert(ms.subrange(0, k) == ms);
    }
}

/// Once a draw for items has failed, more items change nothing.
proof fn lemma_items_run_failed(spec: Spec, item: TypeRef, data: Seq<u8>, k: nat, n: nat)
    requires
        spec.acyclic(),
        k <= n,
        items_run(spec, item, data, k).0,
    ensures
        items_run(spec, item, data, n) == items_run(spec, item, data, k),
    decreases n - k,
{
    if k < n {
        lemma_items_run_failed(spec, item, data, k, (n - 1) as nat);
    }
}

impl WasiType {
    /// A value of the type drawn from the fuzzing input, references
    /// followed: integers and handles read from it, a variant's case chosen
    /// from it, a buffer of up to 63 bytes taken from it with its length,
    /// strings of up to 15 of the bytes `.`, `/` and `a`, and pointers and
    /// lists of up to 15 items. It fails only where the type meets a variant
    /// without cases or a buffer.
    #[verifier::rlimit(60)]
    pub fn arbitrary_value(&self, spec: &Spec, u: &mut Entropy) -> (r: Result<WasiValue, DataError>)
        requires
            spec.acyclic(),
            drawable(*spec, *self),
        ensures
            r matches Ok(v) ==> admits(*spec, *self, v),
            r is Err ==> may_fail(*spec, *self),
            final(u).data() == drawn_run(*spec, *self, old(u).data()).1,
            r is Err <==> drawn_run(*spec, *self, old(u).data()).0,
            r matches Ok(v) ==> value_from(*spec, *self, old(u).data(), v),
        decreases spec.depth(*self), *self,
    {
        let ghost d0 = u.data();
        match self {
            WasiType::S64 => match arbitrary_i64(u) {
                Ok(x) => Ok(WasiValue::S64(x)),
                Err(e) => Err(e),
            },
            WasiType::U8 => match arbitrary_u8(u) {
                Ok(x) => Ok(WasiValue::U8(x)),
                Err(e) => Err(e),
            },
            WasiType::U16 => match arbitrary_u16(u) {
                Ok(x) => Ok(WasiValue::U16(x)),
                Err(e) => Err(e),
            },
            WasiType::U32 => match arbitrary_u32(u) {
                Ok(x) => Ok(WasiValue::U32(x)),
                Err(e) => Err(e),
            },
            WasiType::U64 => match arbitrary_u64(u) {
                Ok(x) => Ok(WasiValue::U64(x)),
                Err(e) => Err(e),
            },
            WasiType::Handle => match arbitrary_u32(u) {
                Ok(x) => Ok(WasiValue::Handle(x)),
                Err(e) => Err(e),
            },
            WasiType::Flags(flags) => {
                let mut fields: Vec<bool> = Vec::new();
                let mut i: usize = 0;
                while i < flags.fields.len()
                    invariant
                        i <= flags.fields@.len(),
                        fields@.len() == i,
                        (fields@, u.data()) == bools_drawn(d0, i as nat),
                    decreases flags.fields@.len() - i,
                {
                    match arbitrary_bool(u) {
                        Ok(b) => fields.push(b),
                        Err(e) => {
                            return Err(e);
                        },
                    }
                    i = i + 1;
                }
                Ok(WasiValue::Flags(FlagsValue { fields }))
            },
            WasiType::Variant(variant) => {
                let case_idx = match choose_index(u, variant.cases.len()) {
                    Ok(i) => i,
                    Err(e) => {
                        return Err(e);
                    },
                };
                let ghost cs = variant.cases@;
                let ghost d1 = u.data();
                assert(case_idx == index_drawn(d0, cs.len() as usize).0 && d1 == index_drawn(d0, cs.len() as usize).1);
                let payload = match &variant.cases[case_idx].payload {
                    Some(p) => {
                        proof {
                            lemma_case_drawable_at(*spec, cs, case_idx as int);
                            lemma_cases_measure(*spec, spec.rank(), cs, case_idx as int);
                            lemma_ref_type_shallower(*spec, *p);
                        }
                        let t = p.resolve_wasi(spec);
                        match t.arbitrary_value(spec, u) {
                            Ok(v) => Some(v),
                            Err(e) => {
                                proof {
                                    lemma_case_may_fail_at(*spec, cs, case_idx as int);
                                }
                                return Err(e);
                            },
                        }
                    },
                    None => None,
                };
                Ok(WasiValue::Variant(Box::new(VariantValue { case_idx, payload })))
            },
            WasiType::Record(record) => {
                proof {
                    reveal_strlit("buf");
                    reveal_strlit("buf_len");
                }
                let buf_name = "buf".to_owned();
                let buf_len_name = "buf_len".to_owned();
                if record.members.len() == 2 && record.members[0].name == buf_name
                    && record.members[1].name == buf_len_name {
                    let buf_len = match choose_index(u, 64) {
                        Ok(n) => n,
                        Err(e) => {
                            return Err(e);
                        },
                    };
                    let ghost d1 = u.data();
                    let bytes = match take_bytes(u, buf_len) {
                        Ok(b) => b,
                        Err(e) => {
                            return Err(e);
                        },
                    };
                    let mut items: Vec<WasiValue> = Vec::new();
                    let mut i: usize = 0;
                    while i < bytes.len()
                        invariant
                            i <= bytes@.len(),
                            items@.len() == i,
                            forall|k: int| 0 <= k < i ==> #[trigger] items@[k] is U8,
                            forall|k: int| 0 <= k < i ==> (#[trigger] items@[k] matches WasiValue::U8(x) && x == bytes@[k]),
                        decreases bytes@.len() - i,
                    {
                        items.push(WasiValue::U8(bytes[i]));
                        i = i + 1;
                    }
                    let mut members: Vec<WasiValue> = Vec::new();
                    members.push(WasiValue::Pointer(PointerValue { items }));
                    members.push(WasiValue::U32(buf_len as u32));
                    Ok(WasiValue::Record(RecordValue { members }))
                } else {
                    let ghost ms = record.members@;
                    let mut members: Vec<WasiValue> = Vec::new();
                    let mut i: usize = 0;
                    proof {
                        assert(ms.subrange(0, 0) =~= Seq::<RecordMemberType>::empty());
                    }
                    while i < record.members.len()
                        invariant
                            spec.acyclic(),
                            ms == record.members@,
                            !is_buf_pair(*record),
                            members_drawable(*spec, ms),
                            spec.depth(*self) == members_measure(*spec, spec.rank(), ms),
                            *self == WasiType::Record(*record),
                            i <= ms.len(),
                            members@.len() == i,
                            members_admit(*spec, ms.subrange(0, i as int), members@),
                            d0 == old(u).data(),
                            !members_run(*spec, ms.subrange(0, i as int), d0).0,
                            u.data() == members_run(*spec, ms.subrange(0, i as int), d0).1,
                            members_from(*spec, ms.subrange(0, i as int), d0, members@),
                        decreases ms.len() - i,
                    {
                        let ghost upto = ms.subrange(0, i + 1);
                        let ghost before = members@;
                        proof {
                            lemma_member_drawable_at(*spec, ms, i as int);
                            lemma_members_measure(*spec, spec.rank(), ms, i as int);
                            lemma_ref_type_shallower(*spec, ms[i as int].tref);
                        }
                        let t = record.members[i].tref.resolve_wasi(spec);
                        match t.arbitrary_value(spec, u) {
                            Ok(v) => members.push(v),
                            Err(e) => {
                                proof {
                                    lemma_member_may_fail_at(*spec, ms, i as int);
                                    assert(upto.subrange(0, i as int) == ms.subrange(0, i as int));
                                    assert(upto[i as int] == ms[i as int]);
                                    lemma_members_run_failed(*spec, ms, d0, i + 1);
                                }
                                return Err(e);
                            },
                        }
                        proof {
                            assert(upto.subrange(0, i as int) == ms.subrange(0, i as int));
                            assert(upto[i as int] == ms[i as int]);
                            assert(members@.subrange(0, i as int) == before);
                        }
                        i = i + 1;
                    }
                    proof {
                        assert(ms.subrange(0, ms.len() as int) == ms);
                    }
                    Ok(WasiValue::Record(RecordValue { members }))
                }
            },
            WasiType::String => {
                let n = match choose_index(u, 16) {
                    Ok(n) => n,
                    Err(e) => {
                        return Err(e);
                    },
                };
                let ghost d1 = u.data();
                let alphabet: Vec<u8> = vec![46u8, 47u8, 97u8];
                let mut bytes: Vec<u8> = Vec::new();
                let mut i: usize = 0;
                while i < n
                    invariant
                        n < 16,
                        alphabet@ == seq![46u8, 47u8, 97u8],
                        i <= n,
                        bytes@.len() == i,
                        forall|k: int| 0 <= k < i ==> string_byte(#[trigger] bytes@[k]),
                        (bytes@, u.data()) == path_bytes_drawn(d1, i as nat),
                    decreases n - i,
                {
                    match choose_item(u, alphabet.as_slice()) {
                        Ok(b) => bytes.push(*b),
                        Err(e) => {
                            return Err(e);
                        },
                    }
                    i = i + 1;
                }
                Ok(WasiValue::String(bytes))
            },
            WasiType::Pointer(pointer) => {
                let n = match choose_index(u, 16) {
                    Ok(n) => n,
                    Err(e) => {
                        return Err(e);
                    },
                };
                let ghost d1 = u.data();
                proof {
                    lemma_ref_type_shallower(*spec, pointer.item);
                }
                let t = pointer.item.resolve_wasi(spec);
                let mut items: Vec<WasiValue> = Vec::new();
                let mut i: usize = 0;
                while i < n
                    invariant
                        spec.acyclic(),
                        n < 16,
                        ref_ok(*spec, pointer.item),
                        *t == ref_type(*spec, pointer.item),
                        drawable(*spec, *t),
                        spec.depth(*t) <= spec.depth(*self),
                        pointer.item is Named ==> spec.depth(*t) < spec.depth(*self),
                        pointer.item matches TypeRef::Anonymous(a) ==> *t == a,
                        *self == WasiType::Pointer(Box::new(**pointer)),
                        i <= n,
                        items@.len() == i,
                        items_admit(*spec, pointer.item, items@),
                        !items_run(*spec, pointer.item, d1, i as nat).0,
                        u.data() == items_run(*spec, pointer.item, d1, i as nat).1,
                        items_from(*spec, pointer.item, d1, items@),
                        n == index_drawn(d0, 16).0,
                        d1 == index_drawn(d0, 16).1,
                        d0 == old(u).data(),
                    decreases n - i,
                {
                    let ghost before = items@;
                    match t.arbitrary_value(spec, u) {
                        Ok(v) => items.push(v),
                        Err(e) => {
                            proof {
                                lemma_items_run_failed(*spec, pointer.item, d1, (i + 1) as nat, n as nat);
                            }
                            return Err(e);
                        },
                    }
                    proof {
                        assert(items@.subrange(0, i as int) == before);
                    }
                    i = i + 1;
                }
                Ok(WasiValue::Pointer(PointerValue { items }))
            },
            WasiType::List(list) => {
                let n = match choose_index(u, 16) {
                    Ok(n) => n,
                    Err(e) => {
                        return Err(e);
                    },
                };
                let ghost d1 = u.data();
                proof {
                    lemma_ref_type_shallower(*spec, list.item);
                }
                let t = list.item.resolve_wasi(spec);
                let mut items: Vec<WasiValue> = Vec::new();
                let mut i: usize = 0;
                while i < n
                    invariant
                        spec.acyclic(),
                        n < 16,
                        ref_ok(*spec, list.item),
                        *t == ref_type(*spec, list.item),
                        drawable(*spec, *t),
                        spec.depth(*t) <= spec.depth(*self),
                        list.item is Named ==> spec.depth(*t) < spec.depth(*self),
                        list.item matches TypeRef::Anonymous(a) ==> *t == a,
                        *self == WasiType::List(Box::new(**list)),
                        i <= n,
                        items@.len() == i,
                        items_admit(*spec, list.item, items@),
                        !items_run(*spec, list.item, d1, i as nat).0,
                        u.data() == items_run(*spec, list.item, d1, i as nat).1,
                        items_from(*spec, list.item, d1, items@),
                        n == index_drawn(d0, 16).0,
                        d1 == index_drawn(d0, 16).1,
                        d0 == old(u).data(),
                    decreases n - i,
                {
                    let ghost before = items@;
                    match t.arbitrary_value(spec, u) {
                        Ok(v) => items.push(v),
                        Err(e) => {
                            proof {
                                lemma_items_run_failed(*spec, list.item, d1, (i + 1) as nat, n as nat);
                            }
                            return Err(e);
                        },
                    }
                    proof {
                        assert(items@.subrange(0, i as int) == before);
                    }
                    i = i + 1;
                }
                Ok(WasiValue::List(ListValue { items }))
            },
        }
    }
}

} // verus!
