//! The zero value of a type of a specification.
use vstd::prelude::*;

use super::resolve::{
    lemma_cases_measure, lemma_members_measure, lemma_target_shallower, members_measure,
    refs_resolve,
};
use super::types::{RecordMemberType, Spec, TypeRef, WasiType};
use super::value::{FlagsValue, ListValue, PointerValue, RecordValue, VariantValue, WasiValue};

verus! {

/// The type that a reference resolves to.
pub open spec fn resolved(spec: Spec, r: TypeRef) -> WasiType {
    spec.types.values()[r.target(spec).unwrap()].wasi
}

/// Whether the type has a zero value: every variant met on the way, through
/// first cases and record members, has a case, and every reference met names
/// a type of the spec.
pub open spec fn zero_ok(spec: Spec, t: WasiType) -> bool
    decreases spec.depth(t), t,
    when spec.acyclic() && refs_resolve(spec, t)
{
    match t {
        WasiType::Variant(v) => v.cases@.len() > 0 && match v.cases@[0].payload {
            Some(p) => {
                proof {
                    lemma_target_shallower(spec, p);
                    lemma_cases_measure(spec, spec.rank(), v.cases@, 0);
                }
                refs_resolve(spec, resolved(spec, p)) && zero_ok(spec, resolved(spec, p))
            },
            None => true,
        },
        WasiType::Record(r) => members_zero_ok(spec, r.members@),
        _ => true,
    }
}

pub open spec fn members_zero_ok(spec: Spec, ms: Seq<RecordMemberType>) -> bool
    decreases members_measure(spec, spec.rank(), ms), ms,
    when spec.acyclic() && forall|i: int| 0 <= i < ms.len() ==> (#[trigger] ms[i]).tref.target(spec) is Some
{
    if ms.len() == 0 {
        true
    } else {
        let last = ms[ms.len() - 1].tref;
        proof {
            lemma_members_measure(spec, spec.rank(), ms, ms.len() - 1);
            lemma_target_shallower(spec, last);
        }
        &&& members_zero_ok(spec, ms.subrange(0, ms.len() - 1))
        &&& refs_resolve(spec, resolved(spec, last))
        &&& zero_ok(spec, resolved(spec, last))
    }
}

/// Whether `v` is the zero of `t`: integers and handles are zero, no flag is
/// set, strings, lists and pointers are empty, a variant is its first case
/// with its payload's zero, and a record holds each member's zero.
pub open spec fn is_zero(spec: Spec, t: WasiType, v: WasiValue) -> bool
    decreases spec.depth(t), t,
    when spec.acyclic() && refs_resolve(spec, t)
{
    match (t, v) {
        (WasiType::S64, WasiValue::S64(x)) => x == 0,
        (WasiType::U8, WasiValue::U8(x)) => x == 0,
        (WasiType::U16, WasiValue::U16(x)) => x == 0,
        (WasiType::U32, WasiValue::U32(x)) => x == 0,
        (WasiType::U64, WasiValue::U64(x)) => x == 0,
        (WasiType::Handle, WasiValue::Handle(x)) => x == 0,
        (WasiType::Flags(f), WasiValue::Flags(fv)) => fv.fields@ == Seq::new(
            f.fields@.len(),
            |i: int| false,
        ),
        (WasiType::String, WasiValue::String(b)) => b@.len() == 0,
        (WasiType::List(_), WasiValue::List(l)) => l.items@.len() == 0,
        (WasiType::Pointer(_), WasiValue::Pointer(p)) => p.items@.len() == 0,
        (WasiType::Variant(t), WasiValue::Variant(b)) => {
            &&& t.cases@.len() > 0
            &&& b.case_idx == 0
            &&& match (t.cases@[0].payload, b.payload) {
                (None, None) => true,
                (Some(p), Some(pv)) => {
                    proof {
                        lemma_target_shallower(spec, p);
                        lemma_cases_measure(spec, spec.rank(), t.cases@, 0);
                    }
                    is_zero(spec, resolved(spec, p), pv)
                },
                _ => false,
            }
        },
        (WasiType::Record(r), WasiValue::Record(rv)) => members_are_zero(spec, r.members@, rv.members@),
        _ => false,
    }
}

pub open spec fn members_are_zero(spec: Spec, ms: Seq<RecordMemberType>, vs: Seq<WasiValue>) -> bool
    decreases members_measure(spec, spec.rank(), ms), ms,
    when spec.acyclic() && forall|i: int| 0 <= i < ms.len() ==> (#[trigger] ms[i]).tref.target(spec) is Some
{
    if ms.len() == 0 {
        vs.len() == 0
    } else {
        let last = ms[ms.len() - 1].tref;
        proof {
            lemma_members_measure(spec, spec.rank(), ms, ms.len() - 1);
            lemma_target_shallower(spec, last);
        }
        &&& vs.len() == ms.len()
        &&& members_are_zero(spec, ms.subrange(0, ms.len() - 1), vs.subrange(0, vs.len() - 1))
        &&& is_zero(spec, resolved(spec, last), vs[vs.len() - 1])
    }
}

impl WasiType {
    /// The zero value of the type.
    pub fn zero_value(&self, spec: &Spec) -> (r: WasiValue)
        requires
            spec.acyclic(),
            refs_resolve(*spec, *self),
            zero_ok(*spec, *self),
        ensures
            is_zero(*spec, *self, r),
        decreases spec.depth(*self), *self,
    {
        match self {
            WasiType::S64 => WasiValue::S64(0),
            WasiType::U8 => WasiValue::U8(0),
            WasiType::U16 => WasiValue::U16(0),
            WasiType::U32 => WasiValue::U32(0),
            WasiType::U64 => WasiValue::U64(0),
            WasiType::Handle => WasiValue::Handle(0),
            WasiType::Flags(flags) => {
                let mut fields: Vec<bool> = Vec::new();
                let mut i: usize = 0;
                while i < flags.fields.len()
                    invariant
                        i <= flags.fields@.len(),
                        fields@ == Seq::new(i as nat, |j: int| false),
                    decreases flags.fields@.len() - i,
                {
                    fields.push(false);
                    i = i + 1;
                }
                WasiValue::Flags(FlagsValue { fields })
            },
            WasiType::Variant(variant) => {
                let payload = match &variant.cases[0].payload {
                    Some(p) => {
                        proof {
                            lemma_target_shallower(*spec, *p);
                            lemma_cases_measure(*spec, spec.rank(), variant.cases@, 0);
                        }
                        Some(p.resolve(spec).wasi.zero_value(spec))
                    },
                    None => None,
                };
                WasiValue::Variant(Box::new(VariantValue { case_idx: 0, payload }))
            },
            WasiType::Record(record) => {
                let ghost ms = record.members@;
                let mut members: Vec<WasiValue> = Vec::new();
                let mut i: usize = 0;
                while i < record.members.len()
                    invariant
                        spec.acyclic(),
                        ms == record.members@,
                        refs_resolve(*spec, *self),
                        *self == WasiType::Record(*record),
                        members_zero_ok(*spec, ms),
                        i <= ms.len(),
                        members_are_zero(*spec, ms.subrange(0, i as int), members@),
                    decreases ms.len() - i,
                {
                    let ghost pre = ms.subrange(0, i as int);
                    let ghost upto = ms.subrange(0, i + 1);
                    proof {
                        assert(upto.subrange(0, i as int) == pre);
                        lemma_members_measure(*spec, spec.rank(), ms, i as int);
                        lemma_target_shallower(*spec, ms[i as int].tref);
                        lemma_members_zero_ok_at(*spec, ms, i as int);
                    }
                    let v = record.members[i].tref.resolve(spec).wasi.zero_value(spec);
                    let ghost before = members@;
                    members.push(v);
                    proof {
                        assert(members@.subrange(0, i as int) == before);
                        assert(forall|k: int| 0 <= k < upto.len() ==> (#[trigger] upto[k]).tref.target(*spec) is Some);
                    }
                    i = i + 1;
                }
                assert(ms.subrange(0, ms.len() as int) == ms);
                WasiValue::Record(RecordValue { members })
            },
            WasiType::Pointer(_) => WasiValue::Pointer(PointerValue { items: Vec::new() }),
            WasiType::String => WasiValue::String(Vec::new()),
            WasiType::List(_) => WasiValue::List(ListValue { items: Vec::new() }),
        }
    }
}

/// Where every member has a zero, so does each one, and so do the members
/// before it.
pub proof fn lemma_members_zero_ok_at(spec: Spec, ms: Seq<RecordMemberType>, i: int)
    requires
        spec.acyclic(),
        forall|k: int| 0 <= k < ms.len() ==> (#[trigger] ms[k]).tref.target(spec) is Some,
        members_zero_ok(spec, ms),
        0 <= i < ms.len(),
    ensures
        zero_ok(spec, resolved(spec, ms[i].tref)),
        members_zero_ok(spec, ms.subrange(0, i)),
        refs_resolve(spec, resolved(spec, ms[i].tref)),
    decreases ms.len(),
{
    let init = ms.subrange(0, ms.len() - 1);
    lemma_target_shallower(spec, ms[i].tref);
    assert(forall|k: int| 0 <= k < init.len() ==> (#[trigger] init[k]).tref.target(spec) is Some) by {
        assert forall|k: int| 0 <= k < init.len() implies (#[trigger] init[k]).tref.target(spec) is Some by {
            assert(init[k] == ms[k]);
        }
    }
    if i < ms.len() - 1 {
        lemma_members_zero_ok_at(spec, init, i);
        assert(init.subrange(0, i) == ms.subrange(0, i));
        assert(init[i] == ms[i]);
    } else {
        assert(init == ms.subrange(0, i));
    }
}

} // verus!
