//! Sizes, alignments and member offsets of the types of a specification,
//! references followed to the types they name.
use vstd::prelude::*;

use super::resolve::{
    cases_measure, lemma_cases_measure, lemma_members_measure, lemma_target_shallower,
    members_measure, refs_resolve,
};
use super::types::{
    FlagsType, IntRepr, ListType, PointerType, RecordMemberLayout, RecordMemberType, RecordType, Spec, TypeRef, VariantCaseType, VariantType,
    WasiType,
};
use super::zero::resolved;
use crate::wasi::layout::{align_to, lemma_align_up};
use crate::wasi::types::{align_up, max, valid_alignment};

verus! {

/// Whether every type met through records and variants, following
/// references, has a size (strings, which the caller lays out, have none),
/// and every reference met names a type of the spec.
pub open spec fn sized(spec: Spec, t: WasiType) -> bool
    decreases spec.depth(t), 2nat, 0nat,
    when spec.acyclic() && refs_resolve(spec, t)
{
    match t {
        WasiType::String => false,
        WasiType::Record(r) => members_sized(spec, r.members@),
        WasiType::Variant(v) => cases_sized(spec, v.cases@),
        _ => true,
    }
}

pub open spec fn members_sized(spec: Spec, ms: Seq<RecordMemberType>) -> bool
    decreases members_measure(spec, spec.rank(), ms), 1nat, ms.len(),
    when spec.acyclic() && forall|i: int| 0 <= i < ms.len() ==> (#[trigger] ms[i]).tref.target(spec) is Some
{
    if ms.len() == 0 {
        true
    } else {
        let last = ms[ms.len() - 1].tref;
        proof {
            lemma_members_measure(spec, spec.rank(), ms, ms.len() - 1);
            lemma_target_shallower(spec, last);
        }
        &&& members_sized(spec, ms.subrange(0, ms.len() - 1))
        &&& refs_resolve(spec, resolved(spec, last))
        &&& sized(spec, resolved(spec, last))
    }
}

pub open spec fn cases_sized(spec: Spec, cs: Seq<VariantCaseType>) -> bool
    decreases cases_measure(spec, spec.rank(), cs), 1nat, cs.len(),
    when spec.acyclic() && forall|i: int|
        0 <= i < cs.len() ==> ((#[trigger] cs[i]).payload matches Some(p) ==> p.target(spec) is Some)
{
    if cs.len() == 0 {
        true
    } else {
        proof {
            lemma_cases_measure(spec, spec.rank(), cs, cs.len() - 1);
        }
        cases_sized(spec, cs.subrange(0, cs.len() - 1)) && match cs[cs.len() - 1].payload {
            Some(p) => {
                proof {
                    lemma_target_shallower(spec, p);
                }
                refs_resolve(spec, resolved(spec, p)) && sized(spec, resolved(spec, p))
            },
            None => true,
        }
    }
}

/// Whether every reference met through records and variants names a type of
/// the spec.
pub open spec fn resolvable(spec: Spec, t: WasiType) -> bool
    decreases spec.depth(t), 2nat, 0nat,
    when spec.acyclic() && refs_resolve(spec, t)
{
    match t {
        WasiType::Record(r) => members_resolvable(spec, r.members@),
        WasiType::Variant(v) => cases_resolvable(spec, v.cases@),
        _ => true,
    }
}

pub open spec fn members_resolvable(spec: Spec, ms: Seq<RecordMemberType>) -> bool
    decreases members_measure(spec, spec.rank(), ms), 1nat, ms.len(),
    when spec.acyclic() && forall|i: int| 0 <= i < ms.len() ==> (#[trigger] ms[i]).tref.target(spec) is Some
{
    if ms.len() == 0 {
        true
    } else {
        let last = ms[ms.len() - 1].tref;
        proof {
            lemma_members_measure(spec, spec.rank(), ms, ms.len() - 1);
            lemma_target_shallower(spec, last);
        }
        &&& members_resolvable(spec, ms.subrange(0, ms.len() - 1))
        &&& refs_resolve(spec, resolved(spec, last))
        &&& resolvable(spec, resolved(spec, last))
    }
}

pub open spec fn cases_resolvable(spec: Spec, cs: Seq<VariantCaseType>) -> bool
    decreases cases_measure(spec, spec.rank(), cs), 1nat, cs.len(),
    when spec.acyclic() && forall|i: int|
        0 <= i < cs.len() ==> ((#[trigger] cs[i]).payload matches Some(p) ==> p.target(spec) is Some)
{
    if cs.len() == 0 {
        true
    } else {
        proof {
            lemma_cases_measure(spec, spec.rank(), cs, cs.len() - 1);
        }
        cases_resolvable(spec, cs.subrange(0, cs.len() - 1)) && match cs[cs.len() - 1].payload {
            Some(p) => {
                proof {
                    lemma_target_shallower(spec, p);
                }
                refs_resolve(spec, resolved(spec, p)) && resolvable(spec, resolved(spec, p))
            },
            None => true,
        }
    }
}

/// A type's alignment in bytes.
pub open spec fn type_alignment(spec: Spec, t: WasiType) -> int
    decreases spec.depth(t), 2nat, 0nat,
    when spec.acyclic() && refs_resolve(spec, t)
{
    match t {
        WasiType::U8 => 1,
        WasiType::U16 => 2,
        WasiType::U32 => 4,
        WasiType::S64 | WasiType::U64 => 8,
        WasiType::Pointer(_) => 4,
        WasiType::List(_) => 4,
        WasiType::Record(r) => members_alignment(spec, r.members@),
        WasiType::Variant(v) => max(v.tag_repr.bytes(), cases_alignment(spec, v.cases@)),
        WasiType::Handle => 4,
        WasiType::Flags(f) => f.repr.bytes(),
        WasiType::String => 4,
    }
}

/// A record's alignment: the largest of its members', one where it has none.
pub open spec fn members_alignment(spec: Spec, ms: Seq<RecordMemberType>) -> int
    decreases members_measure(spec, spec.rank(), ms), 1nat, ms.len(),
    when spec.acyclic() && forall|i: int| 0 <= i < ms.len() ==> (#[trigger] ms[i]).tref.target(spec) is Some
{
    if ms.len() == 0 {
        1
    } else {
        let last = ms[ms.len() - 1].tref;
        proof {
            lemma_members_measure(spec, spec.rank(), ms, ms.len() - 1);
            lemma_target_shallower(spec, last);
        }
        max(members_alignment(spec, ms.subrange(0, ms.len() - 1)), type_alignment(spec, resolved(spec, last)))
    }
}

/// The largest alignment of a variant's payloads, one where it has none.
pub open spec fn cases_alignment(spec: Spec, cs: Seq<VariantCaseType>) -> int
    decreases cases_measure(spec, spec.rank(), cs), 1nat, cs.len(),
    when spec.acyclic() && forall|i: int|
        0 <= i < cs.len() ==> ((#[trigger] cs[i]).payload matches Some(p) ==> p.target(spec) is Some)
{
    if cs.len() == 0 {
        1
    } else {
        proof {
            lemma_cases_measure(spec, spec.rank(), cs, cs.len() - 1);
        }
        let before = cases_alignment(spec, cs.subrange(0, cs.len() - 1));
        match cs[cs.len() - 1].payload {
            Some(p) => {
                proof {
                    lemma_target_shallower(spec, p);
                }
                max(before, type_alignment(spec, resolved(spec, p)))
            },
            None => before,
        }
    }
}

/// A type's size in bytes.
pub open spec fn type_size(spec: Spec, t: WasiType) -> int
    decreases spec.depth(t), 2nat, 0nat,
    when spec.acyclic() && refs_resolve(spec, t)
{
    match t {
        WasiType::U8 => 1,
        WasiType::U16 => 2,
        WasiType::U32 => 4,
        WasiType::S64 | WasiType::U64 => 8,
        WasiType::Pointer(_) => 4,
        WasiType::List(_) => 8,
        WasiType::Record(r) => align_up(members_end(spec, r.members@), members_alignment(spec, r.members@)),
        WasiType::Variant(v) => align_up(
            align_up(v.tag_repr.bytes(), cases_alignment(spec, v.cases@)) + cases_max_size(spec, v.cases@),
            max(v.tag_repr.bytes(), cases_alignment(spec, v.cases@)),
        ),
        WasiType::Handle => 4,
        WasiType::Flags(f) => f.repr.bytes(),
        WasiType::String => 0,
    }
}

/// Where a record's members end: each member starts at the next multiple of
/// its alignment after the one before.
pub open spec fn members_end(spec: Spec, ms: Seq<RecordMemberType>) -> int
    decreases members_measure(spec, spec.rank(), ms), 1nat, ms.len(),
    when spec.acyclic() && forall|i: int| 0 <= i < ms.len() ==> (#[trigger] ms[i]).tref.target(spec) is Some
{
    if ms.len() == 0 {
        0
    } else {
        let last = ms[ms.len() - 1].tref;
        proof {
            lemma_members_measure(spec, spec.rank(), ms, ms.len() - 1);
            lemma_target_shallower(spec, last);
        }
        let t = resolved(spec, last);
        align_up(members_end(spec, ms.subrange(0, ms.len() - 1)), type_alignment(spec, t)) + type_size(spec, t)
    }
}

/// The largest size of a variant's payloads, zero where it has none.
pub open spec fn cases_max_size(spec: Spec, cs: Seq<VariantCaseType>) -> int
    decreases cases_measure(spec, spec.rank(), cs), 1nat, cs.len(),
    when spec.acyclic() && forall|i: int|
        0 <= i < cs.len() ==> ((#[trigger] cs[i]).payload matches Some(p) ==> p.target(spec) is Some)
{
    if cs.len() == 0 {
        0
    } else {
        proof {
            lemma_cases_measure(spec, spec.rank(), cs, cs.len() - 1);
        }
        let before = cases_max_size(spec, cs.subrange(0, cs.len() - 1));
        match cs[cs.len() - 1].payload {
            Some(p) => {
                proof {
                    lemma_target_shallower(spec, p);
                }
                max(before, type_size(spec, resolved(spec, p)))
            },
            None => before,
        }
    }
}

/// The offset of a record's `k`th member.
pub open spec fn member_offset(spec: Spec, ms: Seq<RecordMemberType>, k: int) -> int {
    align_up(members_end(spec, ms.subrange(0, k)), type_alignment(spec, resolved(spec, ms[k].tref)))
}


/// Every type's alignment is one, two, four or eight bytes, and its size is a
/// multiple of its alignment, references followed.
pub proof fn lemma_layout(spec: Spec, t: WasiType)
    requires
        spec.acyclic(),
        refs_resolve(spec, t),
        resolvable(spec, t),
    ensures
        valid_alignment(type_alignment(spec, t)),
        type_size(spec, t) >= 0,
        type_size(spec, t) % type_alignment(spec, t) == 0,
    decreases spec.depth(t), 2nat, 0nat,
{
    match t {
        WasiType::Record(r) => {
            lemma_members_layout(spec, r.members@);
            let end = members_end(spec, r.members@);
            let a = members_alignment(spec, r.members@);
            lemma_align_up(end, a);
            assert(type_size(spec, t) == align_up(end, a));
        },
        WasiType::Variant(v) => {
            lemma_cases_layout(spec, v.cases@);
            let ca = cases_alignment(spec, v.cases@);
            let a = max(v.tag_repr.bytes(), ca);
            lemma_align_up(v.tag_repr.bytes(), ca);
            lemma_align_up(align_up(v.tag_repr.bytes(), ca) + cases_max_size(spec, v.cases@), a);
        },
        WasiType::Flags(f) => {
            assert(f.repr.bytes() % f.repr.bytes() == 0);
        },
        _ => {},
    }
}

/// A record's members: their alignment is valid, and they end at or after
/// offset zero.
pub proof fn lemma_members_layout(spec: Spec, ms: Seq<RecordMemberType>)
    requires
        spec.acyclic(),
        forall|i: int| 0 <= i < ms.len() ==> (#[trigger] ms[i]).tref.target(spec) is Some,
        members_resolvable(spec, ms),
    ensures
        valid_alignment(members_alignment(spec, ms)),
        members_end(spec, ms) >= 0,
    decreases members_measure(spec, spec.rank(), ms), 1nat, ms.len(),
{
    if ms.len() > 0 {
        let init = ms.subrange(0, ms.len() - 1);
        let last = ms[ms.len() - 1].tref;
        assert forall|i: int| 0 <= i < init.len() implies (#[trigger] init[i]).tref.target(spec) is Some by {
            assert(init[i] == ms[i]);
        }
        lemma_members_measure(spec, spec.rank(), ms, ms.len() - 1);
        lemma_target_shallower(spec, last);
        lemma_members_layout(spec, init);
        lemma_layout(spec, resolved(spec, last));
        lemma_align_up(members_end(spec, init), type_alignment(spec, resolved(spec, last)));
    }
}

/// A variant's cases: the largest payload alignment is valid, and the
/// largest payload size is not negative.
pub proof fn lemma_cases_layout(spec: Spec, cs: Seq<VariantCaseType>)
    requires
        spec.acyclic(),
        forall|i: int| 0 <= i < cs.len() ==> ((#[trigger] cs[i]).payload matches Some(p) ==> p.target(spec) is Some),
        cases_resolvable(spec, cs),
    ensures
        valid_alignment(cases_alignment(spec, cs)),
        cases_max_size(spec, cs) >= 0,
    decreases cases_measure(spec, spec.rank(), cs), 1nat, cs.len(),
{
    if cs.len() > 0 {
        let init = cs.subrange(0, cs.len() - 1);
        assert forall|i: int| 0 <= i < init.len() implies ((#[trigger] init[i]).payload matches Some(p) ==> p.target(spec) is Some) by {
            assert(init[i] == cs[i]);
        }
        lemma_cases_measure(spec, spec.rank(), cs, cs.len() - 1);
        lemma_cases_layout(spec, init);
        match cs[cs.len() - 1].payload {
            Some(p) => {
                lemma_target_shallower(spec, p);
                lemma_layout(spec, resolved(spec, p));
            },
            None => {},
        }
    }
}

/// The members of a prefix of a record end no later than all its members.
pub proof fn lemma_members_end_prefix(spec: Spec, ms: Seq<RecordMemberType>, i: int)
    requires
        spec.acyclic(),
        forall|k: int| 0 <= k < ms.len() ==> (#[trigger] ms[k]).tref.target(spec) is Some,
        members_resolvable(spec, ms),
        0 <= i <= ms.len(),
    ensures
        members_end(spec, ms.subrange(0, i)) <= members_end(spec, ms),
    decreases ms.len(),
{
    if i < ms.len() {
        let init = ms.subrange(0, ms.len() - 1);
        let last = ms[ms.len() - 1].tref;
        assert forall|k: int| 0 <= k < init.len() implies (#[trigger] init[k]).tref.target(spec) is Some by {
            assert(init[k] == ms[k]);
        }
        lemma_members_end_prefix(spec, init, i);
        assert(init.subrange(0, i) == ms.subrange(0, i));
        lemma_members_layout(spec, init);
        lemma_target_shallower(spec, last);
        lemma_layout(spec, resolved(spec, last));
        lemma_align_up(members_end(spec, init), type_alignment(spec, resolved(spec, last)));
    } else {
        assert(ms.subrange(0, i) == ms);
    }
}

/// Where every member has a size, so does each one, and so do the members
/// before it.
pub proof fn lemma_member_sized_at(spec: Spec, ms: Seq<RecordMemberType>, k: int)
    requires
        spec.acyclic(),
        forall|j: int| 0 <= j < ms.len() ==> (#[trigger] ms[j]).tref.target(spec) is Some,
        members_sized(spec, ms),
        0 <= k < ms.len(),
    ensures
        refs_resolve(spec, resolved(spec, ms[k].tref)),
        sized(spec, resolved(spec, ms[k].tref)),
        members_sized(spec, ms.subrange(0, k)),
    decreases ms.len(),
{
    let init = ms.subrange(0, ms.len() - 1);
    assert forall|j: int| 0 <= j < init.len() implies (#[trigger] init[j]).tref.target(spec) is Some by {
        assert(init[j] == ms[j]);
    }
    lemma_target_shallower(spec, ms[ms.len() - 1].tref);
    if k < ms.len() - 1 {
        lemma_member_sized_at(spec, init, k);
        assert(init.subrange(0, k) == ms.subrange(0, k));
        assert(init[k] == ms[k]);
    } else {
        assert(init == ms.subrange(0, k));
    }
}

/// Where every payload has a size, so does each one.
pub proof fn lemma_case_sized_at(spec: Spec, cs: Seq<VariantCaseType>, k: int)
    requires
        spec.acyclic(),
        forall|j: int| 0 <= j < cs.len() ==> ((#[trigger] cs[j]).payload matches Some(p) ==> p.target(spec) is Some),
        cases_sized(spec, cs),
        0 <= k < cs.len(),
    ensures
        cs[k].payload matches Some(p) ==> refs_resolve(spec, resolved(spec, p)) && sized(spec, resolved(spec, p)),
    decreases cs.len(),
{
    let init = cs.subrange(0, cs.len() - 1);
    assert forall|j: int| 0 <= j < init.len() implies ((#[trigger] init[j]).payload matches Some(p) ==> p.target(spec) is Some) by {
        assert(init[j] == cs[j]);
    }
    match cs[cs.len() - 1].payload {
        Some(p) => lemma_target_shallower(spec, p),
        None => {},
    }
    match cs[k].payload {
        Some(p) => lemma_target_shallower(spec, p),
        None => {},
    }
    if k < cs.len() - 1 {
        lemma_case_sized_at(spec, init, k);
        assert(init[k] == cs[k]);
    }
}

/// Where every reference met through a record's members resolves, so does
/// every one met through each member, and through the members before it.
pub proof fn lemma_member_resolvable_at(spec: Spec, ms: Seq<RecordMemberType>, k: int)
    requires
        spec.acyclic(),
        forall|j: int| 0 <= j < ms.len() ==> (#[trigger] ms[j]).tref.target(spec) is Some,
        members_resolvable(spec, ms),
        0 <= k < ms.len(),
    ensures
        refs_resolve(spec, resolved(spec, ms[k].tref)),
        resolvable(spec, resolved(spec, ms[k].tref)),
        members_resolvable(spec, ms.subrange(0, k)),
    decreases ms.len(),
{
    let init = ms.subrange(0, ms.len() - 1);
    assert forall|j: int| 0 <= j < init.len() implies (#[trigger] init[j]).tref.target(spec) is Some by {
        assert(init[j] == ms[j]);
    }
    lemma_target_shallower(spec, ms[ms.len() - 1].tref);
    if k < ms.len() - 1 {
        lemma_member_resolvable_at(spec, init, k);
        assert(init.subrange(0, k) == ms.subrange(0, k));
        assert(init[k] == ms[k]);
    } else {
        assert(init == ms.subrange(0, k));
    }
}

/// Where every reference met through a variant's payloads resolves, so does
/// every one met through each payload, and through the cases before it.
pub proof fn lemma_case_resolvable_at(spec: Spec, cs: Seq<VariantCaseType>, k: int)
    requires
        spec.acyclic(),
        forall|j: int| 0 <= j < cs.len() ==> ((#[trigger] cs[j]).payload matches Some(p) ==> p.target(spec) is Some),
        cases_resolvable(spec, cs),
        0 <= k < cs.len(),
    ensures
        cs[k].payload matches Some(p) ==> refs_resolve(spec, resolved(spec, p)) && resolvable(spec, resolved(spec, p)),
        cases_resolvable(spec, cs.subrange(0, k)),
    decreases cs.len(),
{
    let init = cs.subrange(0, cs.len() - 1);
    assert forall|j: int| 0 <= j < init.len() implies ((#[trigger] init[j]).payload matches Some(p) ==> p.target(spec) is Some) by {
        assert(init[j] == cs[j]);
    }
    match cs[cs.len() - 1].payload {
        Some(p) => lemma_target_shallower(spec, p),
        None => {},
    }
    match cs[k].payload {
        Some(p) => lemma_target_shallower(spec, p),
        None => {},
    }
    if k < cs.len() - 1 {
        lemma_case_resolvable_at(spec, init, k);
        assert(init[k] == cs[k]);
        assert(init.subrange(0, k) == cs.subrange(0, k));
    } else {
        assert(init == cs.subrange(0, k));
    }
}

/// A type with a size has every reference met through it resolved.
pub proof fn lemma_sized_resolvable(spec: Spec, t: WasiType)
    requires
        spec.acyclic(),
        refs_resolve(spec, t),
        sized(spec, t),
    ensures
        resolvable(spec, t),
    decreases spec.depth(t), 2nat, 0nat,
{
    match t {
        WasiType::Record(r) => lemma_members_sized_resolvable(spec, r.members@),
        WasiType::Variant(v) => lemma_cases_sized_resolvable(spec, v.cases@),
        _ => {},
    }
}

pub proof fn lemma_members_sized_resolvable(spec: Spec, ms: Seq<RecordMemberType>)
    requires
        spec.acyclic(),
        forall|i: int| 0 <= i < ms.len() ==> (#[trigger] ms[i]).tref.target(spec) is Some,
        members_sized(spec, ms),
    ensures
        members_resolvable(spec, ms),
    decreases members_measure(spec, spec.rank(), ms), 1nat, ms.len(),
{
    if ms.len() > 0 {
        let init = ms.subrange(0, ms.len() - 1);
        let last = ms[ms.len() - 1].tref;
        assert forall|i: int| 0 <= i < init.len() implies (#[trigger] init[i]).tref.target(spec) is Some by {
            assert(init[i] == ms[i]);
        }
        lemma_members_measure(spec, spec.rank(), ms, ms.len() - 1);
        lemma_target_shallower(spec, last);
        lemma_members_sized_resolvable(spec, init);
        lemma_sized_resolvable(spec, resolved(spec, last));
    }
}

pub proof fn lemma_cases_sized_resolvable(spec: Spec, cs: Seq<VariantCaseType>)
    requires
        spec.acyclic(),
        forall|i: int| 0 <= i < cs.len() ==> ((#[trigger] cs[i]).payload matches Some(p) ==> p.target(spec) is Some),
        cases_sized(spec, cs),
    ensures
        cases_resolvable(spec, cs),
    decreases cases_measure(spec, spec.rank(), cs), 1nat, cs.len(),
{
    if cs.len() > 0 {
        let init = cs.subrange(0, cs.len() - 1);
        assert forall|i: int| 0 <= i < init.len() implies ((#[trigger] init[i]).payload matches Some(p) ==> p.target(spec) is Some) by {
            assert(init[i] == cs[i]);
        }
        lemma_cases_measure(spec, spec.rank(), cs, cs.len() - 1);
        lemma_cases_sized_resolvable(spec, init);
        match cs[cs.len() - 1].payload {
            Some(p) => {
                lemma_target_shallower(spec, p);
                lemma_sized_resolvable(spec, resolved(spec, p));
            },
            None => {},
        }
    }
}

/// A case's payload is no more aligned, and no larger, than the variant's
/// payloads taken together, nor than those of a longer list of cases.
pub proof fn lemma_payload_bounded(spec: Spec, cs: Seq<VariantCaseType>, k: int)
    requires
        spec.acyclic(),
        forall|j: int| 0 <= j < cs.len() ==> ((#[trigger] cs[j]).payload matches Some(p) ==> p.target(spec) is Some),
        cases_resolvable(spec, cs),
        0 <= k < cs.len(),
    ensures
        cs[k].payload matches Some(p) ==> type_alignment(spec, resolved(spec, p)) <= cases_alignment(spec, cs)
            && type_size(spec, resolved(spec, p)) <= cases_max_size(spec, cs),
        cases_alignment(spec, cs.subrange(0, k)) <= cases_alignment(spec, cs),
        cases_max_size(spec, cs.subrange(0, k)) <= cases_max_size(spec, cs),
    decreases cs.len(),
{
    let init = cs.subrange(0, cs.len() - 1);
    assert forall|j: int| 0 <= j < init.len() implies ((#[trigger] init[j]).payload matches Some(p) ==> p.target(spec) is Some) by {
        assert(init[j] == cs[j]);
    }
    lemma_cases_measure(spec, spec.rank(), cs, cs.len() - 1);
    match cs[cs.len() - 1].payload {
        Some(p) => lemma_target_shallower(spec, p),
        None => {},
    }
    match cs[k].payload {
        Some(p) => lemma_target_shallower(spec, p),
        None => {},
    }
    lemma_case_resolvable_at(spec, cs, k);
    lemma_case_resolvable_at(spec, cs, cs.len() - 1);
    if k < cs.len() - 1 {
        lemma_payload_bounded(spec, init, k);
        assert(init[k] == cs[k]);
        assert(init.subrange(0, k) == cs.subrange(0, k));
    } else {
        assert(init == cs.subrange(0, k));
    }
}


impl TypeRef {
    /// The alignment of the type the reference resolves to.
    pub fn alignment(&self, spec: &Spec) -> (r: u32)
        requires
            spec.acyclic(),
            self.target(*spec) is Some,
            refs_resolve(*spec, resolved(*spec, *self)),
            resolvable(*spec, resolved(*spec, *self)),
        ensures
            r == type_alignment(*spec, resolved(*spec, *self)),
            valid_alignment(r as int),
        decreases self.measure(*spec, spec.rank()), 0nat,
    {
        proof {
            lemma_target_shallower(*spec, *self);
        }
        self.resolve(spec).wasi.alignment(spec)
    }

    /// The size of the type the reference resolves to.
    pub fn mem_size(&self, spec: &Spec) -> (r: u32)
        requires
            spec.acyclic(),
            self.target(*spec) is Some,
            refs_resolve(*spec, resolved(*spec, *self)),
            sized(*spec, resolved(*spec, *self)),
            type_size(*spec, resolved(*spec, *self)) <= u32::MAX,
        ensures
            r == type_size(*spec, resolved(*spec, *self)),
        decreases self.measure(*spec, spec.rank()), 0nat,
    {
        proof {
            lemma_target_shallower(*spec, *self);
        }
        self.resolve(spec).wasi.mem_size(spec)
    }
}

impl WasiType {
    /// The type's alignment in bytes.
    pub fn alignment(&self, spec: &Spec) -> (r: u32)
        requires
            spec.acyclic(),
            refs_resolve(*spec, *self),
            resolvable(*spec, *self),
        ensures
            r == type_alignment(*spec, *self),
            valid_alignment(r as int),
        decreases spec.depth(*self), 3nat,
    {
        proof {
            lemma_layout(*spec, *self);
        }
        match self {
            WasiType::U8 => 1,
            WasiType::U16 => 2,
            WasiType::U32 => 4,
            WasiType::S64 | WasiType::U64 => 8,
            WasiType::Pointer(_) => 4,
            WasiType::List(_) => 4,
            WasiType::Record(record) => record.alignment(spec),
            WasiType::Variant(variant) => variant.alignment(spec),
            WasiType::Handle => 4,
            WasiType::Flags(flags) => flags.repr.alignment(),
            WasiType::String => 4,
        }
    }

    /// The type's size in bytes.
    pub fn mem_size(&self, spec: &Spec) -> (r: u32)
        requires
            spec.acyclic(),
            refs_resolve(*spec, *self),
            sized(*spec, *self),
            type_size(*spec, *self) <= u32::MAX,
        ensures
            r == type_size(*spec, *self),
        decreases spec.depth(*self), 3nat,
    {
        proof {
            lemma_sized_resolvable(*spec, *self);
        }
        match self {
            WasiType::U8 => 1,
            WasiType::U16 => 2,
            WasiType::U32 => 4,
            WasiType::S64 | WasiType::U64 => 8,
            WasiType::Pointer(_) => 4,
            WasiType::List(_) => 8,
            WasiType::Record(record) => record.mem_size(spec),
            WasiType::Variant(variant) => variant.mem_size(spec),
            WasiType::Handle => 4,
            WasiType::Flags(flags) => flags.repr.mem_size(),
            WasiType::String => 0,
        }
    }
}

impl RecordType {
    /// The record's alignment: the largest of its members', one where it has
    /// none.
    pub fn alignment(&self, spec: &Spec) -> (r: u32)
        requires
            spec.acyclic(),
            refs_resolve(*spec, WasiType::Record(*self)),
            members_resolvable(*spec, self.members@),
        ensures
            r == members_alignment(*spec, self.members@),
            valid_alignment(r as int),
        decreases members_measure(*spec, spec.rank(), self.members@), 1nat,
    {
        let ghost ms = self.members@;
        let mut a: u32 = 1;
        let mut i: usize = 0;
        while i < self.members.len()
            invariant
                spec.acyclic(),
                ms == self.members@,
                forall|k: int| 0 <= k < ms.len() ==> (#[trigger] ms[k]).tref.target(*spec) is Some,
                members_resolvable(*spec, ms),
                0 <= i <= ms.len(),
                a == members_alignment(*spec, ms.subrange(0, i as int)),
                valid_alignment(a as int),
            decreases ms.len() - i,
        {
            let ghost upto = ms.subrange(0, i + 1);
            proof {
                assert(upto.subrange(0, i as int) == ms.subrange(0, i as int));
                assert(upto[i as int] == ms[i as int]);
                assert forall|k: int| 0 <= k < upto.len() implies (#[trigger] upto[k]).tref.target(*spec) is Some by {
                    assert(upto[k] == ms[k]);
                }
                lemma_members_measure(*spec, spec.rank(), ms, i as int);
                lemma_target_shallower(*spec, ms[i as int].tref);
                lemma_member_resolvable_at(*spec, ms, i as int);
            }
            let ma = self.members[i].tref.alignment(spec);
            if ma > a {
                a = ma;
            }
            i = i + 1;
        }
        assert(ms.subrange(0, ms.len() as int) == ms);
        a
    }

    /// The record's size: its members one after another, each at the next
    /// multiple of its alignment, rounded up to the record's alignment.
    pub fn mem_size(&self, spec: &Spec) -> (r: u32)
        requires
            spec.acyclic(),
            refs_resolve(*spec, WasiType::Record(*self)),
            members_sized(*spec, self.members@),
            align_up(members_end(*spec, self.members@), members_alignment(*spec, self.members@)) <= u32::MAX,
        ensures
            r == align_up(members_end(*spec, self.members@), members_alignment(*spec, self.members@)),
        decreases members_measure(*spec, spec.rank(), self.members@), 2nat,
    {
        let ghost ms = self.members@;
        proof {
            lemma_members_sized_resolvable(*spec, ms);
        }
        let alignment = self.alignment(spec);
        proof {
            lemma_members_layout(*spec, ms);
            lemma_align_up(members_end(*spec, ms), members_alignment(*spec, ms));
        }
        let mut size: u32 = 0;
        let mut i: usize = 0;
        while i < self.members.len()
            invariant
                spec.acyclic(),
                ms == self.members@,
                forall|k: int| 0 <= k < ms.len() ==> (#[trigger] ms[k]).tref.target(*spec) is Some,
                members_sized(*spec, ms),
                members_resolvable(*spec, ms),
                members_end(*spec, ms) <= u32::MAX,
                0 <= i <= ms.len(),
                size == members_end(*spec, ms.subrange(0, i as int)),
            decreases ms.len() - i,
        {
            let ghost init = ms.subrange(0, i as int);
            let ghost upto = ms.subrange(0, i + 1);
            let ghost t = resolved(*spec, ms[i as int].tref);
            proof {
                assert(upto.subrange(0, i as int) == init);
                assert(upto[i as int] == ms[i as int]);
                assert forall|k: int| 0 <= k < upto.len() implies (#[trigger] upto[k]).tref.target(*spec) is Some by {
                    assert(upto[k] == ms[k]);
                }
                assert forall|k: int| 0 <= k < init.len() implies (#[trigger] init[k]).tref.target(*spec) is Some by {
                    assert(init[k] == ms[k]);
                }
                lemma_member_sized_at(*spec, ms, i as int);
                lemma_member_resolvable_at(*spec, ms, i as int);
                lemma_members_end_prefix(*spec, ms, i + 1);
                lemma_members_layout(*spec, init);
                lemma_members_measure(*spec, spec.rank(), ms, i as int);
                lemma_target_shallower(*spec, ms[i as int].tref);
                lemma_layout(*spec, t);
                lemma_align_up(size as int, type_alignment(*spec, t));
            }
            let member_alignment = self.members[i].tref.alignment(spec);
            size = align_to(size, member_alignment);
            let member_size = self.members[i].tref.mem_size(spec);
            size = size + member_size;
            i = i + 1;
        }
        assert(ms.subrange(0, ms.len() as int) == ms);
        align_to(size, alignment)
    }

    /// Where each member starts: at the next multiple of its alignment after
    /// the member before it ends.
    pub fn member_layout(&self, spec: &Spec) -> (r: Vec<RecordMemberLayout>)
        requires
            spec.acyclic(),
            refs_resolve(*spec, WasiType::Record(*self)),
            members_sized(*spec, self.members@),
            members_end(*spec, self.members@) <= u32::MAX,
        ensures
            r@.len() == self.members@.len(),
            forall|k: int| 0 <= k < r@.len() ==> #[trigger] r@[k].offset == member_offset(*spec, self.members@, k),
    {
        let ghost ms = self.members@;
        proof {
            lemma_members_sized_resolvable(*spec, ms);
        }
        let mut offset: u32 = 0;
        let mut layout: Vec<RecordMemberLayout> = Vec::new();
        let mut i: usize = 0;
        while i < self.members.len()
            invariant
                spec.acyclic(),
                ms == self.members@,
                forall|k: int| 0 <= k < ms.len() ==> (#[trigger] ms[k]).tref.target(*spec) is Some,
                members_sized(*spec, ms),
                members_resolvable(*spec, ms),
                members_end(*spec, ms) <= u32::MAX,
                0 <= i <= ms.len(),
                offset == members_end(*spec, ms.subrange(0, i as int)),
                layout@.len() == i,
                forall|k: int| 0 <= k < i ==> #[trigger] layout@[k].offset == member_offset(*spec, ms, k),
            decreases ms.len() - i,
        {
            let ghost init = ms.subrange(0, i as int);
            let ghost upto = ms.subrange(0, i + 1);
            let ghost t = resolved(*spec, ms[i as int].tref);
            proof {
                assert(upto.subrange(0, i as int) == init);
                assert(upto[i as int] == ms[i as int]);
                assert forall|k: int| 0 <= k < upto.len() implies (#[trigger] upto[k]).tref.target(*spec) is Some by {
                    assert(upto[k] == ms[k]);
                }
                assert forall|k: int| 0 <= k < init.len() implies (#[trigger] init[k]).tref.target(*spec) is Some by {
                    assert(init[k] == ms[k]);
                }
                lemma_member_sized_at(*spec, ms, i as int);
                lemma_member_resolvable_at(*spec, ms, i as int);
                lemma_members_end_prefix(*spec, ms, i + 1);
                lemma_members_layout(*spec, init);
                lemma_target_shallower(*spec, ms[i as int].tref);
                lemma_layout(*spec, t);
                lemma_align_up(offset as int, type_alignment(*spec, t));
            }
            let member_alignment = self.members[i].tref.alignment(spec);
            offset = align_to(offset, member_alignment);
            layout.push(RecordMemberLayout { offset });
            let member_size = self.members[i].tref.mem_size(spec);
            offset = offset + member_size;
            i = i + 1;
        }
        layout
    }
}

impl VariantType {
    /// The largest alignment of the variant's payloads, one where it has none.
    pub fn max_case_alignment(&self, spec: &Spec) -> (r: u32)
        requires
            spec.acyclic(),
            refs_resolve(*spec, WasiType::Variant(*self)),
            cases_resolvable(*spec, self.cases@),
        ensures
            r == cases_alignment(*spec, self.cases@),
            valid_alignment(r as int),
        decreases cases_measure(*spec, spec.rank(), self.cases@), 1nat,
    {
        let ghost cs = self.cases@;
        let mut a: u32 = 1;
        let mut i: usize = 0;
        while i < self.cases.len()
            invariant
                spec.acyclic(),
                cs == self.cases@,
                forall|k: int| 0 <= k < cs.len() ==> ((#[trigger] cs[k]).payload matches Some(p) ==> p.target(*spec) is Some),
                cases_resolvable(*spec, cs),
                0 <= i <= cs.len(),
                a == cases_alignment(*spec, cs.subrange(0, i as int)),
                valid_alignment(a as int),
            decreases cs.len() - i,
        {
            let ghost upto = cs.subrange(0, i + 1);
            proof {
                assert(upto.subrange(0, i as int) == cs.subrange(0, i as int));
                assert(upto[i as int] == cs[i as int]);
                assert forall|k: int| 0 <= k < upto.len() implies ((#[trigger] upto[k]).payload matches Some(p) ==> p.target(*spec) is Some) by {
                    assert(upto[k] == cs[k]);
                }
                lemma_cases_measure(*spec, spec.rank(), cs, i as int);
                lemma_case_resolvable_at(*spec, cs, i as int);
            }
            match &self.cases[i].payload {
                Some(payload) => {
                    proof {
                        lemma_target_shallower(*spec, *payload);
                    }
                    let pa = payload.alignment(spec);
                    if pa > a {
                        a = pa;
                    }
                },
                None => {},
            }
            i = i + 1;
        }
        assert(cs.subrange(0, cs.len() as int) == cs);
        a
    }

    /// The variant's alignment: that of its tag or of its most aligned
    /// payload, whichever is larger.
    pub fn alignment(&self, spec: &Spec) -> (r: u32)
        requires
            spec.acyclic(),
            refs_resolve(*spec, WasiType::Variant(*self)),
            cases_resolvable(*spec, self.cases@),
        ensures
            r == max(self.tag_repr.bytes(), cases_alignment(*spec, self.cases@)),
            valid_alignment(r as int),
        decreases cases_measure(*spec, spec.rank(), self.cases@), 2nat,
    {
        let tag = self.tag_repr.alignment();
        let cases = self.max_case_alignment(spec);
        if tag >= cases {
            tag
        } else {
            cases
        }
    }

    /// Where the payload starts: after the tag, at the payloads' alignment.
    pub fn payload_offset(&self, spec: &Spec) -> (r: u32)
        requires
            spec.acyclic(),
            refs_resolve(*spec, WasiType::Variant(*self)),
            cases_resolvable(*spec, self.cases@),
        ensures
            r == align_up(self.tag_repr.bytes(), cases_alignment(*spec, self.cases@)),
    {
        let size = self.tag_repr.mem_size();
        let a = self.max_case_alignment(spec);
        proof {
            lemma_align_up(size as int, a as int);
        }
        align_to(size, a)
    }

    /// The variant's size: the tag, the largest payload at the payloads'
    /// alignment, rounded up to the variant's alignment.
    pub fn mem_size(&self, spec: &Spec) -> (r: u32)
        requires
            spec.acyclic(),
            refs_resolve(*spec, WasiType::Variant(*self)),
            cases_sized(*spec, self.cases@),
            align_up(
                align_up(self.tag_repr.bytes(), cases_alignment(*spec, self.cases@)) + cases_max_size(*spec, self.cases@),
                max(self.tag_repr.bytes(), cases_alignment(*spec, self.cases@)),
            ) <= u32::MAX,
        ensures
            r == align_up(
                align_up(self.tag_repr.bytes(), cases_alignment(*spec, self.cases@)) + cases_max_size(*spec, self.cases@),
                max(self.tag_repr.bytes(), cases_alignment(*spec, self.cases@)),
            ),
        decreases cases_measure(*spec, spec.rank(), self.cases@), 2nat,
    {
        let ghost cs = self.cases@;
        proof {
            lemma_cases_sized_resolvable(*spec, cs);
        }
        let mut size = self.payload_offset(spec);
        let alignment = self.alignment(spec);
        proof {
            lemma_cases_layout(*spec, cs);
            lemma_align_up(size + cases_max_size(*spec, cs), alignment as int);
        }
        let mut largest: u32 = 0;
        let mut i: usize = 0;
        while i < self.cases.len()
            invariant
                spec.acyclic(),
                cs == self.cases@,
                forall|k: int| 0 <= k < cs.len() ==> ((#[trigger] cs[k]).payload matches Some(p) ==> p.target(*spec) is Some),
                cases_sized(*spec, cs),
                cases_resolvable(*spec, cs),
                size + cases_max_size(*spec, cs) <= u32::MAX,
                0 <= i <= cs.len(),
                largest == cases_max_size(*spec, cs.subrange(0, i as int)),
            decreases cs.len() - i,
        {
            let ghost upto = cs.subrange(0, i + 1);
            proof {
                assert(upto.subrange(0, i as int) == cs.subrange(0, i as int));
                assert(upto[i as int] == cs[i as int]);
                assert forall|k: int| 0 <= k < upto.len() implies ((#[trigger] upto[k]).payload matches Some(p) ==> p.target(*spec) is Some) by {
                    assert(upto[k] == cs[k]);
                }
                lemma_case_sized_at(*spec, cs, i as int);
                lemma_case_resolvable_at(*spec, cs, i as int);
                lemma_payload_bounded(*spec, cs, i as int);
                lemma_cases_measure(*spec, spec.rank(), cs, i as int);
                if i + 1 < cs.len() {
                    lemma_payload_bounded(*spec, cs, i + 1);
                } else {
                    assert(upto == cs);
                }
            }
            match &self.cases[i].payload {
                Some(payload) => {
                    proof {
                        lemma_target_shallower(*spec, *payload);
                        lemma_layout(*spec, resolved(*spec, *payload));
                    }
                    let ps = payload.mem_size(spec);
                    if ps > largest {
                        largest = ps;
                    }
                },
                None => {},
            }
            i = i + 1;
        }
        assert(cs.subrange(0, cs.len() as int) == cs);
        size = size + largest;
        align_to(size, alignment)
    }
}


/// Each member of a record starts at a multiple of its alignment, ends before
/// the next member starts, and ends within the record.
pub proof fn lemma_member_fits(spec: Spec, ms: Seq<RecordMemberType>, k: int)
    requires
        spec.acyclic(),
        forall|j: int| 0 <= j < ms.len() ==> (#[trigger] ms[j]).tref.target(spec) is Some,
        members_resolvable(spec, ms),
        0 <= k < ms.len(),
    ensures
        ({
            let t = resolved(spec, ms[k].tref);
            &&& member_offset(spec, ms, k) % type_alignment(spec, t) == 0
            &&& member_offset(spec, ms, k) >= members_end(spec, ms.subrange(0, k))
            &&& member_offset(spec, ms, k) + type_size(spec, t) <= members_end(spec, ms)
            &&& k + 1 < ms.len() ==> member_offset(spec, ms, k) + type_size(spec, t) <= member_offset(spec, ms, k + 1)
            &&& members_end(spec, ms) <= align_up(members_end(spec, ms), members_alignment(spec, ms))
        }),
{
    let prefix = ms.subrange(0, k);
    let upto = ms.subrange(0, k + 1);
    let t = resolved(spec, ms[k].tref);
    assert(upto.subrange(0, k) == prefix);
    assert(upto[k] == ms[k]);
    assert forall|j: int| 0 <= j < prefix.len() implies (#[trigger] prefix[j]).tref.target(spec) is Some by {
        assert(prefix[j] == ms[j]);
    }
    assert forall|j: int| 0 <= j < upto.len() implies (#[trigger] upto[j]).tref.target(spec) is Some by {
        assert(upto[j] == ms[j]);
    }
    lemma_member_resolvable_at(spec, ms, k);
    if k + 1 < ms.len() {
        lemma_member_resolvable_at(spec, ms, k + 1);
    } else {
        assert(upto == ms);
    }
    lemma_members_layout(spec, prefix);
    lemma_members_layout(spec, upto);
    lemma_members_layout(spec, ms);
    lemma_target_shallower(spec, ms[k].tref);
    lemma_layout(spec, t);
    lemma_align_up(members_end(spec, prefix), type_alignment(spec, t));
    lemma_members_measure(spec, spec.rank(), upto, k);
    assert(members_end(spec, upto) == member_offset(spec, ms, k) + type_size(spec, t));
    lemma_members_end_prefix(spec, ms, k + 1);
    lemma_align_up(members_end(spec, ms), members_alignment(spec, ms));
    if k + 1 < ms.len() {
        let t2 = resolved(spec, ms[k + 1].tref);
        lemma_target_shallower(spec, ms[k + 1].tref);
        lemma_layout(spec, t2);
        lemma_align_up(members_end(spec, upto), type_alignment(spec, t2));
    }
}

/// A variant's tag ends where its payload may start, and the payload of every
/// case starts at a multiple of its alignment and ends within the variant.
pub proof fn lemma_payload_fits(spec: Spec, v: VariantType, k: int)
    requires
        spec.acyclic(),
        refs_resolve(spec, WasiType::Variant(v)),
        cases_resolvable(spec, v.cases@),
        0 <= k < v.cases@.len(),
        v.cases@[k].payload is Some,
    ensures
        v.tag_repr.bytes() <= align_up(v.tag_repr.bytes(), cases_alignment(spec, v.cases@)),
        ({
            let p = resolved(spec, v.cases@[k].payload.unwrap());
            let offset = align_up(v.tag_repr.bytes(), cases_alignment(spec, v.cases@));
            &&& offset % type_alignment(spec, p) == 0
            &&& offset + type_size(spec, p) <= type_size(spec, WasiType::Variant(v))
        }),
{
    let cs = v.cases@;
    let pr = v.cases@[k].payload.unwrap();
    let p = resolved(spec, pr);
    let ca = cases_alignment(spec, cs);
    let offset = align_up(v.tag_repr.bytes(), ca);
    lemma_cases_layout(spec, cs);
    lemma_target_shallower(spec, pr);
    lemma_case_resolvable_at(spec, cs, k);
    lemma_layout(spec, p);
    lemma_align_up(v.tag_repr.bytes(), ca);
    lemma_payload_bounded(spec, cs, k);
    crate::wasi::layout::lemma_alignment_divides(type_alignment(spec, p), ca, offset);
    let a = max(v.tag_repr.bytes(), ca);
    lemma_align_up(offset + cases_max_size(spec, cs), a);
}

/// A record's layout, references followed: its first member starts at
/// offset zero and each later one at the least multiple of its alignment at
/// or after the end of the member before it; the record's alignment is the
/// largest of its members', one where it has none, and its size the least
/// multiple of that alignment at or after the end of its last member.
pub proof fn lemma_record_layout(spec: Spec, r: RecordType)
    requires
        spec.acyclic(),
        refs_resolve(spec, WasiType::Record(r)),
        resolvable(spec, WasiType::Record(r)),
    ensures
        r.members@.len() > 0 ==> member_offset(spec, r.members@, 0) == 0,
        forall|k: int|
            #![trigger member_offset(spec, r.members@, k)]
            0 < k < r.members@.len() ==> {
                let ms = r.members@;
                let end = member_offset(spec, ms, k - 1) + type_size(spec, resolved(spec, ms[k - 1].tref));
                let a = type_alignment(spec, resolved(spec, ms[k].tref));
                &&& member_offset(spec, ms, k) % a == 0
                &&& end <= member_offset(spec, ms, k)
                &&& forall|m: int| #[trigger] (m % a) == 0 && m >= end ==> member_offset(spec, ms, k) <= m
            },
        type_alignment(spec, WasiType::Record(r)) == members_alignment(spec, r.members@),
        ({
            let a = members_alignment(spec, r.members@);
            let size = type_size(spec, WasiType::Record(r));
            &&& size % a == 0
            &&& members_end(spec, r.members@) <= size
            &&& forall|m: int| #[trigger] (m % a) == 0 && m >= members_end(spec, r.members@) ==> size <= m
        }),
{
    let ms = r.members@;
    if ms.len() > 0 {
        lemma_member_resolvable_at(spec, ms, 0);
        assert(ms.subrange(0, 0) == Seq::<RecordMemberType>::empty());
        lemma_layout(spec, resolved(spec, ms[0].tref));
        lemma_align_up(0, type_alignment(spec, resolved(spec, ms[0].tref)));
    }
    assert forall|k: int|
        #![trigger member_offset(spec, ms, k)]
        0 < k < ms.len() implies {
            let end = member_offset(spec, ms, k - 1) + type_size(spec, resolved(spec, ms[k - 1].tref));
            let a = type_alignment(spec, resolved(spec, ms[k].tref));
            &&& member_offset(spec, ms, k) % a == 0
            &&& end <= member_offset(spec, ms, k)
            &&& forall|m: int| #[trigger] (m % a) == 0 && m >= end ==> member_offset(spec, ms, k) <= m
        } by {
        let pre = ms.subrange(0, k);
        assert forall|j: int| 0 <= j < pre.len() implies (#[trigger] pre[j]).tref.target(spec) is Some by {
            assert(pre[j] == ms[j]);
        }
        assert(pre.subrange(0, k - 1) == ms.subrange(0, k - 1));
        assert(pre[k - 1] == ms[k - 1]);
        lemma_members_measure(spec, spec.rank(), pre, k - 1);
        lemma_target_shallower(spec, ms[k - 1].tref);
        lemma_member_resolvable_at(spec, ms, k - 1);
        assert(members_end(spec, pre) == member_offset(spec, ms, k - 1) + type_size(spec, resolved(spec, ms[k - 1].tref)));
        lemma_member_resolvable_at(spec, ms, k);
        lemma_members_layout(spec, pre);
        lemma_layout(spec, resolved(spec, ms[k].tref));
        lemma_align_up(members_end(spec, pre), type_alignment(spec, resolved(spec, ms[k].tref)));
    }
    lemma_members_layout(spec, ms);
    lemma_align_up(members_end(spec, ms), members_alignment(spec, ms));
}

/// A variant's layout, references followed: its payloads start at the least
/// multiple of the largest payload alignment (one where there is none) at or
/// after the tag; the variant's alignment is the larger of the tag's and
/// that; its size is the least multiple of its alignment at or after the end
/// of the largest payload.
pub proof fn lemma_variant_layout(spec: Spec, v: VariantType)
    requires
        spec.acyclic(),
        refs_resolve(spec, WasiType::Variant(v)),
        resolvable(spec, WasiType::Variant(v)),
    ensures
        ({
            let m = cases_alignment(spec, v.cases@);
            let off = align_up(v.tag_repr.bytes(), m);
            &&& off % m == 0
            &&& v.tag_repr.bytes() <= off
            &&& forall|x: int| #[trigger] (x % m) == 0 && x >= v.tag_repr.bytes() ==> off <= x
        }),
        type_alignment(spec, WasiType::Variant(v)) == max(v.tag_repr.bytes(), cases_alignment(spec, v.cases@)),
        ({
            let a = type_alignment(spec, WasiType::Variant(v));
            let end = align_up(v.tag_repr.bytes(), cases_alignment(spec, v.cases@)) + cases_max_size(spec, v.cases@);
            let size = type_size(spec, WasiType::Variant(v));
            &&& size % a == 0
            &&& end <= size
            &&& forall|x: int| #[trigger] (x % a) == 0 && x >= end ==> size <= x
        }),
{
    lemma_cases_layout(spec, v.cases@);
    let m = cases_alignment(spec, v.cases@);
    lemma_align_up(v.tag_repr.bytes(), m);
    let a = max(v.tag_repr.bytes(), m);
    lemma_align_up(align_up(v.tag_repr.bytes(), m) + cases_max_size(spec, v.cases@), a);
}


/// A list is laid out as a pointer to its items and their count, four bytes
/// each: eight bytes, aligned as a pointer; and a pointer is four bytes.
pub proof fn lemma_list_layout(spec: Spec, l: ListType, p: PointerType)
    requires
        spec.acyclic(),
        refs_resolve(spec, WasiType::List(Box::new(l))),
        refs_resolve(spec, WasiType::Pointer(Box::new(p))),
    ensures
        type_size(spec, WasiType::List(Box::new(l))) == 8,
        type_size(spec, WasiType::List(Box::new(l))) == type_size(spec, WasiType::Pointer(Box::new(p)))
            + type_size(spec, WasiType::U32),
        type_alignment(spec, WasiType::List(Box::new(l))) == type_alignment(spec, WasiType::Pointer(Box::new(p))),
        type_alignment(spec, WasiType::List(Box::new(l))) == 4,
{
}


/// The layout of the types of fixed width: each integer is as large and as
/// aligned as it is wide (`u8` one byte, `u16` two, `u32` four, `s64` and
/// `u64` eight); a handle and a pointer are four bytes; flags are laid out as
/// the integer of their representation.
pub proof fn lemma_fixed_layout(spec: Spec, f: FlagsType, p: PointerType)
    requires
        spec.acyclic(),
        refs_resolve(spec, WasiType::Pointer(Box::new(p))),
    ensures
        type_size(spec, WasiType::U8) == 1 && type_alignment(spec, WasiType::U8) == 1,
        type_size(spec, WasiType::U16) == 2 && type_alignment(spec, WasiType::U16) == 2,
        type_size(spec, WasiType::U32) == 4 && type_alignment(spec, WasiType::U32) == 4,
        type_size(spec, WasiType::S64) == 8 && type_alignment(spec, WasiType::S64) == 8,
        type_size(spec, WasiType::U64) == 8 && type_alignment(spec, WasiType::U64) == 8,
        type_size(spec, WasiType::Handle) == 4 && type_alignment(spec, WasiType::Handle) == 4,
        type_size(spec, WasiType::Pointer(Box::new(p))) == 4 && type_alignment(spec, WasiType::Pointer(Box::new(p))) == 4,
        f.repr == IntRepr::U8 ==> type_size(spec, WasiType::Flags(f)) == 1 && type_alignment(spec, WasiType::Flags(f)) == 1,
        f.repr == IntRepr::U16 ==> type_size(spec, WasiType::Flags(f)) == 2 && type_alignment(spec, WasiType::Flags(f)) == 2,
        f.repr == IntRepr::U32 ==> type_size(spec, WasiType::Flags(f)) == 4 && type_alignment(spec, WasiType::Flags(f)) == 4,
        f.repr == IntRepr::U64 ==> type_size(spec, WasiType::Flags(f)) == 8 && type_alignment(spec, WasiType::Flags(f)) == 8,
{
}

} // verus!
