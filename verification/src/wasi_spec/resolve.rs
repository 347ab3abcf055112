//! Following a type reference to the type it names, and the order in which
//! named types may refer to each other.
use vstd::prelude::*;

use super::types::{RecordMemberType, Spec, TypeDef, TypeRef, VariantCaseType, WasiType};

verus! {

impl TypeRef {
    /// The name that the reference is looked up under: its own, or, for an
    /// integer or handle type written out, that type's name.
    pub open spec fn target_name(self) -> Option<Seq<char>> {
        match self {
            TypeRef::Named(n) => Some(n@),
            TypeRef::Anonymous(t) => t.builtin_name(),
        }
    }

    /// The position in `spec` of the type the reference names, if any.
    pub open spec fn target(self, spec: Spec) -> Option<int> {
        match self.target_name() {
            Some(n) => spec.types.index_of(n),
            None => None,
        }
    }

    /// How deep the reference reaches, the named types being ranked by
    /// `rank`: one past the rank of the type it names, or, for a type
    /// written out, as deep as the references written in it.
    pub open spec fn measure(self, spec: Spec, rank: spec_fn(int) -> nat) -> nat
        decreases self,
    {
        match self.target(spec) {
            Some(k) => rank(k) + 1,
            None => match self {
                TypeRef::Anonymous(t) => type_measure(spec, rank, t),
                TypeRef::Named(_) => 0,
            },
        }
    }
}

/// How deep the references written in a type reach.
pub open spec fn type_measure(spec: Spec, rank: spec_fn(int) -> nat, t: WasiType) -> nat
    decreases t,
{
    match t {
        WasiType::Record(r) => members_measure(spec, rank, r.members@),
        WasiType::Variant(v) => cases_measure(spec, rank, v.cases@),
        WasiType::Pointer(p) => p.item.measure(spec, rank),
        WasiType::List(l) => l.item.measure(spec, rank),
        _ => 0,
    }
}

pub open spec fn members_measure(spec: Spec, rank: spec_fn(int) -> nat, ms: Seq<RecordMemberType>) -> nat
    decreases ms,
{
    if ms.len() == 0 {
        0
    } else {
        let before = members_measure(spec, rank, ms.subrange(0, ms.len() - 1));
        let last = ms[ms.len() - 1].tref.measure(spec, rank);
        if before >= last {
            before
        } else {
            last
        }
    }
}

pub open spec fn cases_measure(spec: Spec, rank: spec_fn(int) -> nat, cs: Seq<VariantCaseType>) -> nat
    decreases cs,
{
    if cs.len() == 0 {
        0
    } else {
        let before = cases_measure(spec, rank, cs.subrange(0, cs.len() - 1));
        match cs[cs.len() - 1].payload {
            Some(p) => if before >= p.measure(spec, rank) {
                before
            } else {
                p.measure(spec, rank)
            },
            None => before,
        }
    }
}

/// Whether every reference written in the type names a type of `spec`.
pub open spec fn refs_resolve(spec: Spec, t: WasiType) -> bool {
    match t {
        WasiType::Record(r) => forall|i: int|
            0 <= i < r.members@.len() ==> (#[trigger] r.members@[i]).tref.target(spec) is Some,
        WasiType::Variant(v) => forall|i: int|
            0 <= i < v.cases@.len() ==> ((#[trigger] v.cases@[i]).payload matches Some(p) ==> p.target(
                spec,
            ) is Some),
        WasiType::Pointer(p) => p.item.target(spec) is Some,
        WasiType::List(l) => l.item.target(spec) is Some,
        _ => true,
    }
}

impl Spec {
    /// Whether `rank` orders the named types so that each refers only to
    /// types ranked below it.
    pub open spec fn ranked_by(self, rank: spec_fn(int) -> nat) -> bool {
        forall|k: int|
            0 <= k < self.types.values().len() ==> {
                let d = #[trigger] self.types.values()[k];
                &&& type_measure(self, rank, d.wasi) <= rank(k)
                &&& d.state matches Some(s) ==> type_measure(self, rank, s) <= rank(k)
            }
    }

    /// Whether no named type refers, directly or not, to itself.
    pub open spec fn acyclic(self) -> bool {
        &&& self.wf()
        &&& exists|rank: spec_fn(int) -> nat| self.ranked_by(rank)
    }

    /// A ranking of the named types that shows them acyclic.
    pub open spec fn rank(self) -> spec_fn(int) -> nat {
        choose|rank: spec_fn(int) -> nat| self.ranked_by(rank)
    }

    /// How deep the references written in `t` reach.
    pub open spec fn depth(self, t: WasiType) -> nat {
        type_measure(self, self.rank(), t)
    }
}

/// The members of a prefix reach no deeper than all members, and each member
/// no deeper than all.
pub proof fn lemma_members_measure(spec: Spec, rank: spec_fn(int) -> nat, ms: Seq<RecordMemberType>, i: int)
    requires
        0 <= i < ms.len(),
    ensures
        ms[i].tref.measure(spec, rank) <= members_measure(spec, rank, ms),
        members_measure(spec, rank, ms.subrange(0, i)) <= members_measure(spec, rank, ms),
    decreases ms.len(),
{
    let init = ms.subrange(0, ms.len() - 1);
    if i < ms.len() - 1 {
        lemma_members_measure(spec, rank, init, i);
        assert(init.subrange(0, i) == ms.subrange(0, i));
        assert(init[i] == ms[i]);
    } else {
        assert(init == ms.subrange(0, i));
    }
}

/// Each payload reaches no deeper than all cases.
pub proof fn lemma_cases_measure(spec: Spec, rank: spec_fn(int) -> nat, cs: Seq<VariantCaseType>, i: int)
    requires
        0 <= i < cs.len(),
    ensures
        cs[i].payload matches Some(p) ==> p.measure(spec, rank) <= cases_measure(spec, rank, cs),
        cases_measure(spec, rank, cs.subrange(0, i)) <= cases_measure(spec, rank, cs),
    decreases cs.len(),
{
    let init = cs.subrange(0, cs.len() - 1);
    if i < cs.len() - 1 {
        lemma_cases_measure(spec, rank, init, i);
        assert(init.subrange(0, i) == cs.subrange(0, i));
        assert(init[i] == cs[i]);
    } else {
        assert(init == cs.subrange(0, i));
    }
}

/// In an acyclic spec, a named type reaches less deep than a reference to it.
pub proof fn lemma_target_shallower(spec: Spec, r: TypeRef)
    requires
        spec.acyclic(),
        r.target(spec) is Some,
    ensures
        ({
            let d = spec.types.values()[r.target(spec).unwrap()];
            &&& spec.depth(d.wasi) < r.measure(spec, spec.rank())
            &&& d.state matches Some(s) ==> spec.depth(s) < r.measure(spec, spec.rank())
        }),
{
    let rank = spec.rank();
    assert(spec.ranked_by(rank));
    let k = r.target(spec).unwrap();
    let n = r.target_name().unwrap();
    assert(exists|i: int| 0 <= i < spec.types.keys().len() && spec.types.keys()[i] == n);
    assert(0 <= k < spec.types.keys().len());
    assert(spec.types.keys().len() == spec.types.values().len()) by {
        lemma_wf_lengths(spec);
    }
    let d = spec.types.values()[k];
    assert(type_measure(spec, rank, d.wasi) <= rank(k));
}

/// In a well-formed spec there are as many type names as types.
pub proof fn lemma_wf_lengths(spec: Spec)
    requires
        spec.wf(),
    ensures
        spec.types.keys().len() == spec.types.values().len(),
{
    super::index::lemma_wf_lengths(&spec.types);
}

impl TypeRef {
    /// The named type the reference resolves to.
    pub fn resolve<'s>(&self, spec: &'s Spec) -> (r: &'s TypeDef)
        requires
            spec.wf(),
            self.target(*spec) is Some,
        ensures
            *r == spec.types.values()[self.target(*spec).unwrap()],
    {
        proof {
            lemma_wf_lengths(*spec);
        }
        let name = match self {
            TypeRef::Named(name) => name.as_str(),
            TypeRef::Anonymous(t) => {
                proof {
                    reveal_strlit("s64");
                    reveal_strlit("u8");
                    reveal_strlit("u16");
                    reveal_strlit("u32");
                    reveal_strlit("u64");
                    reveal_strlit("handle");
                }
                match t {
                    WasiType::S64 => "s64",
                    WasiType::U8 => "u8",
                    WasiType::U16 => "u16",
                    WasiType::U32 => "u32",
                    WasiType::U64 => "u64",
                    _ => "handle",
                }
            },
        };
        match spec.types.get_by_key(name) {
            Some(d) => d,
            None => {
                assert(false);
                spec.types.get_by_key(name).unwrap()
            },
        }
    }

    /// The type the reference stands for: the named type's, or the one
    /// written out.
    pub fn resolve_wasi<'s>(&'s self, spec: &'s Spec) -> (r: &'s WasiType)
        requires
            spec.wf(),
            self is Named ==> self.target(*spec) is Some,
        ensures
            self matches TypeRef::Anonymous(t) ==> *r == t,
            self is Named ==> *r == spec.types.values()[self.target(*spec).unwrap()].wasi,
    {
        match self {
            TypeRef::Named(_) => &self.resolve(spec).wasi,
            TypeRef::Anonymous(t) => t,
        }
    }
}

} // verus!
