//! The environment a fuzzing run builds: the resources that calls create,
//! the type of each, and what each runtime knows of them.
use vstd::prelude::*;

use std::collections::BTreeMap;

use crate::resource::{Resource, ResourceIdx, Resources};
use crate::wasi_spec::resolve::{
    lemma_cases_measure, lemma_members_measure, lemma_target_shallower, members_measure,
    refs_resolve,
};
use crate::wasi_spec::types::{Function, FunctionResult, RecordMemberType, Spec, TypeDef, TypeRef, WasiType};
use crate::wasi_spec::value::{same, RecordValue, WasiValue};
use crate::wasi_spec::zero::{is_zero, resolved, zero_ok};

verus! {

broadcast use {vstd::laws_cmp::group_laws_cmp, vstd::std_specs::btree::group_btree_axioms};

/// A call made in a run, and what came of it.
#[derive(PartialEq, Eq, Debug)]
pub struct Call {
    pub function: String,
    pub errno: Option<i32>,
    pub params: Vec<WasiValue>,
    pub results: Option<Vec<WasiValue>>,
}

/// What a runtime knows of the resources: the host directory behind each
/// preopened one, and the runtime's own value for each resource.
#[derive(PartialEq, Eq, Debug)]
pub struct RuntimeContext {
    pub preopens: BTreeMap<usize, String>,
    pub resources: BTreeMap<usize, WasiValue>,
}

impl RuntimeContext {
    pub fn new() -> (r: Self)
        ensures
            r.preopens@ == Map::<usize, String>::empty(),
            r.resources@ == Map::<usize, WasiValue>::empty(),
    {
        RuntimeContext { preopens: BTreeMap::new(), resources: BTreeMap::new() }
    }
}

/// The directories a runtime starts with: each under a name, with the host
/// directory behind it and the runtime's value for it.
#[derive(PartialEq, Eq, Debug)]
pub struct EnvironmentInitializer {
    pub preopens: Vec<(String, String, WasiValue)>,
}

/// The resources of a run and the type of each.
#[derive(PartialEq, Eq, Debug)]
pub struct Environment {
    resources: Resources,
    resources_by_types: Vec<(String, Vec<ResourceIdx>)>,
    resources_types: BTreeMap<usize, String>,
}

impl Environment {
    /// The resources, by index.
    pub closed spec fn resources(&self) -> Seq<Resource> {
        self.resources.view()
    }

    /// The name of the type of the resource at index `i`.
    pub closed spec fn type_of(&self, i: int) -> Seq<char> {
        self.resources_types@[i as usize]@
    }

    /// The resources of the type named `t`.
    pub closed spec fn of_type(&self, t: Seq<char>) -> Set<int> {
        Set::new(|i: int| 0 <= i < self.resources().len() && self.type_of(i) == t)
    }

    /// Whether there is a resource of the type named `t`.
    pub open spec fn has_resource_of_type(&self, t: Seq<char>) -> bool {
        exists|i: int| 0 <= i < self.resources().len() && self.type_of(i) == t
    }

    /// Every resource has a type, and the resources are listed under their
    /// types' names, each name once, with at least one resource under it.
    pub closed spec fn wf(&self) -> bool {
        &&& forall|i: usize|
            #[trigger] self.resources_types@.contains_key(i) <==> (i as int) < self.resources().len()
        &&& forall|k1: int, k2: int|
            0 <= k1 < k2 < self.resources_by_types@.len() ==> self.resources_by_types@[k1].0@
                != self.resources_by_types@[k2].0@
        &&& forall|k: int, m: int|
            0 <= k < self.resources_by_types@.len() && 0 <= m
                < self.resources_by_types@[k].1@.len() ==> {
                let i = (#[trigger] self.resources_by_types@[k].1@[m]).0;
                &&& (i as int) < self.resources().len()
                &&& self.type_of(i as int) == self.resources_by_types@[k].0@
            }
        &&& forall|k: int|
            0 <= k < self.resources_by_types@.len() ==> (#[trigger] self.resources_by_types@[k]).1@.len() > 0
        &&& forall|i: int|
            0 <= i < self.resources().len() ==> self.type_listed(#[trigger] self.type_of(i))
    }

    /// The resources listed under the type name `t`, in the order they were
    /// added: none where no resource has that type.
    pub closed spec fn listed_of_type(&self, t: Seq<char>) -> Seq<ResourceIdx> {
        if self.type_listed(t) {
            let k = choose|k: int| 0 <= k < self.resources_by_types@.len() && (#[trigger] self.resources_by_types@[k]).0@ == t;
            self.resources_by_types@[k].1@
        } else {
            Seq::empty()
        }
    }

    /// Whether resources are listed under the type name `t`.
    pub closed spec fn type_listed(&self, t: Seq<char>) -> bool {
        exists|k: int| 0 <= k < self.resources_by_types@.len() && (#[trigger] self.resources_by_types@[k]).0@ == t
    }

    /// No resources.
    pub fn new() -> (r: Self)
        ensures
            r.wf(),
            r.resources().len() == 0,
    {
        Environment {
            resources: Resources::new(),
            resources_by_types: Vec::new(),
            resources_types: BTreeMap::new(),
        }
    }

    /// The resources listed under the type name `name`: `None` where there
    /// is no resource of that type.
    pub fn resources_of_type(&self, name: &String) -> (r: Option<&Vec<ResourceIdx>>)
        requires
            self.wf(),
        ensures
            r is Some <==> self.has_resource_of_type(name@),
            r matches Some(l) ==> l@ == self.listed_of_type(name@),
            r is None ==> self.listed_of_type(name@).len() == 0,
            r matches Some(l) ==> l@.len() > 0 && forall|m: int|
                0 <= m < l@.len() ==> (#[trigger] l@[m]).0 < self.resources().len() && self.type_of(
                    l@[m].0 as int,
                ) == name@,
    {
        let mut k: usize = 0;
        while k < self.resources_by_types.len()
            invariant
                self.wf(),
                k <= self.resources_by_types@.len(),
                forall|j: int| 0 <= j < k ==> (#[trigger] self.resources_by_types@[j]).0@ != name@,
            decreases self.resources_by_types@.len() - k,
        {
            if self.resources_by_types[k].0 == *name {
                let l = &self.resources_by_types[k].1;
                proof {
                    let i = l@[0].0;
                    assert(self.type_of(i as int) == name@);
                    assert(self.type_listed(name@));
                    let c = choose|c: int| 0 <= c < self.resources_by_types@.len() && (#[trigger] self.resources_by_types@[c]).0@ == name@;
                    if c != k {
                        if c < k {
                            assert(self.resources_by_types@[c].0@ != self.resources_by_types@[k as int].0@);
                        } else {
                            assert(self.resources_by_types@[k as int].0@ != self.resources_by_types@[c].0@);
                        }
                    }
                }
                return Some(l);
            }
            k = k + 1;
        }
        proof {
            if self.has_resource_of_type(name@) {
                let i = choose|i: int| 0 <= i < self.resources().len() && self.type_of(i) == name@;
                assert(self.type_listed(self.type_of(i)));
            }
            assert(!self.type_listed(name@));
        }
        None
    }

    /// Adds a resource of the type named `kind`; its index is the number
    /// of resources before it.
    pub fn new_resource(&mut self, kind: String, resource: Resource) -> (r: ResourceIdx)
        requires
            old(self).wf(),
            old(self).resources().len() < usize::MAX,
        ensures
            final(self).wf(),
            r.0 == old(self).resources().len(),
            final(self).resources() == old(self).resources().push(resource),
            final(self).type_of(r.0 as int) == kind@,
            forall|i: int|
                0 <= i < old(self).resources().len() ==> #[trigger] final(self).type_of(i)
                    == old(self).type_of(i),
            final(self).listed_of_type(kind@) == old(self).listed_of_type(kind@).push(r),
            forall|t2: Seq<char>| t2 != kind@ ==> #[trigger] final(self).listed_of_type(t2) == old(self).listed_of_type(t2),
    {
        let ghost t = kind@;
        let ghost before = *self;
        let idx = self.resources.push(resource);
        let key = kind.clone();
        self.resources_types.insert(idx.0, kind);
        let ghost by_before = self.resources_by_types@;
        let mut k: usize = 0;
        let mut found = false;
        while k < self.resources_by_types.len() && !found
            invariant
                self.resources_by_types@ == by_before,
                0 <= k <= by_before.len(),
                key@ == t,
                found ==> k < by_before.len() && by_before[k as int].0@ == t,
                !found ==> forall|j: int| 0 <= j < k ==> (#[trigger] by_before[j]).0@ != t,
            decreases by_before.len() - k + (if found {
                0int
            } else {
                1int
            }),
        {
            if self.resources_by_types[k].0 == key {
                found = true;
            } else {
                k = k + 1;
            }
        }
        let ghost n = self.resources().len();
        assert(forall|i: int| 0 <= i < n - 1 ==> #[trigger] self.type_of(i) == old(self).type_of(i));
        if found {
            let (name, mut list) = self.resources_by_types.remove(k);
            let ghost old_list = list@;
            list.push(idx);
            self.resources_by_types.insert(k, (name, list));
            proof {
                assert(self.resources_by_types@ =~= by_before.update(
                    k as int,
                    (self.resources_by_types@[k as int].0, self.resources_by_types@[k as int].1),
                ));
                assert(self.resources_by_types@[k as int].0@ == t);
                assert(self.resources_by_types@[k as int].1@ == old_list.push(idx));
                assert(old_list == by_before[k as int].1@);
                assert forall|k2: int, m: int|
                    0 <= k2 < self.resources_by_types@.len() && 0 <= m
                        < self.resources_by_types@[k2].1@.len() implies {
                    let i = (#[trigger] self.resources_by_types@[k2].1@[m]).0;
                    &&& (i as int) < self.resources().len()
                    &&& self.type_of(i as int) == self.resources_by_types@[k2].0@
                } by {
                    if k2 == k as int && m == old_list.len() {
                    } else {
                        assert(self.resources_by_types@[k2].1@[m] == by_before[k2].1@[m]);
                    }
                }
                assert forall|k2: int| 0 <= k2 < self.resources_by_types@.len() implies
                    (#[trigger] self.resources_by_types@[k2]).1@.len() > 0 by {
                    if k2 != k as int {
                        assert(self.resources_by_types@[k2] == by_before[k2]);
                    }
                }
                assert forall|i: int| 0 <= i < self.resources().len() implies self.type_listed(
                    #[trigger] self.type_of(i),
                ) by {
                    if i < n - 1 {
                        assert(old(self).type_of(i) == self.type_of(i));
                        assert(old(self).type_listed(old(self).type_of(i)));
                        let k2 = choose|k2: int| 0 <= k2 < by_before.len() && (#[trigger] by_before[k2]).0@
                            == old(self).type_of(i);
                        assert(self.resources_by_types@[k2].0@ == by_before[k2].0@);
                    } else {
                        assert(self.resources_by_types@[k as int].0@ == self.type_of(i));
                    }
                }
                lemma_listed_at(*self, k as int);
                lemma_listed_at(before, k as int);
                assert forall|t2: Seq<char>| t2 != t implies #[trigger] self.listed_of_type(t2) == before.listed_of_type(t2) by {
                    if before.type_listed(t2) {
                        let k2 = choose|k2: int| 0 <= k2 < by_before.len() && (#[trigger] by_before[k2]).0@ == t2;
                        assert(self.resources_by_types@[k2] == by_before[k2]);
                        lemma_listed_at(*self, k2);
                        lemma_listed_at(before, k2);
                    } else if self.type_listed(t2) {
                        let k2 = choose|k2: int| 0 <= k2 < self.resources_by_types@.len() && (#[trigger] self.resources_by_types@[k2]).0@ == t2;
                        assert(self.resources_by_types@[k2].0@ == by_before[k2].0@);
                    }
                }
            }
        } else {
            let mut list: Vec<ResourceIdx> = Vec::new();
            list.push(idx);
            self.resources_by_types.push((key, list));
            proof {
                assert forall|k2: int, m: int|
                    0 <= k2 < self.resources_by_types@.len() && 0 <= m
                        < self.resources_by_types@[k2].1@.len() implies {
                    let i = (#[trigger] self.resources_by_types@[k2].1@[m]).0;
                    &&& (i as int) < self.resources().len()
                    &&& self.type_of(i as int) == self.resources_by_types@[k2].0@
                } by {
                    if k2 < by_before.len() {
                        assert(self.resources_by_types@[k2] == by_before[k2]);
                    }
                }
                assert forall|k2: int| 0 <= k2 < self.resources_by_types@.len() implies
                    (#[trigger] self.resources_by_types@[k2]).1@.len() > 0 by {
                    if k2 < by_before.len() {
                        assert(self.resources_by_types@[k2] == by_before[k2]);
                    }
                }
                assert forall|i: int| 0 <= i < self.resources().len() implies self.type_listed(
                    #[trigger] self.type_of(i),
                ) by {
                    if i < n - 1 {
                        assert(old(self).type_of(i) == self.type_of(i));
                        assert(old(self).type_listed(old(self).type_of(i)));
                        let k2 = choose|k2: int| 0 <= k2 < by_before.len() && (#[trigger] by_before[k2]).0@
                            == old(self).type_of(i);
                        assert(self.resources_by_types@[k2] == by_before[k2]);
                    } else {
                        assert(self.resources_by_types@[by_before.len() as int].0@ == self.type_of(i));
                    }
                }
                lemma_listed_at(*self, by_before.len() as int);
                assert(!before.type_listed(t));
                assert forall|t2: Seq<char>| t2 != t implies #[trigger] self.listed_of_type(t2) == before.listed_of_type(t2) by {
                    if before.type_listed(t2) {
                        let k2 = choose|k2: int| 0 <= k2 < by_before.len() && (#[trigger] by_before[k2]).0@ == t2;
                        assert(self.resources_by_types@[k2] == by_before[k2]);
                        lemma_listed_at(*self, k2);
                        lemma_listed_at(before, k2);
                    } else if self.type_listed(t2) {
                        let k2 = choose|k2: int| 0 <= k2 < self.resources_by_types@.len() && (#[trigger] self.resources_by_types@[k2]).0@ == t2;
                        if k2 < by_before.len() {
                            assert(self.resources_by_types@[k2] == by_before[k2]);
                        }
                    }
                }
            }
        }
        idx
    }
}


/// Names being listed once, the list at position `k` is the one its name
/// finds.
proof fn lemma_listed_at(env: Environment, k: int)
    requires
        env.wf(),
        0 <= k < env.resources_by_types@.len(),
    ensures
        env.listed_of_type(env.resources_by_types@[k].0@) == env.resources_by_types@[k].1@,
{
    let m = env.resources_by_types@;
    let t = m[k].0@;
    assert(env.type_listed(t));
    let c = choose|c: int| 0 <= c < m.len() && (#[trigger] m[c]).0@ == t;
    if c != k {
        if c < k {
            assert(m[c].0@ != m[k].0@);
        } else {
            assert(m[k].0@ != m[c].0@);
        }
    }
}

/// The named type that a reference resolves to.
pub open spec fn typedef_of(spec: Spec, r: TypeRef) -> TypeDef {
    spec.types.values()[r.target(spec).unwrap()]
}

/// What each created resource is: the name of its type, the type of its
/// state, and the value it was created for.
pub type Created = Seq<(Seq<char>, WasiType, WasiValue)>;

/// Whether walking `v` as a value of `t` goes through: records, pointers,
/// lists and variants meet values of their own kind (pointers meet lists
/// where `pointer_as_list` holds), a variant's value names one of its cases,
/// and so on inside. Record members and values are paired up to the shorter
/// of the two.
pub open spec fn fits(spec: Spec, t: WasiType, v: WasiValue, pointer_as_list: bool) -> bool
    decreases spec.depth(t), 2nat, 0nat,
    when spec.acyclic() && refs_resolve(spec, t)
{
    match t {
        WasiType::Record(r) => match v {
            WasiValue::Record(rv) => {
                let n = if r.members@.len() <= rv.members@.len() {
                    r.members@.len()
                } else {
                    rv.members@.len()
                };
                proof {
                    if n < r.members@.len() {
                        lemma_members_measure(spec, spec.rank(), r.members@, n as int);
                    } else {
                        assert(r.members@.subrange(0, n as int) == r.members@);
                    }
                }
                members_fit(
                    spec,
                    r.members@.subrange(0, n as int),
                    rv.members@.subrange(0, n as int),
                    pointer_as_list,
                )
            },
            _ => false,
        },
        WasiType::Pointer(p) => match v {
            WasiValue::List(l) => pointer_as_list && items_fit(spec, p.item, l.items@, pointer_as_list),
            WasiValue::Pointer(pv) => !pointer_as_list && items_fit(spec, p.item, pv.items@, pointer_as_list),
            _ => false,
        },
        WasiType::List(l) => match v {
            WasiValue::List(lv) => items_fit(spec, l.item, lv.items@, pointer_as_list),
            _ => false,
        },
        WasiType::Variant(vt) => match v {
            WasiValue::Variant(b) => b.case_idx < vt.cases@.len() && match (
                vt.cases@[b.case_idx as int].payload,
                b.payload,
            ) {
                (Some(p), Some(pv)) => {
                    proof {
                        lemma_cases_measure(spec, spec.rank(), vt.cases@, b.case_idx as int);
                        lemma_target_shallower(spec, p);
                    }
                    refs_resolve(spec, resolved(spec, p)) && fits(spec, resolved(spec, p), pv, pointer_as_list)
                },
                _ => true,
            },
            _ => false,
        },
        _ => true,
    }
}

pub open spec fn members_fit(spec: Spec, ms: Seq<RecordMemberType>, vs: Seq<WasiValue>, pointer_as_list: bool) -> bool
    decreases members_measure(spec, spec.rank(), ms), 1nat, ms.len(),
    when spec.acyclic() && forall|i: int| 0 <= i < ms.len() ==> (#[trigger] ms[i]).tref.target(spec) is Some
{
    if ms.len() == 0 || vs.len() != ms.len() {
        true
    } else {
        let last = ms[ms.len() - 1].tref;
        proof {
            lemma_members_measure(spec, spec.rank(), ms, ms.len() - 1);
            lemma_target_shallower(spec, last);
        }
        &&& members_fit(spec, ms.subrange(0, ms.len() - 1), vs.subrange(0, vs.len() - 1), pointer_as_list)
        &&& refs_resolve(spec, resolved(spec, last))
        &&& fits(spec, resolved(spec, last), vs[vs.len() - 1], pointer_as_list)
    }
}

pub open spec fn items_fit(spec: Spec, item: TypeRef, vs: Seq<WasiValue>, pointer_as_list: bool) -> bool
    decreases item.measure(spec, spec.rank()), 1nat, vs.len(),
    when spec.acyclic() && item.target(spec) is Some
{
    if vs.len() == 0 {
        true
    } else {
        proof {
            lemma_target_shallower(spec, item);
        }
        &&& items_fit(spec, item, vs.subrange(0, vs.len() - 1), pointer_as_list)
        &&& refs_resolve(spec, resolved(spec, item))
        &&& fits(spec, resolved(spec, item), vs[vs.len() - 1], pointer_as_list)
    }
}

/// The resources that walking `v` as a value of the named type `d` creates,
/// in order: first those of the values inside it, then, where `d` is the
/// type of a resource, one for `v` itself.
pub open spec fn created(spec: Spec, d: TypeDef, v: WasiValue, pointer_as_list: bool) -> Created
    decreases spec.depth(d.wasi), 3nat, 0nat,
    when spec.acyclic() && refs_resolve(spec, d.wasi)
{
    let inner = inner_created(spec, d.wasi, v, pointer_as_list);
    match d.state {
        Some(s) => inner.push((d.name@, s, v)),
        None => inner,
    }
}

pub open spec fn inner_created(spec: Spec, t: WasiType, v: WasiValue, pointer_as_list: bool) -> Created
    decreases spec.depth(t), 2nat, 0nat,
    when spec.acyclic() && refs_resolve(spec, t)
{
    match (t, v) {
        (WasiType::Record(r), WasiValue::Record(rv)) => {
            let n = if r.members@.len() <= rv.members@.len() {
                r.members@.len()
            } else {
                rv.members@.len()
            };
            proof {
                if n < r.members@.len() {
                    lemma_members_measure(spec, spec.rank(), r.members@, n as int);
                } else {
                    assert(r.members@.subrange(0, n as int) == r.members@);
                }
            }
            members_created(
                spec,
                r.members@.subrange(0, n as int),
                rv.members@.subrange(0, n as int),
                pointer_as_list,
            )
        },
        (WasiType::Pointer(p), WasiValue::List(l)) => if pointer_as_list {
            items_created(spec, p.item, l.items@, pointer_as_list)
        } else {
            Seq::empty()
        },
        (WasiType::Pointer(p), WasiValue::Pointer(pv)) => if pointer_as_list {
            Seq::empty()
        } else {
            items_created(spec, p.item, pv.items@, pointer_as_list)
        },
        (WasiType::List(l), WasiValue::List(lv)) => items_created(spec, l.item, lv.items@, pointer_as_list),
        (WasiType::Variant(vt), WasiValue::Variant(b)) => if b.case_idx < vt.cases@.len() {
            match (vt.cases@[b.case_idx as int].payload, b.payload) {
                (Some(p), Some(pv)) => {
                    proof {
                        lemma_cases_measure(spec, spec.rank(), vt.cases@, b.case_idx as int);
                        lemma_target_shallower(spec, p);
                    }
                    created(spec, typedef_of(spec, p), pv, pointer_as_list)
                },
                _ => Seq::empty(),
            }
        } else {
            Seq::empty()
        },
        _ => Seq::empty(),
    }
}

pub open spec fn members_created(spec: Spec, ms: Seq<RecordMemberType>, vs: Seq<WasiValue>, pointer_as_list: bool) -> Created
    decreases members_measure(spec, spec.rank(), ms), 1nat, ms.len(),
    when spec.acyclic() && forall|i: int| 0 <= i < ms.len() ==> (#[trigger] ms[i]).tref.target(spec) is Some
{
    if ms.len() == 0 || vs.len() != ms.len() {
        Seq::empty()
    } else {
        let last = ms[ms.len() - 1].tref;
        proof {
            lemma_members_measure(spec, spec.rank(), ms, ms.len() - 1);
            lemma_target_shallower(spec, last);
        }
        members_created(spec, ms.subrange(0, ms.len() - 1), vs.subrange(0, vs.len() - 1), pointer_as_list)
            + created(spec, typedef_of(spec, last), vs[vs.len() - 1], pointer_as_list)
    }
}

pub open spec fn items_created(spec: Spec, item: TypeRef, vs: Seq<WasiValue>, pointer_as_list: bool) -> Created
    decreases item.measure(spec, spec.rank()), 1nat, vs.len(),
    when spec.acyclic() && item.target(spec) is Some
{
    if vs.len() == 0 {
        Seq::empty()
    } else {
        proof {
            lemma_target_shallower(spec, item);
        }
        items_created(spec, item, vs.subrange(0, vs.len() - 1), pointer_as_list)
            + created(spec, typedef_of(spec, item), vs[vs.len() - 1], pointer_as_list)
    }
}

impl Spec {
    /// Whether the state of every named type has a zero value.
    pub open spec fn states_have_zero(self) -> bool {
        forall|k: int|
            0 <= k < self.types.values().len() ==> ((#[trigger] self.types.values()[k]).state matches Some(
                s,
            ) ==> refs_resolve(self, s) && zero_ok(self, s))
    }
}


/// The indices, from `first` on, that the resources `cs` get, of those of
/// the type named `t`, in order.
pub open spec fn listed_new(first: int, cs: Created, t: Seq<char>) -> Seq<ResourceIdx>
    decreases cs.len(),
{
    if cs.len() == 0 {
        Seq::empty()
    } else {
        let rest = listed_new(first, cs.drop_last(), t);
        if cs.last().0 == t {
            rest.push(ResourceIdx((first + cs.len() - 1) as usize))
        } else {
            rest
        }
    }
}

/// One resource added is listed under its type alone.
pub proof fn lemma_listed_new_one(first: int, c: (Seq<char>, WasiType, WasiValue), t: Seq<char>)
    ensures
        listed_new(first, seq![c], t) == (if c.0 == t {
            seq![ResourceIdx(first as usize)]
        } else {
            Seq::<ResourceIdx>::empty()
        }),
{
    let one = seq![c];
    assert(one.drop_last() == Seq::<(Seq<char>, WasiType, WasiValue)>::empty());
    assert(listed_new(first, one.drop_last(), t) == Seq::<ResourceIdx>::empty());
    assert(Seq::<ResourceIdx>::empty().push(ResourceIdx(first as usize)) == seq![ResourceIdx(first as usize)]);
    assert(first + one.len() - 1 == first);
}

/// The indices that two runs of resources get, one after the other, are
/// those of the first run, then those of the second.
pub proof fn lemma_listed_new_concat(first: int, s1: Created, s2: Created, t: Seq<char>)
    ensures
        listed_new(first, s1 + s2, t) == listed_new(first, s1, t) + listed_new(first + s1.len(), s2, t),
    decreases s2.len(),
{
    if s2.len() == 0 {
        assert(s1 + s2 == s1);
        assert(listed_new(first, s1, t) + Seq::<ResourceIdx>::empty() == listed_new(first, s1, t));
    } else {
        assert((s1 + s2).drop_last() == s1 + s2.drop_last());
        assert((s1 + s2).last() == s2.last());
        lemma_listed_new_concat(first, s1, s2.drop_last(), t);
        let a = listed_new(first, s1, t);
        let b = listed_new(first + s1.len(), s2.drop_last(), t);
        if s2.last().0 == t {
            assert(a + b.push(ResourceIdx((first + s1.len() + s2.len() - 1) as usize)) == (a + b).push(
                ResourceIdx((first + s1.len() + s2.len() - 1) as usize),
            ));
        }
    }
}

impl Environment {
    /// Whether this environment is `before` with the resources `cs` added
    /// after its own: each of the type named, in the zero state of the type
    /// of its state, and listed under its type's name after the resources
    /// listed there before, in order; no other type's list changes.
    pub open spec fn grew(self, before: Environment, spec: Spec, cs: Created) -> bool {
        &&& self.wf()
        &&& forall|t: Seq<char>|
            #[trigger] self.listed_of_type(t) == before.listed_of_type(t) + listed_new(
                before.resources().len() as int,
                cs,
                t,
            )
        &&& self.resources().len() == before.resources().len() + cs.len()
        &&& forall|i: int|
            0 <= i < before.resources().len() ==> #[trigger] self.resources()[i] == before.resources()[i]
                && self.type_of(i) == before.type_of(i)
        &&& forall|j: int|
            0 <= j < cs.len() ==> {
                let i = before.resources().len() + j;
                &&& self.type_of(i) == (#[trigger] cs[j]).0
                &&& is_zero(spec, cs[j].1, self.resources()[i].state)
            }
    }
}

impl RuntimeContext {
    /// Whether this context is `before` with the runtime's values of the
    /// resources `cs`, which got the indices from `first` on, added.
    pub open spec fn grew(self, before: RuntimeContext, first: int, cs: Created) -> bool {
        &&& self.preopens@ == before.preopens@
        &&& forall|k: usize|
            first <= k < first + cs.len() ==> #[trigger] self.resources@.contains_key(k) && same(
                cs[k - first].2,
                self.resources@[k],
            )
        &&& forall|k: usize|
            !(first <= k < first + cs.len()) ==> (#[trigger] self.resources@.contains_key(k)
                == before.resources@.contains_key(k) && (self.resources@.contains_key(k)
                ==> self.resources@[k] == before.resources@[k]))
    }
}

/// An environment has grown by nothing from itself.
pub proof fn lemma_grew_refl(e: Environment, spec: Spec)
    requires
        e.wf(),
    ensures
        e.grew(e, spec, Seq::empty()),
{
    assert forall|t: Seq<char>| #[trigger] e.listed_of_type(t) == e.listed_of_type(t) + listed_new(
        e.resources().len() as int,
        Seq::empty(),
        t,
    ) by {
        assert(e.listed_of_type(t) + Seq::<ResourceIdx>::empty() == e.listed_of_type(t));
    }
}

/// Adding one resource of the type named `c.0`, in the zero state of `c.1`,
/// as `new_resource` does, is growing by it.
proof fn lemma_grew_one(before: Environment, after: Environment, spec: Spec, c: (Seq<char>, WasiType, WasiValue))
    requires
        after.wf(),
        after.resources().len() == before.resources().len() + 1,
        forall|i: int|
            0 <= i < before.resources().len() ==> #[trigger] after.resources()[i] == before.resources()[i]
                && after.type_of(i) == before.type_of(i),
        after.type_of(before.resources().len() as int) == c.0,
        is_zero(spec, c.1, after.resources()[before.resources().len() as int].state),
        after.listed_of_type(c.0) == before.listed_of_type(c.0).push(ResourceIdx(before.resources().len() as usize)),
        forall|t2: Seq<char>| t2 != c.0 ==> #[trigger] after.listed_of_type(t2) == before.listed_of_type(t2),
    ensures
        after.grew(before, spec, seq![c]),
{
    let n = before.resources().len() as int;
    assert forall|t: Seq<char>| #[trigger] after.listed_of_type(t) == before.listed_of_type(t) + listed_new(n, seq![c], t) by {
        lemma_listed_new_one(n, c, t);
        if c.0 != t {
            assert(before.listed_of_type(t) + Seq::<ResourceIdx>::empty() == before.listed_of_type(t));
        }
    }
    assert forall|j: int| 0 <= j < seq![c].len() implies {
        let i = n + j;
        &&& after.type_of(i) == (#[trigger] seq![c][j]).0
        &&& is_zero(spec, seq![c][j].1, after.resources()[i].state)
    } by {
        assert(j == 0);
    }
}

/// Growing twice is growing by both, one after the other.
pub proof fn lemma_grew_trans(a: Environment, b: Environment, c: Environment, spec: Spec, s1: Created, s2: Created)
    requires
        b.grew(a, spec, s1),
        c.grew(b, spec, s2),
    ensures
        c.grew(a, spec, s1 + s2),
{
    let la = a.resources().len();
    let lb = b.resources().len();
    assert forall|t: Seq<char>| #[trigger] c.listed_of_type(t) == a.listed_of_type(t) + listed_new(la as int, s1 + s2, t) by {
        lemma_listed_new_concat(la as int, s1, s2, t);
        assert(c.listed_of_type(t) == b.listed_of_type(t) + listed_new(lb as int, s2, t));
        assert(b.listed_of_type(t) == a.listed_of_type(t) + listed_new(la as int, s1, t));
        assert(a.listed_of_type(t) + listed_new(la as int, s1, t) + listed_new(lb as int, s2, t) == a.listed_of_type(t)
            + (listed_new(la as int, s1, t) + listed_new(lb as int, s2, t)));
    }
    assert forall|j: int| 0 <= j < (s1 + s2).len() implies {
        let i = la + j;
        &&& c.type_of(i) == (#[trigger] (s1 + s2)[j]).0
        &&& is_zero(spec, (s1 + s2)[j].1, c.resources()[i].state)
    } by {
        if j < s1.len() {
            assert(s1[j] == (s1 + s2)[j]);
            assert(c.resources()[la + j] == b.resources()[la + j]);
        } else {
            assert(s2[j - s1.len()] == (s1 + s2)[j]);
            assert(lb + (j - s1.len()) == la + j);
        }
    }
}

/// A context has grown by nothing from itself.
pub proof fn lemma_ctx_grew_refl(c: RuntimeContext, first: int)
    ensures
        c.grew(c, first, Seq::empty()),
{
}

/// Growing a context twice is growing it by both, one after the other.
pub proof fn lemma_ctx_grew_trans(a: RuntimeContext, b: RuntimeContext, c: RuntimeContext, first: int, s1: Created, s2: Created)
    requires
        first >= 0,
        first + s1.len() + s2.len() <= usize::MAX,
        b.grew(a, first, s1),
        c.grew(b, first + s1.len(), s2),
    ensures
        c.grew(a, first, s1 + s2),
{
    assert forall|k: usize| first <= k < first + (s1 + s2).len() implies #[trigger] c.resources@.contains_key(k) && same(
        (s1 + s2)[k - first].2,
        c.resources@[k],
    ) by {
        let j = k - first;
        if j < s1.len() {
            assert(s1[j] == (s1 + s2)[j]);
            assert(b.resources@.contains_key(k));
            assert(!(first + s1.len() <= k < first + s1.len() + s2.len()));
            assert(c.resources@.contains_key(k) == b.resources@.contains_key(k));
        } else {
            assert(s2[j - s1.len()] == (s1 + s2)[j]);
            assert(c.resources@.contains_key(k));
        }
    }
    assert forall|k: usize| !(first <= k < first + (s1 + s2).len()) implies (#[trigger] c.resources@.contains_key(k)
        == a.resources@.contains_key(k) && (c.resources@.contains_key(k) ==> c.resources@[k] == a.resources@[k])) by {
        assert(!(first <= k < first + s1.len()));
        assert(!(first + s1.len() <= k < first + s1.len() + s2.len()));
        assert(b.resources@.contains_key(k) == a.resources@.contains_key(k));
        assert(c.resources@.contains_key(k) == b.resources@.contains_key(k));
    }
}

/// The type a reference resolves to has a zero state where it has a state.
pub proof fn lemma_typedef_ok(spec: Spec, r: TypeRef)
    requires
        spec.acyclic(),
        spec.states_have_zero(),
        r.target(spec) is Some,
    ensures
        typedef_of(spec, r).state matches Some(s) ==> refs_resolve(spec, s) && zero_ok(spec, s),
{
    lemma_target_shallower(spec, r);
    let k = r.target(spec).unwrap();
    assert(0 <= k < spec.types.values().len()) by {
        super::wasi_spec::resolve::lemma_wf_lengths(spec);
    }
    assert(spec.types.values()[k] == typedef_of(spec, r));
}

/// Members whose values fit pair up one by one: each member's value fits its
/// type, whose references resolve.
pub proof fn lemma_members_fit_at(spec: Spec, ms: Seq<RecordMemberType>, vs: Seq<WasiValue>, i: int, pl: bool)
    requires
        spec.acyclic(),
        forall|k: int| 0 <= k < ms.len() ==> (#[trigger] ms[k]).tref.target(spec) is Some,
        ms.len() == vs.len(),
        members_fit(spec, ms, vs, pl),
        0 <= i < ms.len(),
    ensures
        fits(spec, resolved(spec, ms[i].tref), vs[i], pl),
        refs_resolve(spec, resolved(spec, ms[i].tref)),
        members_fit(spec, ms.subrange(0, i), vs.subrange(0, i), pl),
    decreases ms.len(),
{
    let init = ms.subrange(0, ms.len() - 1);
    let vinit = vs.subrange(0, vs.len() - 1);
    lemma_target_shallower(spec, ms[i].tref);
    assert forall|k: int| 0 <= k < init.len() implies (#[trigger] init[k]).tref.target(spec) is Some by {
        assert(init[k] == ms[k]);
    }
    if i < ms.len() - 1 {
        lemma_members_fit_at(spec, init, vinit, i, pl);
        assert(init.subrange(0, i) == ms.subrange(0, i));
        assert(vinit.subrange(0, i) == vs.subrange(0, i));
        assert(init[i] == ms[i]);
        assert(vinit[i] == vs[i]);
    } else {
        assert(init == ms.subrange(0, i));
        assert(vinit == vs.subrange(0, i));
    }
}

/// Walking one more member adds what that member's value creates.
pub proof fn lemma_members_created_step(spec: Spec, ms: Seq<RecordMemberType>, vs: Seq<WasiValue>, i: int, pl: bool)
    requires
        spec.acyclic(),
        forall|k: int| 0 <= k < ms.len() ==> (#[trigger] ms[k]).tref.target(spec) is Some,
        ms.len() == vs.len(),
        0 <= i < ms.len(),
        refs_resolve(spec, resolved(spec, ms[i].tref)),
    ensures
        members_created(spec, ms.subrange(0, i + 1), vs.subrange(0, i + 1), pl) == members_created(
            spec,
            ms.subrange(0, i),
            vs.subrange(0, i),
            pl,
        ) + created(spec, typedef_of(spec, ms[i].tref), vs[i], pl),
        members_created(spec, ms.subrange(0, i), vs.subrange(0, i), pl).len() <= members_created(
            spec,
            ms.subrange(0, i + 1),
            vs.subrange(0, i + 1),
            pl,
        ).len(),
{
    let m1 = ms.subrange(0, i + 1);
    let v1 = vs.subrange(0, i + 1);
    assert(m1.subrange(0, i) == ms.subrange(0, i));
    assert(v1.subrange(0, i) == vs.subrange(0, i));
    assert(m1[i] == ms[i]);
    assert(v1[i] == vs[i]);
    assert forall|k: int| 0 <= k < m1.len() implies (#[trigger] m1[k]).tref.target(spec) is Some by {
        assert(m1[k] == ms[k]);
    }
    assert forall|k: int| 0 <= k < i implies (#[trigger] ms.subrange(0, i)[k]).tref.target(spec) is Some by {
        assert(ms.subrange(0, i)[k] == ms[k]);
    }
    assert(m1.len() == i + 1);
    lemma_target_shallower(spec, ms[i].tref);
    assert(members_created(spec, m1, v1, pl) == members_created(
        spec,
        m1.subrange(0, m1.len() - 1),
        v1.subrange(0, v1.len() - 1),
        pl,
    ) + created(spec, typedef_of(spec, m1[m1.len() - 1].tref), v1[v1.len() - 1], pl));
}

/// The members before the `i`th create no more than those before the `n`th,
/// for `i <= n`.
pub proof fn lemma_members_created_prefix(spec: Spec, ms: Seq<RecordMemberType>, vs: Seq<WasiValue>, i: int, n: int, pl: bool)
    requires
        spec.acyclic(),
        forall|k: int| 0 <= k < ms.len() ==> (#[trigger] ms[k]).tref.target(spec) is Some,
        ms.len() == vs.len(),
        members_fit(spec, ms, vs, pl),
        0 <= i <= n <= ms.len(),
    ensures
        members_created(spec, ms.subrange(0, i), vs.subrange(0, i), pl).len() <= members_created(
            spec,
            ms.subrange(0, n),
            vs.subrange(0, n),
            pl,
        ).len(),
    decreases n - i,
{
    if i < n {
        lemma_members_fit_at(spec, ms, vs, i, pl);
        lemma_members_created_step(spec, ms, vs, i, pl);
        lemma_members_created_prefix(spec, ms, vs, i + 1, n, pl);
    }
}

/// Items whose values fit pair up one by one with the item type.
pub proof fn lemma_items_fit_at(spec: Spec, item: TypeRef, vs: Seq<WasiValue>, i: int, pl: bool)
    requires
        spec.acyclic(),
        item.target(spec) is Some,
        items_fit(spec, item, vs, pl),
        0 <= i < vs.len(),
    ensures
        fits(spec, resolved(spec, item), vs[i], pl),
        refs_resolve(spec, resolved(spec, item)),
    decreases vs.len(),
{
    lemma_target_shallower(spec, item);
    if i < vs.len() - 1 {
        lemma_items_fit_at(spec, item, vs.subrange(0, vs.len() - 1), i, pl);
    }
}

/// Walking one more item adds what that item creates.
pub proof fn lemma_items_created_step(spec: Spec, item: TypeRef, vs: Seq<WasiValue>, i: int, pl: bool)
    requires
        spec.acyclic(),
        item.target(spec) is Some,
        refs_resolve(spec, resolved(spec, item)),
        0 <= i < vs.len(),
    ensures
        items_created(spec, item, vs.subrange(0, i + 1), pl) == items_created(
            spec,
            item,
            vs.subrange(0, i),
            pl,
        ) + created(spec, typedef_of(spec, item), vs[i], pl),
{
    let v1 = vs.subrange(0, i + 1);
    assert(v1.subrange(0, i) == vs.subrange(0, i));
    assert(v1[i] == vs[i]);
    lemma_target_shallower(spec, item);
    assert(spec.acyclic() && item.target(spec) is Some);
    assert(v1.len() != 0);
    assert(items_created(spec, item, v1, pl) == items_created(spec, item, v1.subrange(0, v1.len() - 1), pl)
        + created(spec, typedef_of(spec, item), v1[v1.len() - 1], pl));
}

/// The items before the `i`th create no more than those before the `n`th.
pub proof fn lemma_items_created_prefix(spec: Spec, item: TypeRef, vs: Seq<WasiValue>, i: int, n: int, pl: bool)
    requires
        spec.acyclic(),
        item.target(spec) is Some,
        items_fit(spec, item, vs, pl),
        0 <= i <= n <= vs.len(),
    ensures
        items_created(spec, item, vs.subrange(0, i), pl).len() <= items_created(
            spec,
            item,
            vs.subrange(0, n),
            pl,
        ).len(),
    decreases n - i,
{
    if i < n {
        lemma_items_fit_at(spec, item, vs, i, pl);
        lemma_items_created_step(spec, item, vs, i, pl);
        lemma_items_created_prefix(spec, item, vs, i + 1, n, pl);
    }
}


impl Environment {
    /// Registers the resources in `value`, a value of the named type `tdef`:
    /// first those of the values inside it, then, where `tdef` is the type
    /// of a resource, a new one for `value` itself, in the zero state. The
    /// result is that last resource.
    fn register_result_value_resource_recursively(
        &mut self,
        spec: &Spec,
        tdef: &TypeDef,
        value: &WasiValue,
    ) -> (r: Option<ResourceIdx>)
        requires
            old(self).wf(),
            spec.acyclic(),
            spec.states_have_zero(),
            refs_resolve(*spec, tdef.wasi),
            tdef.state matches Some(s) ==> refs_resolve(*spec, s) && zero_ok(*spec, s),
            fits(*spec, tdef.wasi, *value, false),
            old(self).resources().len() + created(*spec, *tdef, *value, false).len() < usize::MAX,
        ensures
            final(self).grew(*old(self), *spec, created(*spec, *tdef, *value, false)),
            r == (if tdef.state is Some {
                Some(ResourceIdx((final(self).resources().len() - 1) as usize))
            } else {
                None::<ResourceIdx>
            }),
        decreases spec.depth(tdef.wasi), 1nat,
    {
        let ghost start = *self;
        proof {
            lemma_grew_refl(*self, *spec);
        }
        match (&tdef.wasi, value) {
            (WasiType::Record(record), WasiValue::Record(record_value)) => {
                let ghost ms = record.members@;
                let ghost vs = record_value.members@;
                let n = if record.members.len() <= record_value.members.len() {
                    record.members.len()
                } else {
                    record_value.members.len()
                };
                let ghost mn = ms.subrange(0, n as int);
                let ghost vn = vs.subrange(0, n as int);
                proof {
                    assert forall|k: int| 0 <= k < mn.len() implies (#[trigger] mn[k]).tref.target(*spec) is Some by {
                        assert(mn[k] == ms[k]);
                    }
                    assert(inner_created(*spec, tdef.wasi, *value, false) == members_created(*spec, mn, vn, false));
                    assert(mn.subrange(0, 0) =~= Seq::<RecordMemberType>::empty());
                }
                let mut i: usize = 0;
                while i < n
                    invariant
                        spec.acyclic(),
                        spec.states_have_zero(),
                        n <= ms.len(),
                        n <= vs.len(),
                        ms == record.members@,
                        vs == record_value.members@,
                        mn == ms.subrange(0, n as int),
                        vn == vs.subrange(0, n as int),
                        spec.depth(tdef.wasi) == members_measure(*spec, spec.rank(), ms),
                        forall|k: int| 0 <= k < mn.len() ==> (#[trigger] mn[k]).tref.target(*spec) is Some,
                        members_fit(*spec, mn, vn, false),
                        i <= n,
                        self.grew(start, *spec, members_created(*spec, mn.subrange(0, i as int), vn.subrange(0, i as int), false)),
                        start.resources().len() + members_created(*spec, mn, vn, false).len() < usize::MAX,
                    decreases n - i,
                {
                    proof {
                        lemma_members_fit_at(*spec, mn, vn, i as int, false);
                        lemma_members_created_step(*spec, mn, vn, i as int, false);
                        lemma_members_created_prefix(*spec, mn, vn, i as int + 1, n as int, false);
                        lemma_target_shallower(*spec, mn[i as int].tref);
                        lemma_members_measure(*spec, spec.rank(), ms, i as int);
                        lemma_typedef_ok(*spec, mn[i as int].tref);
                        assert(mn.subrange(0, n as int) == mn);
                        assert(vn.subrange(0, n as int) == vn);
                        assert(mn[i as int] == ms[i as int]);
                        assert(vn[i as int] == vs[i as int]);
                    }
                    let child = record.members[i].tref.resolve(spec);
                    let ghost mid = *self;
                    self.register_result_value_resource_recursively(spec, child, &record_value.members[i]);
                    proof {
                        lemma_grew_trans(start, mid, *self, *spec,
                            members_created(*spec, mn.subrange(0, i as int), vn.subrange(0, i as int), false),
                            created(*spec, *child, vs[i as int], false));
                    }
                    i = i + 1;
                }
                proof {
                    assert(mn.subrange(0, n as int) == mn);
                    assert(vn.subrange(0, n as int) == vn);
                }
            },
            (WasiType::Pointer(pointer), WasiValue::Pointer(pointer_value)) => {
                self.register_items(spec, &pointer.item, &pointer_value.items);
            },
            (WasiType::List(list), WasiValue::List(list_value)) => {
                self.register_items(spec, &list.item, &list_value.items);
            },
            (WasiType::Variant(variant), WasiValue::Variant(variant_value)) => {
                let case = &variant.cases[variant_value.case_idx];
                match (&case.payload, &variant_value.payload) {
                    (Some(payload), Some(payload_value)) => {
                        proof {
                            lemma_cases_measure(*spec, spec.rank(), variant.cases@, variant_value.case_idx as int);
                            lemma_target_shallower(*spec, *payload);
                            lemma_typedef_ok(*spec, *payload);
                        }
                        let child = payload.resolve(spec);
                        assert(inner_created(*spec, tdef.wasi, *value, false) == created(*spec, *child, *payload_value, false));
                        self.register_result_value_resource_recursively(spec, child, payload_value);
                    },
                    _ => {},
                }
            },
            _ => {},
        }
        match &tdef.state {
            Some(state) => {
                let zero = state.zero_value(spec);
                let ghost before = *self;
                let id = self.new_resource(tdef.name.clone(), Resource { state: zero });
                proof {
                    lemma_grew_one(before, *self, *spec, (tdef.name@, *state, *value));
                    lemma_grew_trans(start, before, *self, *spec, inner_created(*spec, tdef.wasi, *value, false), seq![(tdef.name@, *state, *value)]);
                    assert(inner_created(*spec, tdef.wasi, *value, false) + seq![(tdef.name@, *state, *value)] == created(*spec, *tdef, *value, false));
                }
                Some(id)
            },
            None => None,
        }
    }

    /// Registers the resources in each of `items`, values of the type
    /// `item` refers to, one after the other.
    fn register_items(&mut self, spec: &Spec, item: &TypeRef, items: &Vec<WasiValue>)
        requires
            old(self).wf(),
            spec.acyclic(),
            spec.states_have_zero(),
            item.target(*spec) is Some,
            items_fit(*spec, *item, items@, false),
            old(self).resources().len() + items_created(*spec, *item, items@, false).len() < usize::MAX,
        ensures
            final(self).grew(*old(self), *spec, items_created(*spec, *item, items@, false)),
        decreases item.measure(*spec, spec.rank()), 0nat,
    {
        let ghost start = *self;
        let ghost vs = items@;
        proof {
            lemma_grew_refl(*self, *spec);
            assert(vs.subrange(0, 0) =~= Seq::<WasiValue>::empty());
        }
        let mut i: usize = 0;
        while i < items.len()
            invariant
                spec.acyclic(),
                spec.states_have_zero(),
                item.target(*spec) is Some,
                vs == items@,
                items_fit(*spec, *item, vs, false),
                i <= vs.len(),
                self.grew(start, *spec, items_created(*spec, *item, vs.subrange(0, i as int), false)),
                start.resources().len() + items_created(*spec, *item, vs, false).len() < usize::MAX,
            decreases vs.len() - i,
        {
            proof {
                lemma_items_fit_at(*spec, *item, vs, i as int, false);
                lemma_items_created_step(*spec, *item, vs, i as int, false);
                lemma_items_created_prefix(*spec, *item, vs, i as int + 1, vs.len() as int, false);
                lemma_target_shallower(*spec, *item);
                lemma_typedef_ok(*spec, *item);
                assert(vs.subrange(0, vs.len() as int) == vs);
            }
            let child = item.resolve(spec);
            let ghost mid = *self;
            self.register_result_value_resource_recursively(spec, child, &items[i]);
            proof {
                lemma_grew_trans(start, mid, *self, *spec,
                    items_created(*spec, *item, vs.subrange(0, i as int), false),
                    created(*spec, *child, vs[i as int], false));
            }
            i = i + 1;
        }
        proof {
            assert(vs.subrange(0, vs.len() as int) == vs);
        }
    }
}

impl Environment {
    /// Adds the resources in `value`, a value of the named type `tdef`, and
    /// gives `ctx` its value for each: first those of the values inside it
    /// (a pointer's items given as a list), then, where `tdef` is the type of
    /// a resource, a new one for `value` itself, in the zero state.
    pub fn add_resources_to_ctx_recursively(
        &mut self,
        spec: &Spec,
        ctx: &mut RuntimeContext,
        tdef: &TypeDef,
        value: &WasiValue,
    )
        requires
            old(self).wf(),
            spec.acyclic(),
            spec.states_have_zero(),
            refs_resolve(*spec, tdef.wasi),
            tdef.state matches Some(s) ==> refs_resolve(*spec, s) && zero_ok(*spec, s),
            fits(*spec, tdef.wasi, *value, true),
            old(self).resources().len() + created(*spec, *tdef, *value, true).len() < usize::MAX,
        ensures
            final(self).grew(*old(self), *spec, created(*spec, *tdef, *value, true)),
            final(ctx).grew(*old(ctx), old(self).resources().len() as int, created(*spec, *tdef, *value, true)),
        decreases spec.depth(tdef.wasi), 1nat,
    {
        let ghost start = *self;
        let ghost start_ctx = *ctx;
        let ghost first = start.resources().len() as int;
        proof {
            lemma_grew_refl(*self, *spec);
            lemma_ctx_grew_refl(*ctx, first);
        }
        match (&tdef.wasi, value) {
            (WasiType::Record(record), WasiValue::Record(record_value)) => {
                let ghost ms = record.members@;
                let ghost vs = record_value.members@;
                let n = if record.members.len() <= record_value.members.len() {
                    record.members.len()
                } else {
                    record_value.members.len()
                };
                let ghost mn = ms.subrange(0, n as int);
                let ghost vn = vs.subrange(0, n as int);
                proof {
                    assert forall|k: int| 0 <= k < mn.len() implies (#[trigger] mn[k]).tref.target(*spec) is Some by {
                        assert(mn[k] == ms[k]);
                    }
                    assert(inner_created(*spec, tdef.wasi, *value, true) == members_created(*spec, mn, vn, true));
                    assert(mn.subrange(0, 0) =~= Seq::<RecordMemberType>::empty());
                }
                let mut i: usize = 0;
                while i < n
                    invariant
                        spec.acyclic(),
                        spec.states_have_zero(),
                        n <= ms.len(),
                        n <= vs.len(),
                        ms == record.members@,
                        vs == record_value.members@,
                        mn == ms.subrange(0, n as int),
                        vn == vs.subrange(0, n as int),
                        spec.depth(tdef.wasi) == members_measure(*spec, spec.rank(), ms),
                        forall|k: int| 0 <= k < mn.len() ==> (#[trigger] mn[k]).tref.target(*spec) is Some,
                        members_fit(*spec, mn, vn, true),
                        i <= n,
                        self.grew(start, *spec, members_created(*spec, mn.subrange(0, i as int), vn.subrange(0, i as int), true)),
                        ctx.grew(start_ctx, first, members_created(*spec, mn.subrange(0, i as int), vn.subrange(0, i as int), true)),
                        first == start.resources().len(),
                        start.resources().len() + members_created(*spec, mn, vn, true).len() < usize::MAX,
                    decreases n - i,
                {
                    proof {
                        lemma_members_fit_at(*spec, mn, vn, i as int, true);
                        lemma_members_created_step(*spec, mn, vn, i as int, true);
                        lemma_members_created_prefix(*spec, mn, vn, i as int + 1, n as int, true);
                        lemma_target_shallower(*spec, mn[i as int].tref);
                        lemma_members_measure(*spec, spec.rank(), ms, i as int);
                        lemma_typedef_ok(*spec, mn[i as int].tref);
                        assert(mn.subrange(0, n as int) == mn);
                        assert(vn.subrange(0, n as int) == vn);
                        assert(mn[i as int] == ms[i as int]);
                        assert(vn[i as int] == vs[i as int]);
                    }
                    let child = record.members[i].tref.resolve(spec);
                    let ghost mid = *self;
                    let ghost mid_ctx = *ctx;
                    self.add_resources_to_ctx_recursively(spec, ctx, child, &record_value.members[i]);
                    proof {
                        lemma_grew_trans(start, mid, *self, *spec,
                            members_created(*spec, mn.subrange(0, i as int), vn.subrange(0, i as int), true),
                            created(*spec, *child, vs[i as int], true));
                        lemma_ctx_grew_trans(start_ctx, mid_ctx, *ctx, first,
                            members_created(*spec, mn.subrange(0, i as int), vn.subrange(0, i as int), true),
                            created(*spec, *child, vs[i as int], true));
                    }
                    i = i + 1;
                }
                proof {
                    assert(mn.subrange(0, n as int) == mn);
                    assert(vn.subrange(0, n as int) == vn);
                }
            },
            (WasiType::Pointer(pointer), WasiValue::List(pointer_value)) => {
                self.add_items_to_ctx(spec, ctx, &pointer.item, &pointer_value.items);
            },
            (WasiType::List(list), WasiValue::List(list_value)) => {
                self.add_items_to_ctx(spec, ctx, &list.item, &list_value.items);
            },
            (WasiType::Variant(variant), WasiValue::Variant(variant_value)) => {
                let case = &variant.cases[variant_value.case_idx];
                match (&case.payload, &variant_value.payload) {
                    (Some(payload), Some(payload_value)) => {
                        proof {
                            lemma_cases_measure(*spec, spec.rank(), variant.cases@, variant_value.case_idx as int);
                            lemma_target_shallower(*spec, *payload);
                            lemma_typedef_ok(*spec, *payload);
                        }
                        let child = payload.resolve(spec);
                        assert(inner_created(*spec, tdef.wasi, *value, true) == created(*spec, *child, *payload_value, true));
                        self.add_resources_to_ctx_recursively(spec, ctx, child, payload_value);
                    },
                    _ => {},
                }
            },
            _ => {},
        }
        assert(self.grew(start, *spec, inner_created(*spec, tdef.wasi, *value, true)));
        assert(ctx.grew(start_ctx, first, inner_created(*spec, tdef.wasi, *value, true)));
        match &tdef.state {
            Some(state) => {
                let zero = state.zero_value(spec);
                let ghost before = *self;
                let ghost before_ctx = *ctx;
                let id = self.new_resource(tdef.name.clone(), Resource { state: zero });
                ctx.resources.insert(id.0, value.duplicate());
                proof {
                    lemma_grew_one(before, *self, *spec, (tdef.name@, *state, *value));
                    lemma_grew_trans(start, before, *self, *spec, inner_created(*spec, tdef.wasi, *value, true), seq![(tdef.name@, *state, *value)]);
                    assert(inner_created(*spec, tdef.wasi, *value, true) + seq![(tdef.name@, *state, *value)] == created(*spec, *tdef, *value, true));
                    let inner = inner_created(*spec, tdef.wasi, *value, true);
                    assert(ctx.grew(before_ctx, first + inner.len(), seq![(tdef.name@, *state, *value)]));
                    lemma_ctx_grew_trans(start_ctx, before_ctx, *ctx, first, inner, seq![(tdef.name@, *state, *value)]);
                    assert(inner.push((tdef.name@, *state, *value)) =~= inner + seq![(tdef.name@, *state, *value)]);
                }
            },
            None => {},
        }
    }

    /// Adds the resources in each of `items`, values of the type `item`
    /// refers to, one after the other, and gives `ctx` its value for each.
    fn add_items_to_ctx(&mut self, spec: &Spec, ctx: &mut RuntimeContext, item: &TypeRef, items: &Vec<WasiValue>)
        requires
            old(self).wf(),
            spec.acyclic(),
            spec.states_have_zero(),
            item.target(*spec) is Some,
            items_fit(*spec, *item, items@, true),
            old(self).resources().len() + items_created(*spec, *item, items@, true).len() < usize::MAX,
        ensures
            final(self).grew(*old(self), *spec, items_created(*spec, *item, items@, true)),
            final(ctx).grew(*old(ctx), old(self).resources().len() as int, items_created(*spec, *item, items@, true)),
        decreases item.measure(*spec, spec.rank()), 0nat,
    {
        let ghost start = *self;
        let ghost start_ctx = *ctx;
        let ghost first = start.resources().len() as int;
        let ghost vs = items@;
        proof {
            lemma_grew_refl(*self, *spec);
            lemma_ctx_grew_refl(*ctx, first);
            assert(vs.subrange(0, 0) =~= Seq::<WasiValue>::empty());
        }
        let mut i: usize = 0;
        while i < items.len()
            invariant
                spec.acyclic(),
                spec.states_have_zero(),
                item.target(*spec) is Some,
                vs == items@,
                items_fit(*spec, *item, vs, true),
                i <= vs.len(),
                self.grew(start, *spec, items_created(*spec, *item, vs.subrange(0, i as int), true)),
                ctx.grew(start_ctx, first, items_created(*spec, *item, vs.subrange(0, i as int), true)),
                first == start.resources().len(),
                start.resources().len() + items_created(*spec, *item, vs, true).len() < usize::MAX,
            decreases vs.len() - i,
        {
            proof {
                lemma_items_fit_at(*spec, *item, vs, i as int, true);
                lemma_items_created_step(*spec, *item, vs, i as int, true);
                lemma_items_created_prefix(*spec, *item, vs, i as int + 1, vs.len() as int, true);
                lemma_target_shallower(*spec, *item);
                lemma_typedef_ok(*spec, *item);
                assert(vs.subrange(0, vs.len() as int) == vs);
            }
            let child = item.resolve(spec);
            let ghost mid = *self;
            let ghost mid_ctx = *ctx;
            self.add_resources_to_ctx_recursively(spec, ctx, child, &items[i]);
            proof {
                lemma_grew_trans(start, mid, *self, *spec,
                    items_created(*spec, *item, vs.subrange(0, i as int), true),
                    created(*spec, *child, vs[i as int], true));
                lemma_ctx_grew_trans(start_ctx, mid_ctx, *ctx, first,
                    items_created(*spec, *item, vs.subrange(0, i as int), true),
                    created(*spec, *child, vs[i as int], true));
            }
            i = i + 1;
        }
        proof {
            assert(vs.subrange(0, vs.len() as int) == vs);
        }
    }
}


/// What registering the first `n` results, each a value of its result's
/// type, creates, in order.
pub open spec fn results_created(spec: Spec, rs: Seq<FunctionResult>, vs: Seq<(String, WasiValue)>, n: nat) -> Created
    decreases n,
{
    if n == 0 {
        Seq::empty()
    } else {
        results_created(spec, rs, vs, (n - 1) as nat) + created(
            spec,
            typedef_of(spec, rs[n - 1].tref),
            vs[n - 1].1,
            false,
        )
    }
}

/// Fewer results create no more.
pub proof fn lemma_results_created_prefix(spec: Spec, rs: Seq<FunctionResult>, vs: Seq<(String, WasiValue)>, i: nat, n: nat)
    requires
        i <= n,
    ensures
        results_created(spec, rs, vs, i).len() <= results_created(spec, rs, vs, n).len(),
    decreases n - i,
{
    if i < n {
        lemma_results_created_prefix(spec, rs, vs, i, (n - 1) as nat);
    }
}

impl Environment {
    /// Registers the resources in a call's results, each a value of its
    /// result's type, results and values paired up to the shorter of the
    /// two. The result holds, for each result, the resource made for the
    /// value itself, where its type is that of a resource.
    pub fn execute_function_effects(
        &mut self,
        spec: &Spec,
        function: &Function,
        params: &[(WasiValue, Option<ResourceIdx>)],
        results: &Vec<(String, WasiValue)>,
    ) -> (r: Vec<Option<ResourceIdx>>)
        requires
            old(self).wf(),
            spec.acyclic(),
            spec.states_have_zero(),
            forall|i: int|
                0 <= i < function.results@.len() && i < results@.len() ==> {
                    &&& (#[trigger] function.results@[i]).tref.target(*spec) is Some
                    &&& refs_resolve(*spec, resolved(*spec, function.results@[i].tref))
                    &&& fits(*spec, resolved(*spec, function.results@[i].tref), results@[i].1, false)
                },
            old(self).resources().len() + results_created(
                *spec,
                function.results@,
                results@,
                min_len(function.results@.len(), results@.len()),
            ).len() < usize::MAX,
        ensures
            r@.len() == min_len(function.results@.len(), results@.len()),
            final(self).grew(
                *old(self),
                *spec,
                results_created(*spec, function.results@, results@, r@.len()),
            ),
            forall|i: int|
                0 <= i < r@.len() ==> #[trigger] r@[i] == (if typedef_of(
                    *spec,
                    function.results@[i].tref,
                ).state is Some {
                    Some(
                        ResourceIdx(
                            (old(self).resources().len() + results_created(
                                *spec,
                                function.results@,
                                results@,
                                (i + 1) as nat,
                            ).len() - 1) as usize,
                        ),
                    )
                } else {
                    None::<ResourceIdx>
                }),
    {
        let ghost start = *self;
        let ghost rs = function.results@;
        let ghost vs = results@;
        let n = if function.results.len() <= results.len() {
            function.results.len()
        } else {
            results.len()
        };
        proof {
            lemma_grew_refl(*self, *spec);
        }
        let mut ids: Vec<Option<ResourceIdx>> = Vec::new();
        let mut i: usize = 0;
        while i < n
            invariant
                spec.acyclic(),
                spec.states_have_zero(),
                rs == function.results@,
                vs == results@,
                n == min_len(rs.len(), vs.len()),
                i <= n,
                forall|k: int|
                    0 <= k < rs.len() && k < vs.len() ==> {
                        &&& (#[trigger] rs[k]).tref.target(*spec) is Some
                        &&& refs_resolve(*spec, resolved(*spec, rs[k].tref))
                        &&& fits(*spec, resolved(*spec, rs[k].tref), vs[k].1, false)
                    },
                start.resources().len() + results_created(*spec, rs, vs, n as nat).len() < usize::MAX,
                self.grew(start, *spec, results_created(*spec, rs, vs, i as nat)),
                ids@.len() == i,
                forall|k: int|
                    0 <= k < i ==> #[trigger] ids@[k] == (if typedef_of(*spec, rs[k].tref).state is Some {
                        Some(
                            ResourceIdx(
                                (start.resources().len() + results_created(*spec, rs, vs, (k + 1) as nat).len()
                                    - 1) as usize,
                            ),
                        )
                    } else {
                        None::<ResourceIdx>
                    }),
            decreases n - i,
        {
            proof {
                lemma_results_created_prefix(*spec, rs, vs, (i + 1) as nat, n as nat);
                lemma_typedef_ok(*spec, rs[i as int].tref);
                assert(rs[i as int].tref.target(*spec) is Some);
            }
            let tdef = function.results[i].tref.resolve(spec);
            let ghost mid = *self;
            let id = self.register_result_value_resource_recursively(spec, tdef, &results[i].1);
            proof {
                lemma_grew_trans(start, mid, *self, *spec, results_created(*spec, rs, vs, i as nat),
                    created(*spec, *tdef, vs[i as int].1, false));
                assert(results_created(*spec, rs, vs, (i + 1) as nat) == results_created(*spec, rs, vs, i as nat)
                    + created(*spec, *tdef, vs[i as int].1, false));
            }
            ids.push(id);
            i = i + 1;
        }
        ids
    }
}

/// The smaller of two lengths.
pub open spec fn min_len(a: nat, b: nat) -> nat {
    if a <= b {
        a
    } else {
        b
    }
}


/// The members of the state of type `fd`, where that state is a record.
pub open spec fn fd_state_members(spec: Spec) -> Option<Seq<RecordMemberType>> {
    match spec.type_named("fd"@) {
        Some(d) => match d.state {
            Some(WasiType::Record(r)) => Some(r.members@),
            _ => None,
        },
        None => None,
    }
}

/// Whether a member of the state of `fd` can be set for a preopened
/// directory: its offset is zero, no flag is set, its file type is the case
/// named `directory`, and every other member is its type's zero.
pub open spec fn preopen_member_ok(spec: Spec, m: RecordMemberType) -> bool {
    if m.name@ == "offset"@ {
        true
    } else if m.name@ == "flags"@ {
        resolved(spec, m.tref) is Flags
    } else if m.name@ == "type"@ {
        resolved(spec, m.tref) matches WasiType::Variant(v) && exists|i: int|
            0 <= i < v.cases@.len() && #[trigger] v.cases@[i].name@ == "directory"@
    } else {
        refs_resolve(spec, resolved(spec, m.tref)) && zero_ok(spec, resolved(spec, m.tref))
    }
}

/// Whether `v` is what a preopened directory's state holds for member `m`.
pub open spec fn preopen_member_value(spec: Spec, m: RecordMemberType, v: WasiValue) -> bool {
    if m.name@ == "offset"@ {
        v == WasiValue::U64(0)
    } else if m.name@ == "flags"@ {
        &&& resolved(spec, m.tref) matches WasiType::Flags(f)
        &&& v matches WasiValue::Flags(fv)
        &&& fv.fields@.len() == f.fields@.len()
        &&& forall|i: int| 0 <= i < fv.fields@.len() ==> !(#[trigger] fv.fields@[i])
    } else if m.name@ == "type"@ {
        &&& resolved(spec, m.tref) matches WasiType::Variant(vt)
        &&& v matches WasiValue::Variant(b)
        &&& b.case_idx < vt.cases@.len()
        &&& vt.cases@[b.case_idx as int].name@ == "directory"@
        &&& forall|i: int| 0 <= i < b.case_idx ==> #[trigger] vt.cases@[i].name@ != "directory"@
        &&& b.payload is None
    } else {
        is_zero(spec, resolved(spec, m.tref), v)
    }
}

/// Whether `v` is the state of a preopened directory: a record with the
/// preopened value of each member of the state of `fd`.
pub open spec fn is_preopen_state(spec: Spec, ms: Seq<RecordMemberType>, v: WasiValue) -> bool {
    &&& v matches WasiValue::Record(rv)
    &&& rv.members@.len() == ms.len()
    &&& forall|i: int| 0 <= i < ms.len() ==> preopen_member_value(spec, #[trigger] ms[i], rv.members@[i])
}

/// The position of the last of the first `n` preopens named `name`; -1
/// where none is.
pub open spec fn last_named(pre: Seq<(String, String, WasiValue)>, name: Seq<char>, n: int) -> int
    decreases n,
{
    if n <= 0 {
        -1
    } else if pre[n - 1].0@ == name {
        n - 1
    } else {
        last_named(pre, name, n - 1)
    }
}

/// The resource that the `q`th preopen of the `i`th runtime stands for: the
/// first runtime's preopens each get their own, in order; a later runtime's
/// preopen gets that of the first runtime's last preopen of the same name.
pub open spec fn preopen_id(inits: Seq<EnvironmentInitializer>, i: int, q: int) -> int {
    if i == 0 {
        q
    } else {
        last_named(inits[0].preopens@, inits[i].preopens@[q].0@, inits[0].preopens@.len() as int)
    }
}

/// The host directories a runtime knows after its first `n` preopens.
pub open spec fn ctx_preopens(inits: Seq<EnvironmentInitializer>, i: int, n: int) -> Map<usize, Seq<char>>
    decreases n,
{
    if n <= 0 {
        Map::empty()
    } else {
        ctx_preopens(inits, i, n - 1).insert(
            preopen_id(inits, i, n - 1) as usize,
            inits[i].preopens@[n - 1].1@,
        )
    }
}

/// The resources a runtime has values for after its first `n` preopens.
pub open spec fn ctx_ids(inits: Seq<EnvironmentInitializer>, i: int, n: int) -> Set<usize>
    decreases n,
{
    if n <= 0 {
        Set::empty()
    } else {
        ctx_ids(inits, i, n - 1).insert(preopen_id(inits, i, n - 1) as usize)
    }
}

/// The values a runtime has for its resources after its first `n`
/// preopens: each preopen's value under the resource it stands for, a later
/// preopen's in place of an earlier one's.
pub open spec fn ctx_values(inits: Seq<EnvironmentInitializer>, i: int, n: int) -> Map<usize, WasiValue>
    decreases n,
{
    if n <= 0 {
        Map::empty()
    } else {
        ctx_values(inits, i, n - 1).insert(preopen_id(inits, i, n - 1) as usize, inits[i].preopens@[n - 1].2)
    }
}

/// Whether a context holds, for each resource it has a value for, the same
/// value as `values`.
pub open spec fn values_match(ctx: RuntimeContext, values: Map<usize, WasiValue>) -> bool {
    forall|k: usize|
        #[trigger] ctx.resources@.contains_key(k) ==> values.contains_key(k) && same(values[k], ctx.resources@[k])
}

/// The state of a preopened directory.
fn preopen_state(spec: &Spec, members: &Vec<RecordMemberType>) -> (r: WasiValue)
    requires
        spec.acyclic(),
        forall|i: int| 0 <= i < members@.len() ==> (#[trigger] members@[i]).tref.target(*spec) is Some,
        forall|i: int| 0 <= i < members@.len() ==> preopen_member_ok(*spec, #[trigger] members@[i]),
    ensures
        is_preopen_state(*spec, members@, r),
{
    proof {
        reveal_strlit("offset");
        reveal_strlit("flags");
        reveal_strlit("type");
        reveal_strlit("directory");
    }
    let offset = "offset".to_owned();
    let flags_name = "flags".to_owned();
    let kind_name = "type".to_owned();
    let mut values: Vec<WasiValue> = Vec::new();
    let mut i: usize = 0;
    while i < members.len()
        invariant
            offset@ == "offset"@,
            flags_name@ == "flags"@,
            kind_name@ == "type"@,
            spec.acyclic(),
            forall|k: int| 0 <= k < members@.len() ==> (#[trigger] members@[k]).tref.target(*spec) is Some,
            forall|k: int| 0 <= k < members@.len() ==> preopen_member_ok(*spec, #[trigger] members@[k]),
            i <= members@.len(),
            values@.len() == i,
            forall|k: int| 0 <= k < i ==> preopen_member_value(*spec, #[trigger] members@[k], values@[k]),
        decreases members@.len() - i,
    {
        let m = &members[i];
        assert(preopen_member_ok(*spec, members@[i as int]));
        proof {
            lemma_target_shallower(*spec, m.tref);
        }
        let wasi = &m.tref.resolve(spec).wasi;
        let v = if m.name == offset {
            WasiValue::U64(0)
        } else if m.name == flags_name {
            let none: Vec<String> = Vec::new();
            match wasi.flags() {
                Some(flags) => flags.value(none.as_slice()),
                None => WasiValue::U64(0),
            }
        } else if m.name == kind_name {
            match wasi.variant() {
                Some(variant) => match variant.value_from_name("directory", None) {
                    Some(v) => v,
                    None => WasiValue::U64(0),
                },
                None => WasiValue::U64(0),
            }
        } else {
            wasi.zero_value(spec)
        };
        values.push(v);
        i = i + 1;
    }
    WasiValue::Record(RecordValue { members: values })
}


/// The position of the last preopen named `name`, if any.
fn find_last_named(pre: &Vec<(String, String, WasiValue)>, name: &String) -> (r: Option<usize>)
    ensures
        r matches Some(q) ==> q == last_named(pre@, name@, pre@.len() as int),
        r is None ==> last_named(pre@, name@, pre@.len() as int) == -1,
{
    let mut n: usize = pre.len();
    while n > 0
        invariant
            n <= pre@.len(),
            last_named(pre@, name@, pre@.len() as int) == last_named(pre@, name@, n as int),
        decreases n,
    {
        if pre[n - 1].0 == *name {
            return Some(n - 1);
        }
        n = n - 1;
    }
    None
}

/// The environment that runtimes start in, and what each runtime knows of
/// it. Each preopen of the first runtime gets a resource of type `fd`, in
/// the preopened state; a later runtime's preopens stand for the first
/// runtime's of the same name. Each runtime knows, for each resource its
/// preopens stand for, the host directory and its own value.
pub fn apply_env_initializers(spec: &Spec, initializers: &[EnvironmentInitializer]) -> (r: (
    Environment,
    Vec<RuntimeContext>,
))
    requires
        spec.acyclic(),
        fd_state_members(*spec) matches Some(ms) && forall|k: int|
            0 <= k < ms.len() ==> (#[trigger] ms[k]).tref.target(*spec) is Some && preopen_member_ok(*spec, ms[k]),
        forall|i: int, q: int|
            1 <= i < initializers@.len() && 0 <= q < initializers@[i].preopens@.len()
                ==> #[trigger] preopen_id(initializers@, i, q) >= 0,
        initializers@.len() > 0 ==> initializers@[0].preopens@.len() < usize::MAX,
    ensures
        r.0.wf(),
        r.1@.len() == initializers@.len(),
        r.0.resources().len() == (if initializers@.len() == 0 {
            0
        } else {
            initializers@[0].preopens@.len()
        }),
        forall|j: int|
            0 <= j < r.0.resources().len() ==> r.0.type_of(j) == "fd"@ && is_preopen_state(
                *spec,
                fd_state_members(*spec).unwrap(),
                #[trigger] r.0.resources()[j].state,
            ),
        forall|i: int|
            0 <= i < initializers@.len() ==> (#[trigger] r.1@[i]).preopens@.map_values(
                |s: String| s@,
            ) == ctx_preopens(initializers@, i, initializers@[i].preopens@.len() as int)
                && r.1@[i].resources@.dom() == ctx_ids(
                initializers@,
                i,
                initializers@[i].preopens@.len() as int,
            ) && values_match(r.1@[i], ctx_values(initializers@, i, initializers@[i].preopens@.len() as int)),
{
    proof {
        reveal_strlit("fd");
    }
    let ghost ms = fd_state_members(*spec).unwrap();
    let ghost inits = initializers@;
    let fd = spec.types.get_by_key("fd").unwrap();
    let members = match &fd.state {
        Some(WasiType::Record(record)) => &record.members,
        _ => {
            proof {
                assert(false);
            }
            return (Environment::new(), Vec::new());
        },
    };
    assert(members@ == ms);
    let mut env = Environment::new();
    let mut ctxs: Vec<RuntimeContext> = Vec::new();
    let mut i: usize = 0;
    while i < initializers.len()
        invariant
            spec.acyclic(),
            inits == initializers@,
            members@ == ms,
            fd_state_members(*spec) == Some(ms),
            forall|k: int| 0 <= k < ms.len() ==> (#[trigger] ms[k]).tref.target(*spec) is Some,
            forall|k: int| 0 <= k < ms.len() ==> preopen_member_ok(*spec, #[trigger] ms[k]),
            forall|i2: int, q: int|
                1 <= i2 < inits.len() && 0 <= q < inits[i2].preopens@.len()
                    ==> #[trigger] preopen_id(inits, i2, q) >= 0,
            inits.len() > 0 ==> inits[0].preopens@.len() < usize::MAX,
            i <= inits.len(),
            env.wf(),
            env.resources().len() == (if i == 0 {
                0
            } else {
                inits[0].preopens@.len()
            }),
            forall|j: int|
                0 <= j < env.resources().len() ==> env.type_of(j) == "fd"@ && is_preopen_state(
                    *spec,
                    ms,
                    #[trigger] env.resources()[j].state,
                ),
            ctxs@.len() == i,
            forall|i2: int|
                0 <= i2 < i ==> (#[trigger] ctxs@[i2]).preopens@.map_values(|s: String| s@)
                    == ctx_preopens(inits, i2, inits[i2].preopens@.len() as int)
                    && ctxs@[i2].resources@.dom() == ctx_ids(inits, i2, inits[i2].preopens@.len() as int)
                    && values_match(ctxs@[i2], ctx_values(inits, i2, inits[i2].preopens@.len() as int)),
        decreases inits.len() - i,
    {
        let init = &initializers[i];
        let mut ctx = RuntimeContext::new();
        let mut q: usize = 0;
        proof {
            assert(ctx.preopens@.map_values(|s: String| s@) =~= ctx_preopens(inits, i as int, 0));
            assert(ctx.resources@.dom() =~= ctx_ids(inits, i as int, 0));
        }
        while q < init.preopens.len()
            invariant
                spec.acyclic(),
                inits == initializers@,
                init == inits[i as int],
                members@ == ms,
                forall|k: int| 0 <= k < ms.len() ==> (#[trigger] ms[k]).tref.target(*spec) is Some,
                forall|k: int| 0 <= k < ms.len() ==> preopen_member_ok(*spec, #[trigger] ms[k]),
                forall|i2: int, q2: int|
                    1 <= i2 < inits.len() && 0 <= q2 < inits[i2].preopens@.len()
                        ==> #[trigger] preopen_id(inits, i2, q2) >= 0,
                inits.len() > 0 ==> inits[0].preopens@.len() < usize::MAX,
                i < inits.len(),
                q <= init.preopens@.len(),
                env.wf(),
                env.resources().len() == (if i == 0 {
                    q as int
                } else {
                    inits[0].preopens@.len() as int
                }),
                forall|j: int|
                    0 <= j < env.resources().len() ==> env.type_of(j) == "fd"@ && is_preopen_state(
                        *spec,
                        ms,
                        #[trigger] env.resources()[j].state,
                    ),
                ctx.preopens@.map_values(|s: String| s@) == ctx_preopens(inits, i as int, q as int),
                ctx.resources@.dom() == ctx_ids(inits, i as int, q as int),
                values_match(ctx, ctx_values(inits, i as int, q as int)),
            decreases init.preopens@.len() - q,
        {
            let id: usize = if i == 0 {
                let state = preopen_state(spec, members);
                let idx = env.new_resource("fd".to_owned(), Resource { state });
                idx.0
            } else {
                proof {
                    assert(preopen_id(inits, i as int, q as int) >= 0);
                }
                match find_last_named(&initializers[0].preopens, &init.preopens[q].0) {
                    Some(k) => k,
                    None => 0,
                }
            };
            assert(id == preopen_id(inits, i as int, q as int));
            let ghost before = ctx;
            let value = init.preopens[q].2.duplicate();
            ctx.resources.insert(id, value);
            ctx.preopens.insert(id, init.preopens[q].1.clone());
            proof {
                assert(ctx.preopens@.map_values(|s: String| s@) =~= ctx_preopens(inits, i as int, q + 1));
                assert(ctx.resources@.dom() =~= ctx_ids(inits, i as int, q + 1));
                let vals = ctx_values(inits, i as int, q + 1);
                assert(vals == ctx_values(inits, i as int, q as int).insert(id, inits[i as int].preopens@[q as int].2));
                assert forall|k: usize| #[trigger] ctx.resources@.contains_key(k) implies vals.contains_key(k) && same(
                    vals[k],
                    ctx.resources@[k],
                ) by {
                    if k != id {
                        assert(before.resources@.contains_key(k));
                    }
                }
            }
            q = q + 1;
        }
        ctxs.push(ctx);
        i = i + 1;
    }
    (env, ctxs)
}

} // verus!
