//! The solver fuzzer's environment: resources with named attributes, and
//! what a function's effects do to them.
use vstd::prelude::*;

use crate::wasi::effects::{Expr, Program, Stmt};
use crate::wasi::value::{same, WasiValue};

verus! {

/// A call made in a run, and what came of it.
#[derive(PartialEq, Eq, Debug)]
pub struct Call {
    pub function: String,
    pub errno: Option<i32>,
    pub params: Vec<Value>,
    pub results: Vec<Value>,
}

/// A value, and the resource it stands for, if any.
#[derive(PartialEq, Eq, Debug)]
pub struct Value {
    pub wasi: WasiValue,
    pub resource: Option<usize>,
}

/// A resource, by its attributes' names and values.
#[derive(PartialEq, Eq, Debug)]
pub struct Resource {
    pub attributes: Vec<(String, WasiValue)>,
}

/// The resources of a run, and the resources of each type.
#[derive(PartialEq, Eq, Debug)]
pub struct Environment {
    resources: Vec<Resource>,
    resources_by_types: Vec<(String, Vec<usize>)>,
}

/// The position of the first entry named `name`, or -1 where none is.
pub open spec fn first_named<V>(entries: Seq<(String, V)>, name: Seq<char>) -> int
    decreases entries.len(),
{
    if entries.len() == 0 {
        -1
    } else if first_named(entries.drop_last(), name) >= 0 {
        first_named(entries.drop_last(), name)
    } else if entries.last().0@ == name {
        entries.len() - 1
    } else {
        -1
    }
}

/// The position of the first entry named `name`, if any.
pub(crate) fn find_named<V>(entries: &Vec<(String, V)>, name: &String) -> (r: Option<usize>)
    ensures
        r is None <==> first_named(entries@, name@) == -1,
        r matches Some(k) ==> k == first_named(entries@, name@) && k < entries@.len() && entries@[k as int].0@ == name@,
{
    let mut k: usize = 0;
    while k < entries.len()
        invariant
            k <= entries@.len(),
            first_named(entries@.subrange(0, k as int), name@) == -1,
        decreases entries@.len() - k,
    {
        assert(entries@.subrange(0, k + 1).drop_last() == entries@.subrange(0, k as int));
        if entries[k].0 == *name {
            proof {
                lemma_first_named_prefix(entries@, name@, k as int + 1);
            }
            return Some(k);
        }
        k = k + 1;
    }
    assert(entries@.subrange(0, entries@.len() as int) == entries@);
    None
}

/// The first entry of a name is an entry of that name.
pub proof fn lemma_first_named_bounds<V>(entries: Seq<(String, V)>, name: Seq<char>)
    ensures
        -1 <= first_named(entries, name) < entries.len(),
        first_named(entries, name) >= 0 ==> entries[first_named(entries, name)].0@ == name,
    decreases entries.len(),
{
    if entries.len() > 0 {
        lemma_first_named_bounds(entries.drop_last(), name);
    }
}

/// The first entry of a prefix that has it is the first entry of the whole.
pub proof fn lemma_first_named_prefix<V>(entries: Seq<(String, V)>, name: Seq<char>, n: int)
    requires
        0 <= n <= entries.len(),
        first_named(entries.subrange(0, n), name) >= 0,
    ensures
        first_named(entries, name) == first_named(entries.subrange(0, n), name),
    decreases entries.len() - n,
{
    if n < entries.len() {
        let m = entries.subrange(0, n + 1);
        assert(m.drop_last() == entries.subrange(0, n));
        lemma_first_named_prefix(entries, name, n + 1);
    } else {
        assert(entries.subrange(0, n) == entries);
    }
}

/// The position, among `stmts`, of the last statement that sets attribute
/// `attr` of resource `id`, the statements' resources being looked up in
/// `results`; -1 where none does.
pub open spec fn last_setter(stmts: Seq<Stmt>, results: Seq<(String, usize)>, id: int, attr: Seq<char>) -> int
    decreases stmts.len(),
{
    if stmts.len() == 0 {
        -1
    } else {
        match stmts.last() {
            Stmt::AttrSet(a) => {
                let k = first_named(results, a.resource@);
                if k >= 0 && results[k].1 == id && a.attr@ == attr {
                    stmts.len() - 1
                } else {
                    last_setter(stmts.drop_last(), results, id, attr)
                }
            },
        }
    }
}

/// Whether every statement names a result resource that exists and has the
/// attribute set.
pub open spec fn effects_apply(resources: Seq<Resource>, stmts: Seq<Stmt>, results: Seq<(String, usize)>) -> bool {
    forall|s: int|
        0 <= s < stmts.len() ==> match #[trigger] stmts[s] {
            Stmt::AttrSet(a) => {
                let k = first_named(results, a.resource@);
                &&& k >= 0
                &&& results[k].1 < resources.len()
                &&& first_named(resources[results[k].1 as int].attributes@, a.attr@) >= 0
            },
        }
}

impl Environment {
    pub closed spec fn resources(&self) -> Seq<Resource> {
        self.resources@
    }

    /// The resources of the type named `t`, in the order they were added.
    pub closed spec fn of_type(&self, t: Seq<char>) -> Seq<usize> {
        let k = first_named(self.resources_by_types@, t);
        if k >= 0 {
            self.resources_by_types@[k].1@
        } else {
            Seq::empty()
        }
    }

    pub fn new() -> (r: Self)
        ensures
            r.resources().len() == 0,
            forall|t: Seq<char>| #[trigger] r.of_type(t) == Seq::<usize>::empty(),
    {
        Environment { resources: Vec::new(), resources_by_types: Vec::new() }
    }

    /// The resources of the type named `name`, where any are listed.
    pub fn resources_of_type(&self, name: &String) -> (r: Option<&Vec<usize>>)
        ensures
            r matches Some(l) ==> l@ == self.of_type(name@),
            r is None ==> self.of_type(name@) == Seq::<usize>::empty(),
    {
        match find_named(&self.resources_by_types, name) {
            Some(k) => Some(&self.resources_by_types[k].1),
            None => None,
        }
    }

    /// Adds a resource of the type named `kind`; its index is the number of
    /// resources before it.
    pub fn new_resource(&mut self, kind: String, resource: Resource) -> (r: usize)
        requires
            old(self).resources().len() < usize::MAX,
        ensures
            r == old(self).resources().len(),
            final(self).resources() == old(self).resources().push(resource),
            final(self).of_type(kind@) == old(self).of_type(kind@).push(r),
            forall|t: Seq<char>| t != kind@ ==> #[trigger] final(self).of_type(t) == old(self).of_type(t),
    {
        self.resources.push(resource);
        let id = self.resources.len() - 1;
        let ghost by_before = self.resources_by_types@;
        match find_named(&self.resources_by_types, &kind) {
            Some(k) => {
                let (name, mut ids) = self.resources_by_types.remove(k);
                ids.push(id);
                self.resources_by_types.insert(k, (name, ids));
                proof {
                    assert(self.resources_by_types@ =~= by_before.update(k as int, self.resources_by_types@[k as int]));
                    lemma_first_named_update(by_before, k as int, self.resources_by_types@[k as int]);
                    assert forall|t: Seq<char>| t != kind@ implies #[trigger] self.of_type(t) == old(self).of_type(t) by {
                        lemma_first_named_bounds(by_before, t);
                    }
                }
            },
            None => {
                let mut ids: Vec<usize> = Vec::new();
                ids.push(id);
                self.resources_by_types.push((kind, ids));
                proof {
                    lemma_first_named_push(by_before, self.resources_by_types@.last());
                    assert(self.resources_by_types@ == by_before.push(self.resources_by_types@.last()));
                    assert forall|t: Seq<char>| t != kind@ implies #[trigger] self.of_type(t) == old(self).of_type(t) by {
                        lemma_first_named_bounds(by_before, t);
                    }
                }
            },
        }
        id
    }

    /// Applies a function's effects: each statement sets an attribute of the
    /// resource that the result it names stands for, in `results`, to the
    /// statement's value.
    pub fn execute_function_effects(&mut self, function_effects: &Program, results: &Vec<(String, usize)>)
        requires
            effects_apply(old(self).resources(), function_effects.stmts@, results@),
        ensures
            final(self).resources().len() == old(self).resources().len(),
            forall|i: int|
                0 <= i < old(self).resources().len() ==> #[trigger] final(self).resources()[i].attributes@.len()
                    == old(self).resources()[i].attributes@.len(),
            forall|i: int, j: int|
                0 <= i < old(self).resources().len() && 0 <= j < old(self).resources()[i].attributes@.len()
                    ==> set_by(old(self).resources()[i].attributes@, #[trigger] final(self).resources()[i].attributes@[j], j,
                    function_effects.stmts@, function_effects.stmts@.len() as int, results@, i),
    {
        let ghost start = self.resources@;
        let ghost stmts = function_effects.stmts@;
        let mut s: usize = 0;
        while s < function_effects.stmts.len()
            invariant
                stmts == function_effects.stmts@,
                effects_apply(start, stmts, results@),
                s <= stmts.len(),
                self.resources@.len() == start.len(),
                forall|i: int|
                    0 <= i < start.len() ==> #[trigger] self.resources@[i].attributes@.len()
                        == start[i].attributes@.len(),
                forall|i: int, j: int|
                    0 <= i < start.len() && 0 <= j < start[i].attributes@.len()
                        ==> #[trigger] self.resources@[i].attributes@[j].0 == start[i].attributes@[j].0,
                forall|i: int, j: int|
                    0 <= i < start.len() && 0 <= j < start[i].attributes@.len()
                        ==> set_by(start[i].attributes@, #[trigger] self.resources@[i].attributes@[j], j,
                        stmts, s as int, results@, i),
            decreases stmts.len() - s,
        {
            match &function_effects.stmts[s] {
                Stmt::AttrSet(a) => {
                    assert(stmts[s as int] == Stmt::AttrSet(*a));
                    proof {
                        lemma_first_named_bounds(results@, a.resource@);
                    }
                    let k = match find_named(results, &a.resource) {
                        Some(k) => k,
                        None => 0,
                    };
                    let id = results[k].1;
                    let value = match &a.value {
                        Expr::WasiValue(v) => v.duplicate(),
                    };
                    let ghost cur = self.resources@;
                    proof {
                        lemma_first_named_names(start[id as int].attributes@, cur[id as int].attributes@, a.attr@);
                        lemma_first_named_bounds(cur[id as int].attributes@, a.attr@);
                    }
                    let j = match find_named(&self.resources[id].attributes, &a.attr) {
                        Some(j) => j,
                        None => 0,
                    };
                    let mut resource = self.resources.remove(id);
                    let (name, _) = resource.attributes.remove(j);
                    resource.attributes.insert(j, (name, value));
                    self.resources.insert(id, resource);
                    proof {
                        let prefix = stmts.subrange(0, s as int + 1);
                        assert(prefix.drop_last() == stmts.subrange(0, s as int));
                        assert(prefix.last() == stmts[s as int]);
                        assert forall|i: int|
                            0 <= i < start.len() implies #[trigger] self.resources@[i].attributes@.len()
                                == start[i].attributes@.len() by {
                            if i != id {
                                assert(self.resources@[i] == cur[i]);
                            }
                        }
                        assert forall|i: int, j2: int|
                            0 <= i < start.len() && 0 <= j2 < start[i].attributes@.len()
                                implies #[trigger] self.resources@[i].attributes@[j2].0 == start[i].attributes@[j2].0 by {
                            if i != id {
                                assert(self.resources@[i] == cur[i]);
                            } else if j2 != j {
                                assert(self.resources@[i].attributes@[j2] == cur[i].attributes@[j2]);
                            }
                        }
                        assert forall|i: int, j2: int|
                            0 <= i < start.len() && 0 <= j2 < start[i].attributes@.len()
                                implies set_by(start[i].attributes@, #[trigger] self.resources@[i].attributes@[j2], j2,
                                stmts, s as int + 1, results@, i) by {
                            if i != id {
                                assert(self.resources@[i] == cur[i]);
                                assert(set_by(start[i].attributes@, cur[i].attributes@[j2], j2, stmts, s as int, results@, i));
                            } else if j2 != j {
                                assert(self.resources@[i].attributes@[j2] == cur[i].attributes@[j2]);
                                assert(set_by(start[i].attributes@, cur[i].attributes@[j2], j2, stmts, s as int, results@, i));
                                lemma_first_named_names(start[id as int].attributes@, cur[id as int].attributes@, start[i].attributes@[j2].0@);
                            } else {
                                assert(self.resources@[i].attributes@[j2].1 == value);
                                assert(start[i].attributes@[j2].0@ == a.attr@);
                                assert(last_setter(prefix, results@, i, start[i].attributes@[j2].0@) == s);
                            }
                        }
                    }
                },
            }
            s = s + 1;
        }
    }
}

/// Whether `after`, the `j`th attribute of resource `id` once `stmts` have
/// run, is as they leave it: with its name, the value of the last statement
/// that set it where one did and it is the first attribute of its name, and
/// otherwise its value from `before`.
pub open spec fn set_by(before: Seq<(String, WasiValue)>, after: (String, WasiValue), j: int, stmts: Seq<Stmt>, n: int, results: Seq<(String, usize)>, id: int) -> bool {
    let s = last_setter(stmts.subrange(0, n), results, id, before[j].0@);
    &&& after.0 == before[j].0
    &&& (first_named(before, before[j].0@) == j && s >= 0) ==> match stmts[s] {
        Stmt::AttrSet(a) => match a.value {
            Expr::WasiValue(v) => same(v, after.1),
        },
    }
    &&& !(first_named(before, before[j].0@) == j && s >= 0) ==> after.1 == before[j].1
}

/// Entries with the same names have the same first entry of each name.
pub proof fn lemma_first_named_names<V>(a: Seq<(String, V)>, b: Seq<(String, V)>, t: Seq<char>)
    requires
        a.len() == b.len(),
        forall|k: int| 0 <= k < a.len() ==> #[trigger] a[k].0 == b[k].0,
    ensures
        first_named(a, t) == first_named(b, t),
    decreases a.len(),
{
    if a.len() > 0 {
        lemma_first_named_names(a.drop_last(), b.drop_last(), t);
    }
}

/// Replacing an entry by one of the same name keeps every name's first
/// entry where it was.
pub proof fn lemma_first_named_update<V>(entries: Seq<(String, V)>, k: int, e: (String, V))
    requires
        0 <= k < entries.len(),
        e.0@ == entries[k].0@,
    ensures
        forall|t: Seq<char>| #[trigger] first_named(entries.update(k, e), t) == first_named(entries, t),
    decreases entries.len(),
{
    assert forall|t: Seq<char>| #[trigger] first_named(entries.update(k, e), t) == first_named(entries, t) by {
        lemma_first_named_update_one(entries, k, e, t);
    }
}

pub proof fn lemma_first_named_update_one<V>(entries: Seq<(String, V)>, k: int, e: (String, V), t: Seq<char>)
    requires
        0 <= k < entries.len(),
        e.0@ == entries[k].0@,
    ensures
        first_named(entries.update(k, e), t) == first_named(entries, t),
    decreases entries.len(),
{
    let u = entries.update(k, e);
    if k < entries.len() - 1 {
        assert(u.drop_last() == entries.drop_last().update(k, e));
        lemma_first_named_update_one(entries.drop_last(), k, e, t);
    } else {
        assert(u.drop_last() == entries.drop_last());
    }
}

/// Adding an entry at the end keeps every name's first entry, and gives a
/// name that had none its first.
pub proof fn lemma_first_named_push<V>(entries: Seq<(String, V)>, e: (String, V))
    requires
        first_named(entries, e.0@) == -1,
    ensures
        first_named(entries.push(e), e.0@) == entries.len(),
        forall|t: Seq<char>| t != e.0@ ==> #[trigger] first_named(entries.push(e), t) == first_named(entries, t),
{
    assert(entries.push(e).drop_last() == entries);
}

} // verus!
