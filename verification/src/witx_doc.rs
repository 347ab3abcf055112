//! Reading the annotated specification document: its named types, each read
//! once, and its modules, each a set of functions by name, where a later
//! function of a name takes the place of an earlier one.
use vstd::prelude::*;

use crate::specz::env::{find_named, first_named, lemma_first_named_update};
use crate::wasi::types::{Function, Interface, Spec, WazziType};
use crate::witx::{
    annotations_shaped, attributes_read, function_items, function_read, function_shaped, id_name, id_of, is_id,
    items_error, map_ok, preview1_type, read_function, type_error, type_shaped, type_wasi_read, types_of, Rule,
    SpecError, SpecTypes, WitxNode,
};

verus! {

/// The error that reading the nodes of a module meets first, if any: that of
/// the first function that does not read.
pub open spec fn module_error(spec: SpecTypes, items: Seq<WitxNode>) -> Option<SpecError>
    decreases items.len(),
{
    if items.len() == 0 {
        None
    } else {
        match module_error(spec, items.drop_last()) {
            Some(e) => Some(e),
            None => if items.last().rule == Rule::Function {
                items_error(spec, function_items(items.last()))
            } else {
                None
            },
        }
    }
}

/// Whether the nodes of a module have the shape that reading them takes, up
/// to the first error: comments, and functions of the shape that reading a
/// function takes.
#[verifier::opaque]
pub open spec fn module_shaped(spec: SpecTypes, items: Seq<WitxNode>) -> bool {
    forall|i: int|
        0 <= i < items.len() && module_error(spec, items.subrange(0, i)) is None ==> ((#[trigger] items[i]).rule
            == Rule::Comment || (items[i].rule == Rule::Function && function_shaped(spec, items[i])))
}

/// The name of a function node, as written.
pub open spec fn function_name(f: WitxNode) -> Seq<char> {
    f.children@[0].text@
}

/// The position of the last function node named `name`, or -1.
pub open spec fn last_named(items: Seq<WitxNode>, name: Seq<char>) -> int
    decreases items.len(),
{
    if items.len() == 0 {
        -1
    } else if items.last().rule == Rule::Function && function_name(items.last()) == name {
        items.len() - 1
    } else {
        last_named(items.drop_last(), name)
    }
}

/// Whether `fs` are the functions that the nodes of a module give: no name
/// twice; each function node's name among them; and under each name the
/// function that the last node of that name reads as.
#[verifier::opaque]
pub open spec fn module_read(spec: SpecTypes, items: Seq<WitxNode>, fs: Seq<(String, Function)>) -> bool {
    &&& forall|k: int| 0 <= k < fs.len() ==> first_named(fs, (#[trigger] fs[k]).0@) == k
    &&& forall|i: int|
        0 <= i < items.len() && (#[trigger] items[i]).rule == Rule::Function ==> first_named(fs, function_name(items[i]))
            >= 0
    &&& forall|k: int|
        0 <= k < fs.len() ==> {
            let i = last_named(items, (#[trigger] fs[k]).0@);
            &&& 0 <= i < items.len()
            &&& function_name(items[i]) == fs[k].0@
            &&& function_read(spec, items[i], fs[k].1)
        }
}

/// Once reading a module has met an error, more nodes keep it.
proof fn lemma_module_error_prefix(spec: SpecTypes, items: Seq<WitxNode>, k: int)
    requires
        0 <= k <= items.len(),
        module_error(spec, items.subrange(0, k)) is Some,
    ensures
        module_error(spec, items) == module_error(spec, items.subrange(0, k)),
    decreases items.len() - k,
{
    if k < items.len() {
        assert(items.subrange(0, k + 1).drop_last() == items.subrange(0, k));
        lemma_module_error_prefix(spec, items, k + 1);
    } else {
        assert(items.subrange(0, k) == items);
    }
}

/// A node that is no function leaves what a module reads as unchanged.
proof fn lemma_module_skip(spec: SpecTypes, p1: Seq<WitxNode>, fs: Seq<(String, Function)>)
    requires
        p1.len() > 0,
        p1.last().rule != Rule::Function,
        module_read(spec, p1.drop_last(), fs),
    ensures
        module_read(spec, p1, fs),
{
    reveal(module_read);
    let p = p1.drop_last();
    assert forall|i: int|
        0 <= i < p1.len() && (#[trigger] p1[i]).rule == Rule::Function implies first_named(fs, function_name(p1[i]))
        >= 0 by {
        assert(p[i] == p1[i]);
    }
    assert forall|k: int| 0 <= k < fs.len() implies {
        let i = last_named(p1, (#[trigger] fs[k]).0@);
        &&& 0 <= i < p1.len()
        &&& function_name(p1[i]) == fs[k].0@
        &&& function_read(spec, p1[i], fs[k].1)
    } by {
        let i = last_named(p, fs[k].0@);
        assert(last_named(p1, fs[k].0@) == i);
        assert(p1[i] == p[i]);
    }
}

/// A function of a new name is added under that name.
proof fn lemma_module_push(
    spec: SpecTypes,
    p1: Seq<WitxNode>,
    fs: Seq<(String, Function)>,
    name: String,
    func: Function,
)
    requires
        p1.len() > 0,
        p1.last().rule == Rule::Function,
        function_name(p1.last()) == name@,
        function_read(spec, p1.last(), func),
        first_named(fs, name@) == -1,
        module_read(spec, p1.drop_last(), fs),
    ensures
        module_read(spec, p1, fs.push((name, func))),
{
    reveal(module_read);
    let p = p1.drop_last();
    let fs2 = fs.push((name, func));
    assert(fs2.drop_last() == fs);
    assert forall|k: int| 0 <= k < fs2.len() implies first_named(fs2, (#[trigger] fs2[k]).0@) == k by {
        if k < fs.len() {
            assert(fs2[k] == fs[k]);
            assert(first_named(fs, fs[k].0@) == k);
        }
    }
    assert forall|i: int|
        0 <= i < p1.len() && (#[trigger] p1[i]).rule == Rule::Function implies first_named(fs2, function_name(p1[i]))
        >= 0 by {
        if i < p.len() {
            assert(p[i] == p1[i]);
            assert(first_named(fs, function_name(p[i])) >= 0);
        }
    }
    assert forall|k: int| 0 <= k < fs2.len() implies {
        let i = last_named(p1, (#[trigger] fs2[k]).0@);
        &&& 0 <= i < p1.len()
        &&& function_name(p1[i]) == fs2[k].0@
        &&& function_read(spec, p1[i], fs2[k].1)
    } by {
        if k < fs.len() {
            assert(fs2[k] == fs[k]);
            assert(first_named(fs, fs[k].0@) == k);
            assert(fs[k].0@ != name@);
            let i = last_named(p, fs[k].0@);
            assert(last_named(p1, fs[k].0@) == i);
            assert(p1[i] == p[i]);
        }
    }
}

/// A function of a name already there takes the place of the one before.
proof fn lemma_module_replace(
    spec: SpecTypes,
    p1: Seq<WitxNode>,
    fs: Seq<(String, Function)>,
    k0: int,
    name: String,
    func: Function,
)
    requires
        p1.len() > 0,
        p1.last().rule == Rule::Function,
        function_name(p1.last()) == name@,
        function_read(spec, p1.last(), func),
        0 <= k0 < fs.len(),
        fs[k0].0@ == name@,
        module_read(spec, p1.drop_last(), fs),
    ensures
        module_read(spec, p1, fs.update(k0, (name, func))),
{
    reveal(module_read);
    let p = p1.drop_last();
    let fs2 = fs.update(k0, (name, func));
    lemma_first_named_update(fs, k0, (name, func));
    assert forall|k: int| 0 <= k < fs2.len() implies first_named(fs2, (#[trigger] fs2[k]).0@) == k by {
        assert(first_named(fs, fs[k].0@) == k);
        assert(first_named(fs2, fs2[k].0@) == first_named(fs, fs2[k].0@));
    }
    assert forall|i: int|
        0 <= i < p1.len() && (#[trigger] p1[i]).rule == Rule::Function implies first_named(fs2, function_name(p1[i]))
        >= 0 by {
        assert(first_named(fs2, function_name(p1[i])) == first_named(fs, function_name(p1[i])));
        if i < p.len() {
            assert(p[i] == p1[i]);
            assert(first_named(fs, function_name(p[i])) >= 0);
        } else {
            assert(first_named(fs, fs[k0].0@) == k0);
        }
    }
    assert forall|k: int| 0 <= k < fs2.len() implies {
        let i = last_named(p1, (#[trigger] fs2[k]).0@);
        &&& 0 <= i < p1.len()
        &&& function_name(p1[i]) == fs2[k].0@
        &&& function_read(spec, p1[i], fs2[k].1)
    } by {
        if k != k0 {
            assert(fs2[k] == fs[k]);
            assert(first_named(fs, fs[k].0@) == k);
            assert(first_named(fs, fs[k0].0@) == k0);
            assert(fs[k].0@ != name@);
            let i = last_named(p, fs[k].0@);
            assert(last_named(p1, fs[k].0@) == i);
            assert(p1[i] == p[i]);
        }
    }
}

/// No node reads as no function.
proof fn lemma_module_empty(spec: SpecTypes, items: Seq<WitxNode>)
    requires
        items.len() == 0,
    ensures
        module_read(spec, items, Seq::<(String, Function)>::empty()),
{
    reveal(module_read);
}

/// The shape of a module's node before the first error.
proof fn lemma_module_shaped_at(spec: SpecTypes, items: Seq<WitxNode>, i: int)
    requires
        module_shaped(spec, items),
        0 <= i < items.len(),
        module_error(spec, items.subrange(0, i)) is None,
    ensures
        items[i].rule == Rule::Comment || (items[i].rule == Rule::Function && function_shaped(spec, items[i])),
{
    reveal(module_shaped);
}

/// Reads one node of a module into the functions read so far.
#[verifier::spinoff_prover]
fn read_item(spec: &Spec, it: &WitxNode, interface: &mut Interface, Ghost(p1): Ghost<Seq<WitxNode>>) -> (r: Result<
    (),
    SpecError,
>)
    requires
        map_ok(types_of(*spec)),
        p1.len() > 0,
        p1.last() == *it,
        it.rule == Rule::Comment || (it.rule == Rule::Function && function_shaped(types_of(*spec), *it)),
        module_error(types_of(*spec), p1.drop_last()) is None,
        module_read(types_of(*spec), p1.drop_last(), old(interface).functions@),
    ensures
        match module_error(types_of(*spec), p1) {
            Some(e) => r == Err::<(), SpecError>(e),
            None => r is Ok && module_read(types_of(*spec), p1, final(interface).functions@),
        },
{
    let ghost sv = types_of(*spec);
    if it.rule == Rule::Function {
        let func = match read_function(spec, it) {
            Ok(f) => f,
            Err(e) => {
                return Err(e);
            },
        };
        let name = it.children[0].text.clone();
        let ghost fs = interface.functions@;
        match find_named(&interface.functions, &name) {
            Some(k) => {
                interface.functions.set(k, (name, func));
                proof {
                    lemma_module_replace(sv, p1, fs, k as int, name, func);
                }
            },
            None => {
                interface.functions.push((name, func));
                proof {
                    lemma_module_push(sv, p1, fs, name, func);
                }
            },
        }
    } else {
        proof {
            lemma_module_skip(sv, p1, interface.functions@);
        }
    }
    Ok(())
}

/// Reads the nodes of a module: comments are passed over, and each function
/// is read and put under its name, in place of an earlier one of the name.
/// It fails with the error of the first function that does not read.
pub fn read_module(spec: &Spec, items: &[WitxNode]) -> (r: Result<Interface, SpecError>)
    requires
        map_ok(types_of(*spec)),
        module_shaped(types_of(*spec), items@),
    ensures
        match module_error(types_of(*spec), items@) {
            Some(e) => r == Err::<Interface, SpecError>(e),
            None => r matches Ok(m) && module_read(types_of(*spec), items@, m.functions@),
        },
{
    let ghost sv = types_of(*spec);
    let mut interface = Interface::new();
    let mut i: usize = 0;
    proof {
        lemma_module_empty(sv, items@.subrange(0, 0));
        assert(interface.functions@ == Seq::<(String, Function)>::empty());
    }
    while i < items.len()
        invariant
            i <= items@.len(),
            sv == types_of(*spec),
            map_ok(sv),
            module_shaped(sv, items@),
            module_error(sv, items@.subrange(0, i as int)) is None,
            module_read(sv, items@.subrange(0, i as int), interface.functions@),
        decreases items@.len() - i,
    {
        let ghost p1 = items@.subrange(0, i + 1);
        assert(p1.drop_last() == items@.subrange(0, i as int));
        assert(p1.last() == items@[i as int]);
        proof {
            lemma_module_shaped_at(sv, items@, i as int);
        }
        let res = read_item(spec, &items[i], &mut interface, Ghost(p1));
        if let Err(e) = res {
            proof {
                lemma_module_error_prefix(sv, items@, i + 1);
            }
            return Err(e);
        }
        i += 1;
    }
    assert(items@.subrange(0, items@.len() as int) == items@);
    Ok(interface)
}

/// What a document builds: the types, the names of the types with their
/// positions, the interfaces, and the names of the interfaces with theirs.
pub type DocState = (Seq<WazziType>, Seq<(String, usize)>, Seq<Interface>, Seq<(String, usize)>);

/// What a spec holds of what a document builds.
pub open spec fn state_of(spec: Spec) -> DocState {
    (spec.types@, spec.types_map@, spec.interfaces@, spec.interfaces_map@)
}

/// The types of a state and their names.
pub open spec fn state_types(st: DocState) -> SpecTypes {
    (st.0, st.1)
}

/// The nodes of a document item after its first.
pub open spec fn rest_of(it: WitxNode) -> Seq<WitxNode> {
    it.children@.subrange(1, it.children@.len() as int)
}

/// The annotations of a type name: its nodes after the type reference.
pub open spec fn annotations_of(it: WitxNode) -> Seq<WitxNode> {
    it.children@.subrange(2, it.children@.len() as int)
}

/// The type written out in a type name's reference.
pub open spec fn named_type(it: WitxNode) -> WitxNode {
    it.children@[1].children@[0]
}

/// The error that reading a document item meets in a state, if any: a name
/// that is no identifier, a type name without a type reference, a type name
/// given before, or the error of reading the type or the module.
pub open spec fn doc_error(st: DocState, it: WitxNode) -> Option<SpecError> {
    let cs = it.children@;
    if it.rule == Rule::Typename {
        if cs[0].rule != Rule::Id {
            Some(SpecError::ExpectedId)
        } else if cs[1].rule != Rule::TypeRef {
            Some(SpecError::ExpectedTypeRef)
        } else if first_named(st.1, id_name(cs[0])) >= 0 {
            Some(SpecError::AlreadyDefined)
        } else {
            type_error(state_types(st), named_type(it))
        }
    } else if it.rule == Rule::Module {
        if cs[0].rule != Rule::Id {
            Some(SpecError::ExpectedId)
        } else {
            module_error(state_types(st), rest_of(it))
        }
    } else {
        None
    }
}

/// Whether a document item has, in a state, the shape that reading it
/// takes: a comment or the end; a type name with an identifier and a
/// reference to a type written out, of the shape that reading a type takes;
/// a module with an identifier and nodes of the shape that reading a module
/// takes.
pub open spec fn doc_item_shaped(st: DocState, it: WitxNode) -> bool {
    let cs = it.children@;
    if it.rule == Rule::Comment || it.rule == Rule::Eoi {
        true
    } else if it.rule == Rule::Typename {
        &&& cs.len() >= 2
        &&& cs[0].rule == Rule::Id ==> is_id(cs[0])
        &&& cs[0].rule == Rule::Id && cs[1].rule == Rule::TypeRef ==> {
            &&& cs[1].children@.len() >= 1
            &&& named_type(it).rule == Rule::Type
            &&& first_named(st.1, id_name(cs[0])) < 0 ==> type_shaped(state_types(st), named_type(it)) && (type_error(
                state_types(st),
                named_type(it),
            ) is None ==> annotations_shaped(state_types(st), annotations_of(it)))
        }
    } else if it.rule == Rule::Module {
        &&& cs.len() >= 1
        &&& cs[0].rule == Rule::Id ==> is_id(cs[0]) && module_shaped(state_types(st), rest_of(it))
    } else {
        false
    }
}

/// Whether reading a document item that meets no error takes state `st` to
/// `st2`. A type name adds its type, read with its name and the attributes
/// of its annotations, and the name at the type's position. A module adds its
/// interface, read from its nodes, and puts its name at the interface's
/// position, in place of an earlier entry of the name. Anything else changes
/// nothing.
pub open spec fn doc_step(st: DocState, it: WitxNode, st2: DocState) -> bool {
    let cs = it.children@;
    if it.rule == Rule::Typename {
        let t = st2.0.last();
        let e = st2.1.last();
        &&& st2.0.len() == st.0.len() + 1
        &&& st2.0.drop_last() == st.0
        &&& t.name matches Some(n) && n@ == id_name(cs[0])
        &&& type_wasi_read(state_types(st), named_type(it), t.wasi)
        &&& attributes_read(state_types(st), annotations_of(it), t.attributes@)
        &&& st2.1.len() == st.1.len() + 1
        &&& st2.1.drop_last() == st.1
        &&& e.0@ == id_name(cs[0])
        &&& e.1 == st.0.len()
        &&& st2.2 == st.2
        &&& st2.3 == st.3
    } else if it.rule == Rule::Module {
        let k = first_named(st.3, id_name(cs[0]));
        &&& st2.0 == st.0
        &&& st2.1 == st.1
        &&& st2.2.len() == st.2.len() + 1
        &&& st2.2.drop_last() == st.2
        &&& module_read(state_types(st), rest_of(it), st2.2.last().functions@)
        &&& if k >= 0 {
            &&& st2.3.len() == st.3.len()
            &&& forall|j: int| 0 <= j < st.3.len() && j != k ==> #[trigger] st2.3[j] == st.3[j]
            &&& st2.3[k].0@ == id_name(cs[0])
            &&& st2.3[k].1 == st.2.len()
        } else {
            &&& st2.3.len() == st.3.len() + 1
            &&& st2.3.drop_last() == st.3
            &&& st2.3.last().0@ == id_name(cs[0])
            &&& st2.3.last().1 == st.2.len()
        }
    } else {
        st2 == st
    }
}

/// Whether `sts` are the states that reading the first items of a document
/// passes through, each item after the one before, none meeting an error.
pub open spec fn doc_trace(items: Seq<WitxNode>, sts: Seq<DocState>) -> bool {
    &&& 1 <= sts.len() <= items.len() + 1
    &&& forall|j: int|
        0 <= j < sts.len() - 1 ==> doc_error(sts[j], #[trigger] items[j]) is None && doc_step(sts[j], items[j], sts[j + 1])
}

/// Reads one item of a document into the spec.
#[verifier::spinoff_prover]
fn load_item(spec: &mut Spec, it: &WitxNode) -> (r: Result<(), SpecError>)
    requires
        map_ok(types_of(*old(spec))),
        doc_item_shaped(state_of(*old(spec)), *it),
    ensures
        map_ok(types_of(*final(spec))),
        match doc_error(state_of(*old(spec)), *it) {
            Some(e) => r == Err::<(), SpecError>(e) && state_of(*final(spec)) == state_of(*old(spec)),
            None => r is Ok && doc_step(state_of(*old(spec)), *it, state_of(*final(spec))),
        },
{
    let ghost st = state_of(*spec);
    if it.rule == Rule::Typename {
        let id = &it.children[0];
        if id.rule != Rule::Id {
            return Err(SpecError::ExpectedId);
        }
        let name = id_of(id);
        let tref = &it.children[1];
        if tref.rule != Rule::TypeRef {
            return Err(SpecError::ExpectedTypeRef);
        }
        let inner = &tref.children[0];
        if find_named(&spec.types_map, &name).is_some() {
            return Err(SpecError::AlreadyDefined);
        }
        let (_, annotations) = it.children.as_slice().split_at(2);
        assert(annotations@ == annotations_of(*it));
        let ty = match preview1_type(spec, inner, Some(name.clone()), annotations) {
            Ok(t) => t,
            Err(e) => {
                return Err(e);
            },
        };
        let pos = spec.types.len();
        spec.types.push(ty);
        spec.types_map.push((name, pos));
        proof {
            assert(spec.types@.drop_last() == st.0);
            assert(spec.types_map@.drop_last() == st.1);
            assert forall|k: int| 0 <= k < spec.types_map@.len() implies (#[trigger] spec.types_map@[k]).1
                < spec.types@.len() by {
                if k < st.1.len() {
                    assert(spec.types_map@[k] == st.1[k]);
                }
            }
        }
        Ok(())
    } else if it.rule == Rule::Module {
        let id = &it.children[0];
        if id.rule != Rule::Id {
            return Err(SpecError::ExpectedId);
        }
        let name = id_of(id);
        let (_, items) = it.children.as_slice().split_at(1);
        assert(items@ == rest_of(*it));
        let m = match read_module(spec, items) {
            Ok(m) => m,
            Err(e) => {
                return Err(e);
            },
        };
        let pos = spec.interfaces.len();
        spec.interfaces.push(m);
        match find_named(&spec.interfaces_map, &name) {
            Some(k) => {
                spec.interfaces_map.set(k, (name, pos));
            },
            None => {
                spec.interfaces_map.push((name, pos));
            },
        }
        proof {
            assert(spec.interfaces@.drop_last() == st.2);
            assert(spec.interfaces_map@.len() > st.3.len() ==> spec.interfaces_map@.drop_last() == st.3);
        }
        Ok(())
    } else {
        Ok(())
    }
}

/// Reads an annotated specification document into `spec`, item by item:
/// comments and the end are passed over, each type name adds its type, and
/// each module its interface. It stops at the first item that meets an
/// error and returns that error, with what the items before it added kept.
pub fn preview1(spec: &mut Spec, doc: &WitxNode) -> (r: Result<(), SpecError>)
    requires
        map_ok(types_of(*old(spec))),
        forall|sts: Seq<DocState>|
            #[trigger] doc_trace(doc.children@, sts) && sts.len() <= doc.children@.len() && sts[0] == state_of(
                *old(spec),
            ) ==> doc_item_shaped(sts.last(), doc.children@[sts.len() - 1]),
    ensures
        exists|sts: Seq<DocState>|
            #[trigger] doc_trace(doc.children@, sts) && sts[0] == state_of(*old(spec)) && sts.last() == state_of(
                *final(spec),
            ) && match r {
                Ok(()) => sts.len() == doc.children@.len() + 1,
                Err(e) => sts.len() <= doc.children@.len() && doc_error(sts.last(), doc.children@[sts.len() - 1])
                    == Some(e),
            },
{
    let ghost items = doc.children@;
    let ghost mut sts: Seq<DocState> = seq![state_of(*spec)];
    let mut i: usize = 0;
    while i < doc.children.len()
        invariant
            items == doc.children@,
            i <= items.len(),
            map_ok(types_of(*spec)),
            doc_trace(items, sts),
            sts.len() == i + 1,
            sts[0] == state_of(*old(spec)),
            sts.last() == state_of(*spec),
            forall|sts2: Seq<DocState>|
                #[trigger] doc_trace(items, sts2) && sts2.len() <= items.len() && sts2[0] == state_of(*old(spec))
                    ==> doc_item_shaped(sts2.last(), items[sts2.len() - 1]),
        decreases items.len() - i,
    {
        let res = load_item(spec, &doc.children[i]);
        match res {
            Ok(()) => {
                proof {
                    let sts2 = sts.push(state_of(*spec));
                    assert forall|j: int| 0 <= j < sts2.len() - 1 implies doc_error(sts2[j], #[trigger] items[j]) is None
                        && doc_step(sts2[j], items[j], sts2[j + 1]) by {
                        if j < i {
                            assert(sts2[j] == sts[j] && sts2[j + 1] == sts[j + 1]);
                        }
                    }
                    sts = sts2;
                }
            },
            Err(e) => {
                assert(doc_trace(items, sts));
                return Err(e);
            },
        }
        i += 1;
    }
    assert(doc_trace(items, sts));
    Ok(())
}

} // verus!
