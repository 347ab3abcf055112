//! Choosing the next function of a solver fuzzer's run, and drawing its
//! arguments, from the fuzzing input.
use vstd::prelude::*;


use super::context::Context;
use super::env::{find_named, first_named, Environment, Value};
use crate::entropy::{choose_item, index_drawn, DataError, Entropy};
use crate::preview1::{drawable, drawn, meets_empty, run, value_drawn};
use crate::wasi::types::{Function, FunctionParam, Interface, Spec, WazziType};
use crate::wasi::value::same;

verus! {

broadcast use vstd::std_specs::btree::group_btree_axioms;

/// The type that the spec gives a name, if it gives it one.
pub open spec fn named_type(spec: Spec, name: Seq<char>) -> Option<WazziType> {
    let k = first_named(spec.types_map@, name);
    if k >= 0 && spec.types_map@[k].1 < spec.types@.len() {
        Some(spec.types@[spec.types_map@[k].1 as int])
    } else {
        None
    }
}

/// The name of the type of the resources that a parameter takes: its
/// type's name, where the spec's type of that name has attributes.
pub open spec fn resource_type(spec: Spec, p: FunctionParam) -> Option<Seq<char>> {
    match p.ty.name {
        Some(n) => match named_type(spec, n@) {
            Some(t) => if t.attributes@.len() > 0 {
                Some(n@)
            } else {
                None
            },
            None => None,
        },
        None => None,
    }
}

/// Whether a parameter can be given an argument: it takes no resource, or
/// one of its type is there.
pub open spec fn param_served(spec: Spec, env: Environment, p: FunctionParam) -> bool {
    match resource_type(spec, p) {
        Some(t) => env.of_type(t).len() > 0,
        None => true,
    }
}

/// Whether every parameter of a function can be given an argument.
pub open spec fn callable(spec: Spec, env: Environment, f: Function) -> bool {
    forall|j: int| 0 <= j < f.params@.len() ==> param_served(spec, env, #[trigger] f.params@[j])
}

/// The functions of `fs` that can be called, in their order.
pub open spec fn callable_functions(spec: Spec, env: Environment, fs: Seq<(String, Function)>) -> Seq<Function>
    decreases fs.len(),
{
    if fs.len() == 0 {
        Seq::empty()
    } else {
        let rest = callable_functions(spec, env, fs.drop_last());
        if callable(spec, env, fs.last().1) {
            rest.push(fs.last().1)
        } else {
            rest
        }
    }
}

/// The name of the type of the resources that a parameter takes, if it
/// takes one.
fn resource_type_of<'p>(spec: &Spec, p: &'p FunctionParam) -> (r: Option<&'p String>)
    ensures
        match resource_type(*spec, *p) {
            Some(t) => r matches Some(n) && n@ == t,
            None => r is None,
        },
{
    match &p.ty.name {
        None => None,
        Some(n) => match find_named(&spec.types_map, n) {
            None => None,
            Some(k) => {
                let i = spec.types_map[k].1;
                if i < spec.types.len() && spec.types[i].attributes.len() > 0 {
                    Some(n)
                } else {
                    None
                }
            },
        },
    }
}

/// Picks functions whose every resource parameter finds a resource.
#[derive(Clone, Copy, Debug)]
pub struct ResourcePicker;

impl ResourcePicker {
    /// Chooses, from the input, a function of `interface` that can be
    /// called: one of which every parameter that takes a resource finds a
    /// resource of its type. It fails with `EmptyChoose` exactly where none
    /// can be called. Which function comes back is the one at the index
    /// drawn among those that can be called, in their order.
    pub fn pick_function<'i>(
        &self,
        u: &mut Entropy,
        interface: &'i Interface,
        env: &Environment,
        ctx: &Context,
        spec: &Spec,
    ) -> (r: Result<&'i Function, DataError>)
        ensures
            r matches Ok(f) ==> exists|m: int|
                0 <= m < interface.functions@.len() && #[trigger] interface.functions@[m].1 == *f && callable(
                    *spec,
                    *env,
                    *f,
                ),
            r is Err <==> !exists|m: int|
                0 <= m < interface.functions@.len() && callable(*spec, *env, #[trigger] interface.functions@[m].1),
            r matches Err(e) ==> e == DataError::EmptyChoose,
            ({
                let pool = callable_functions(*spec, *env, interface.functions@);
                let drawn = index_drawn(old(u).data(), pool.len() as usize);
                &&& r is Err <==> pool.len() == 0
                &&& r matches Ok(f) ==> *f == pool[drawn.0 as int]
                &&& final(u).data() == if pool.len() == 0 {
                    old(u).data()
                } else {
                    drawn.1
                }
            }),
    {
        let mut candidates: Vec<&'i Function> = Vec::new();
        let mut m: usize = 0;
        while m < interface.functions.len()
            invariant
                m <= interface.functions@.len(),
                forall|p: int|
                    #![trigger candidates@[p]]
                    0 <= p < candidates@.len() ==> exists|m2: int|
                        0 <= m2 < interface.functions@.len() && #[trigger] interface.functions@[m2].1
                            == *candidates@[p] && callable(*spec, *env, *candidates@[p]),
                candidates@.len() > 0 <==> exists|m2: int|
                    0 <= m2 < m && callable(*spec, *env, #[trigger] interface.functions@[m2].1),
                candidates@.len() == callable_functions(*spec, *env, interface.functions@.take(m as int)).len(),
                forall|p: int| 0 <= p < candidates@.len() ==> *candidates@[p]
                    == #[trigger] callable_functions(*spec, *env, interface.functions@.take(m as int))[p],
            decreases interface.functions@.len() - m,
        {
            proof {
                let fs = interface.functions@;
                assert(fs.take(m + 1).drop_last() == fs.take(m as int));
                assert(fs.take(m + 1).last() == fs[m as int]);
            }
            let function = &interface.functions[m].1;
            assert(interface.functions@[m as int].1 == *function);
            let mut is_candidate = true;
            let mut j: usize = 0;
            while j < function.params.len() && is_candidate
                invariant
                    j <= function.params@.len(),
                    is_candidate ==> forall|j2: int|
                        0 <= j2 < j ==> param_served(*spec, *env, #[trigger] function.params@[j2]),
                    !is_candidate ==> !callable(*spec, *env, *function),
                decreases function.params@.len() - j,
            {
                let param = &function.params[j];
                assert(function.params@[j as int] == *param);
                match resource_type_of(spec, param) {
                    None => {},
                    Some(name) => match env.resources_of_type(name) {
                        None => {
                            is_candidate = false;
                        },
                        Some(resources) => {
                            if resources.len() == 0 {
                                is_candidate = false;
                            }
                        },
                    },
                }
                j = j + 1;
            }
            if is_candidate {
                candidates.push(function);
            }
            m = m + 1;
        }
        proof {
            assert(interface.functions@.take(m as int) == interface.functions@);
        }
        match choose_item(u, candidates.as_slice()) {
            Ok(f) => Ok(*f),
            Err(e) => Err(e),
        }
    }
}

/// The prefix that paths are put under after the arguments `vs` of the
/// parameters `ps`: the bytes that the runtime keeps for the last resource
/// among them that has any, none where no resource has.
pub open spec fn prefix_after(spec: Spec, ctx: Context, ps: Seq<FunctionParam>, vs: Seq<Value>) -> Seq<u8>
    decreases vs.len(),
{
    if vs.len() == 0 {
        Seq::empty()
    } else {
        let j = vs.len() - 1;
        match (resource_type(spec, ps[j]), vs[j].resource) {
            (Some(_), Some(id)) => match ctx.resources@[id].1 {
                Some(b) => b@,
                None => prefix_after(spec, ctx, ps, vs.drop_last()),
            },
            _ => prefix_after(spec, ctx, ps, vs.drop_last()),
        }
    }
}

/// Drawing the arguments of the parameters `ps` one after the other from
/// the bytes `data`: whether it fails, and what is left of the bytes where
/// it ends. A parameter that takes a resource takes an index among the
/// resources of its type, and fails where there are none; any other takes a
/// value of its type.
pub open spec fn params_run(spec: Spec, env: Environment, ps: Seq<FunctionParam>, data: Seq<u8>) -> (bool, Seq<u8>)
    decreases ps.len(),
{
    if ps.len() == 0 {
        (false, data)
    } else {
        let (failed, d) = params_run(spec, env, ps.drop_last(), data);
        if failed {
            (true, d)
        } else {
            match resource_type(spec, ps.last()) {
                Some(t) => if env.of_type(t).len() == 0 {
                    (true, d)
                } else {
                    (false, index_drawn(d, env.of_type(t).len() as usize).1)
                },
                None => run(ps.last().ty, d),
            }
        }
    }
}

/// Once drawing arguments has failed, more parameters change nothing.
proof fn lemma_params_run_failed(spec: Spec, env: Environment, ps: Seq<FunctionParam>, data: Seq<u8>, k: int)
    requires
        0 <= k <= ps.len(),
        params_run(spec, env, ps.subrange(0, k), data).0,
    ensures
        params_run(spec, env, ps, data) == params_run(spec, env, ps.subrange(0, k), data),
    decreases ps.len() - k,
{
    if k < ps.len() {
        let init = ps.drop_last();
        assert(init.subrange(0, k) == ps.subrange(0, k));
        lemma_params_run_failed(spec, env, init, data, k);
    } else {
        assert(ps.subrange(0, k) == ps);
    }
}

/// Draws every argument from the input, a resource where the parameter
/// takes one.
#[derive(Clone, Copy, Debug)]
pub struct StatelessParamsGenerator;

impl StatelessParamsGenerator {
    /// Draws the arguments of a call of `function`, one parameter after the
    /// other: a parameter that takes a resource gets one of its type, chosen
    /// from the input, with the runtime's value for it, and the bytes the
    /// runtime keeps for it, if any, become the prefix of the paths drawn
    /// after it; any other parameter gets a value drawn for its type. It
    /// fails where a value cannot be drawn, and where no resource is of a
    /// type that a parameter asks for.
    pub fn generate_params(
        &self,
        u: &mut Entropy,
        env: &Environment,
        ctx: &Context,
        spec: &Spec,
        function: &Function,
    ) -> (r: Result<Vec<Value>, DataError>)
        requires
            forall|j: int|
                0 <= j < function.params@.len() ==> {
                    let p = #[trigger] function.params@[j];
                    &&& p.ty.name matches Some(n) ==> named_type(*spec, n@) is Some
                    &&& resource_type(*spec, p) is None ==> drawable(p.ty)
                    &&& resource_type(*spec, p) matches Some(t) ==> forall|m: int|
                        0 <= m < env.of_type(t).len() ==> ctx.resources@.contains_key(
                            #[trigger] env.of_type(t)[m],
                        )
                },
        ensures
            r matches Ok(vs) ==> vs@.len() == function.params@.len() && forall|j: int|
                0 <= j < vs@.len() ==> match resource_type(*spec, function.params@[j]) {
                    Some(t) => (#[trigger] vs@[j]).resource matches Some(id) && env.of_type(t).contains(id)
                        && same(ctx.resources@[id].0, vs@[j].wasi),
                    None => vs@[j].resource is None && drawn(
                        function.params@[j].ty,
                        vs@[j].wasi,
                        prefix_after(*spec, *ctx, function.params@, vs@.subrange(0, j)),
                    ),
                },
            r is Err ==> exists|j: int|
                0 <= j < function.params@.len() && match resource_type(*spec, #[trigger] function.params@[j]) {
                    Some(t) => env.of_type(t).len() == 0,
                    None => meets_empty(function.params@[j].ty),
                },
            final(u).data() == params_run(*spec, *env, function.params@, old(u).data()).1,
            r is Err <==> params_run(*spec, *env, function.params@, old(u).data()).0,
            r matches Ok(vs) ==> forall|j: int|
                0 <= j < vs@.len() ==> {
                    let d = params_run(*spec, *env, function.params@.subrange(0, j), old(u).data()).1;
                    match resource_type(*spec, function.params@[j]) {
                        Some(t) => (#[trigger] vs@[j]).resource == Some(
                            env.of_type(t)[index_drawn(d, env.of_type(t).len() as usize).0 as int],
                        ),
                        None => value_drawn(
                            function.params@[j].ty,
                            prefix_after(*spec, *ctx, function.params@, vs@.subrange(0, j)),
                            d,
                            vs@[j].wasi,
                        ),
                    }
                },
    {
        let ghost ps = function.params@;
        let ghost d0 = u.data();
        let mut params: Vec<Value> = Vec::new();
        let mut string_prefix: Option<Vec<u8>> = None;
        let mut j: usize = 0;
        while j < function.params.len()
            invariant
                ps == function.params@,
                forall|j2: int|
                    0 <= j2 < ps.len() ==> {
                        let p = #[trigger] ps[j2];
                        &&& p.ty.name matches Some(n) ==> named_type(*spec, n@) is Some
                        &&& resource_type(*spec, p) is None ==> drawable(p.ty)
                        &&& resource_type(*spec, p) matches Some(t) ==> forall|m: int|
                            0 <= m < env.of_type(t).len() ==> ctx.resources@.contains_key(
                                #[trigger] env.of_type(t)[m],
                            )
                    },
                j <= ps.len(),
                params@.len() == j,
                (match string_prefix {
                    Some(b) => b@,
                    None => Seq::<u8>::empty(),
                }) == prefix_after(*spec, *ctx, ps, params@),
                forall|j2: int|
                    0 <= j2 < j ==> match resource_type(*spec, ps[j2]) {
                        Some(t) => (#[trigger] params@[j2]).resource matches Some(id) && env.of_type(t).contains(id)
                            && same(ctx.resources@[id].0, params@[j2].wasi),
                        None => params@[j2].resource is None && drawn(
                            ps[j2].ty,
                            params@[j2].wasi,
                            prefix_after(*spec, *ctx, ps, params@.subrange(0, j2)),
                        ),
                    },
                d0 == old(u).data(),
                !params_run(*spec, *env, ps.subrange(0, j as int), d0).0,
                u.data() == params_run(*spec, *env, ps.subrange(0, j as int), d0).1,
                forall|j2: int|
                    0 <= j2 < j ==> {
                        let d = params_run(*spec, *env, ps.subrange(0, j2), d0).1;
                        match resource_type(*spec, ps[j2]) {
                            Some(t) => (#[trigger] params@[j2]).resource == Some(
                                env.of_type(t)[index_drawn(d, env.of_type(t).len() as usize).0 as int],
                            ),
                            None => value_drawn(ps[j2].ty, prefix_after(*spec, *ctx, ps, params@.subrange(0, j2)), d, params@[j2].wasi),
                        }
                    },
            decreases ps.len() - j,
        {
            let param = &function.params[j];
            assert(ps[j as int] == *param);
            let ghost before = params@;
            let ghost next = ps.subrange(0, j + 1);
            assert(next.drop_last() == ps.subrange(0, j as int));
            assert(next.last() == ps[j as int]);
            match resource_type_of(spec, param) {
                Some(name) => {
                    let resources = match env.resources_of_type(name) {
                        Some(l) => l,
                        None => {
                            proof {
                                lemma_params_run_failed(*spec, *env, ps, d0, j + 1);
                            }
                            return Err(DataError::EmptyChoose);
                        },
                    };
                    let id = match choose_item(u, resources.as_slice()) {
                        Ok(id) => *id,
                        Err(e) => {
                            proof {
                                lemma_params_run_failed(*spec, *env, ps, d0, j + 1);
                            }
                            return Err(e);
                        },
                    };
                    let (value, prefix) = match ctx.resources.get(&id) {
                        Some(entry) => (entry.0.duplicate(), &entry.1),
                        None => {
                            assert(false);
                            return Err(DataError::EmptyChoose);
                        },
                    };
                    match prefix {
                        Some(b) => {
                            let c = b.clone();
                            assert(c@ =~= b@);
                            string_prefix = Some(c);
                        },
                        None => {},
                    }
                    params.push(Value { wasi: value, resource: Some(id) });
                },
                None => {
                    let sp: Option<&[u8]> = match &string_prefix {
                        Some(b) => Some(b.as_slice()),
                        None => None,
                    };
                    match param.ty.arbitrary_value(u, sp) {
                        Ok(v) => params.push(Value { wasi: v, resource: None }),
                        Err(e) => {
                            proof {
                                lemma_params_run_failed(*spec, *env, ps, d0, j + 1);
                            }
                            return Err(e);
                        },
                    }
                },
            }
            proof {
                assert(params@.drop_last() == before);
                assert(params@.subrange(0, j as int) == before);
                assert forall|j2: int| 0 <= j2 < j implies #[trigger] params@.subrange(0, j2) == before.subrange(0, j2) by {}
                assert forall|j2: int| 0 <= j2 < j implies params@[j2] == #[trigger] before[j2] by {}
                assert forall|j2: int| 0 <= j2 < j + 1 implies {
                    let d = params_run(*spec, *env, ps.subrange(0, j2), d0).1;
                    match resource_type(*spec, ps[j2]) {
                        Some(t) => (#[trigger] params@[j2]).resource == Some(
                            env.of_type(t)[index_drawn(d, env.of_type(t).len() as usize).0 as int],
                        ),
                        None => value_drawn(ps[j2].ty, prefix_after(*spec, *ctx, ps, params@.subrange(0, j2)), d, params@[j2].wasi),
                    }
                } by {
                    if j2 < j {
                        assert(params@[j2] == before[j2]);
                        assert(params@.subrange(0, j2) == before.subrange(0, j2));
                    }
                }
            }
            j = j + 1;
        }
        assert(ps.subrange(0, ps.len() as int) == ps);
        Ok(params)
    }
}

} // verus!
