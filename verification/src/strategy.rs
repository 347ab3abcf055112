//! Choosing the next call and its arguments from the fuzzing input alone,
//! without regard to what earlier calls did.
use vstd::prelude::*;

use crate::entropy::{choose_item, index_drawn, DataError, Entropy};
use crate::env::{typedef_of, Environment, RuntimeContext};
use crate::resource::ResourceIdx;
use crate::wasi_spec::generate::{admits, drawable, drawn_run, may_fail, value_from};
use crate::wasi_spec::types::{Function, FunctionParam, Interface, Spec};
use crate::wasi_spec::value::{same, WasiValue};

verus! {

broadcast use vstd::std_specs::btree::group_btree_axioms;

/// What looking through a function's parameters, in order, comes to.
pub enum ParamScan {
    /// Every parameter can be given a value.
    Candidate,
    /// A parameter takes a resource of a kind the environment has none of.
    Blocked,
    /// A parameter names no type of the spec.
    Unresolved,
}

/// Whether a parameter keeps its function from being called: its type is
/// that of a resource, and no resource is of the type named as the
/// parameter is.
pub open spec fn param_blocks(spec: Spec, env: Environment, p: FunctionParam) -> bool {
    typedef_of(spec, p.tref).state is Some && !env.has_resource_of_type(p.name@)
}

/// Looking through the parameters in order, stopping at the first that
/// names no type or keeps the function from being called.
pub open spec fn scan(spec: Spec, env: Environment, ps: Seq<FunctionParam>) -> ParamScan
    decreases ps.len(),
{
    if ps.len() == 0 {
        ParamScan::Candidate
    } else {
        match scan(spec, env, ps.subrange(0, ps.len() - 1)) {
            ParamScan::Candidate => if ps[ps.len() - 1].tref.target(spec) is None {
                ParamScan::Unresolved
            } else if param_blocks(spec, env, ps[ps.len() - 1]) {
                ParamScan::Blocked
            } else {
                ParamScan::Candidate
            },
            other => other,
        }
    }
}

/// Whether the `m`th function of the `k`th interface is one of the spec.
pub open spec fn is_function_of(spec: Spec, k: int, m: int) -> bool {
    &&& 0 <= k < spec.interfaces.values().len()
    &&& 0 <= m < spec.interfaces.values()[k].functions@.len()
}

/// The `m`th function of the `k`th interface.
pub open spec fn function_of(spec: Spec, k: int, m: int) -> Function {
    spec.interfaces.values()[k].functions@[m].1
}

/// The functions of `fs` that can be called, in their order.
pub open spec fn callable_of(spec: Spec, env: Environment, fs: Seq<(String, Function)>) -> Seq<Function>
    decreases fs.len(),
{
    if fs.len() == 0 {
        Seq::empty()
    } else {
        let rest = callable_of(spec, env, fs.drop_last());
        if scan(spec, env, fs.last().1.params@) is Candidate {
            rest.push(fs.last().1)
        } else {
            rest
        }
    }
}

/// The functions of the interfaces `is` that can be called: interface after
/// interface, each in its order.
pub open spec fn callable_functions(spec: Spec, env: Environment, is: Seq<Interface>) -> Seq<Function>
    decreases is.len(),
{
    if is.len() == 0 {
        Seq::empty()
    } else {
        callable_functions(spec, env, is.drop_last()) + callable_of(spec, env, is.last().functions@)
    }
}

/// Drawing the arguments of the parameters `ps` one after the other from
/// the bytes `data`: whether it fails, and what is left of the bytes where
/// it ends. A parameter whose type is that of a resource takes an index
/// among the resources listed under its type's name, and fails where there
/// are none; any other takes a value of its type.
pub open spec fn args_run(spec: Spec, env: Environment, ps: Seq<FunctionParam>, data: Seq<u8>) -> (bool, Seq<u8>)
    decreases ps.len(),
{
    if ps.len() == 0 {
        (false, data)
    } else {
        let (failed, d) = args_run(spec, env, ps.drop_last(), data);
        if failed {
            (true, d)
        } else {
            let td = typedef_of(spec, ps.last().tref);
            match td.state {
                None => drawn_run(spec, td.wasi, d),
                Some(_) => {
                    let l = env.listed_of_type(td.name@);
                    if l.len() == 0 {
                        (true, d)
                    } else {
                        (false, index_drawn(d, l.len() as usize).1)
                    }
                },
            }
        }
    }
}

/// Once drawing arguments has failed, more parameters change nothing.
proof fn lemma_args_run_failed(spec: Spec, env: Environment, ps: Seq<FunctionParam>, data: Seq<u8>, k: int)
    requires
        0 <= k <= ps.len(),
        args_run(spec, env, ps.subrange(0, k), data).0,
    ensures
        args_run(spec, env, ps, data) == args_run(spec, env, ps.subrange(0, k), data),
    decreases ps.len() - k,
{
    if k < ps.len() {
        let init = ps.drop_last();
        assert(init.subrange(0, k) == ps.subrange(0, k));
        lemma_args_run_failed(spec, env, init, data, k);
    } else {
        assert(ps.subrange(0, k) == ps);
    }
}

/// Once the scan has stopped, more parameters do not change what it came to.
pub proof fn lemma_scan_stops(spec: Spec, env: Environment, ps: Seq<FunctionParam>, j: int)
    requires
        0 <= j <= ps.len(),
        !(scan(spec, env, ps.subrange(0, j)) is Candidate),
    ensures
        scan(spec, env, ps) == scan(spec, env, ps.subrange(0, j)),
    decreases ps.len() - j,
{
    if j < ps.len() {
        let next = ps.subrange(0, j + 1);
        assert(next.subrange(0, j) == ps.subrange(0, j));
        lemma_scan_stops(spec, env, ps, j + 1);
    } else {
        assert(ps.subrange(0, j) == ps);
    }
}

/// Draws the next call from the fuzzing input: which function, and the
/// arguments, each drawn afresh or, for a resource, one that the runtime
/// knows.
pub struct StatelessStrategy<'u, 'data, 'ctx> {
    u: &'u mut Entropy<'data>,
    ctx: &'ctx RuntimeContext,
}

impl<'u, 'data, 'ctx> StatelessStrategy<'u, 'data, 'ctx> {
    /// What the runtime knows of the resources.
    pub closed spec fn context(&self) -> RuntimeContext {
        *self.ctx
    }

    /// The bytes of the fuzzing input that are left to draw from.
    pub closed spec fn input(&self) -> Seq<u8> {
        self.u.data()
    }

    pub fn new(u: &'u mut Entropy<'data>, ctx: &'ctx RuntimeContext) -> (r: Self)
        ensures
            r.context() == *ctx,
            r.input() == old(u).data(),
    {
        StatelessStrategy { u, ctx }
    }

    /// Chooses, from the input, a function of the spec that can be called:
    /// one of which every parameter whose type is that of a resource finds
    /// a resource of the type named as the parameter is. It fails with
    /// `EmptyChoose` exactly where no function can be called. Which function
    /// comes back is the one at the index drawn among those that can be
    /// called, interface after interface, each in its order.
    pub fn select_function<'spec>(&mut self, spec: &'spec Spec, env: &Environment) -> (r: Result<
        &'spec Function,
        DataError,
    >)
        requires
            spec.wf(),
            env.wf(),
            forall|k: int, m: int|
                is_function_of(*spec, k, m) ==> !(scan(*spec, *env, #[trigger] function_of(*spec, k, m).params@) is Unresolved),
        ensures
            final(self).context() == old(self).context(),
            r matches Ok(f) ==> exists|k: int, m: int|
                is_function_of(*spec, k, m) && #[trigger] function_of(*spec, k, m) == *f && scan(*spec, *env, f.params@) is Candidate,
            r is Err <==> !exists|k: int, m: int|
                is_function_of(*spec, k, m) && scan(*spec, *env, #[trigger] function_of(*spec, k, m).params@) is Candidate,
            r matches Err(e) ==> e == DataError::EmptyChoose,
            ({
                let pool = callable_functions(*spec, *env, spec.interfaces.values());
                let drawn = index_drawn(old(self).input(), pool.len() as usize);
                &&& r is Err <==> pool.len() == 0
                &&& r matches Ok(f) ==> *f == pool[drawn.0 as int]
                &&& final(self).input() == if pool.len() == 0 {
                    old(self).input()
                } else {
                    drawn.1
                }
            }),
    {
        let ghost values = spec.interfaces.values();
        let mut pool: Vec<&'spec Function> = Vec::new();
        let n = spec.interfaces.len();
        let mut k: usize = 0;
        while k < n
            invariant
                spec.wf(),
                env.wf(),
                forall|k2: int, m2: int|
                    is_function_of(*spec, k2, m2) ==> !(scan(*spec, *env, #[trigger] function_of(*spec, k2, m2).params@) is Unresolved),
                n == spec.interfaces.values().len(),
                k <= n,
                forall|p: int| #![trigger pool@[p]] 0 <= p < pool@.len() ==> exists|k2: int, m2: int|
                    is_function_of(*spec, k2, m2) && #[trigger] function_of(*spec, k2, m2) == *pool@[p] && scan(*spec, *env, pool@[p].params@) is Candidate,
                pool@.len() > 0 <==> exists|k2: int, m2: int|
                    0 <= k2 < k && is_function_of(*spec, k2, m2) && scan(*spec, *env, #[trigger] function_of(*spec, k2, m2).params@) is Candidate,
                values == spec.interfaces.values(),
                self.input() == old(self).input(),
                pool@.len() == callable_functions(*spec, *env, values.take(k as int)).len(),
                forall|p: int| 0 <= p < pool@.len() ==> *pool@[p] == #[trigger] callable_functions(*spec, *env, values.take(k as int))[p],
            decreases n - k,
        {
            let interface = spec.interfaces.get_by_index(k).unwrap();
            let mut m: usize = 0;
            while m < interface.functions.len()
                invariant
                    spec.wf(),
                    env.wf(),
                    forall|k2: int, m2: int|
                        is_function_of(*spec, k2, m2) ==> !(scan(*spec, *env, #[trigger] function_of(*spec, k2, m2).params@) is Unresolved),
                    n == spec.interfaces.values().len(),
                    k < n,
                    *interface == spec.interfaces.values()[k as int],
                    m <= interface.functions@.len(),
                    forall|p: int| #![trigger pool@[p]] 0 <= p < pool@.len() ==> exists|k2: int, m2: int|
                        is_function_of(*spec, k2, m2) && #[trigger] function_of(*spec, k2, m2) == *pool@[p] && scan(*spec, *env, pool@[p].params@) is Candidate,
                    pool@.len() > 0 <==> exists|k2: int, m2: int|
                        (0 <= k2 < k || (k2 == k && m2 < m)) && is_function_of(*spec, k2, m2) && scan(*spec, *env, #[trigger] function_of(*spec, k2, m2).params@) is Candidate,
                    values == spec.interfaces.values(),
                    self.input() == old(self).input(),
                    pool@.len() == callable_functions(*spec, *env, values.take(k as int)).len()
                        + callable_of(*spec, *env, interface.functions@.take(m as int)).len(),
                    forall|p: int| 0 <= p < pool@.len() ==> *pool@[p] == #[trigger] (callable_functions(*spec, *env, values.take(k as int))
                        + callable_of(*spec, *env, interface.functions@.take(m as int)))[p],
                decreases interface.functions@.len() - m,
            {
                let ghost before = pool@;
                proof {
                    let fs = interface.functions@;
                    assert(fs.take(m + 1).drop_last() == fs.take(m as int));
                    assert(fs.take(m + 1).last() == fs[m as int]);
                }
                let function = &interface.functions[m].1;
                assert(function_of(*spec, k as int, m as int) == *function);
                if can_be_called(spec, env, function) {
                    pool.push(function);
                }
                proof {
                    let c0 = callable_functions(*spec, *env, values.take(k as int));
                    let c1 = callable_of(*spec, *env, interface.functions@.take(m as int));
                    let c2 = callable_of(*spec, *env, interface.functions@.take(m + 1));
                    assert forall|p: int| 0 <= p < pool@.len() implies *pool@[p] == #[trigger] (c0 + c2)[p] by {
                        if p < before.len() {
                            assert(*before[p] == (c0 + c1)[p]);
                        }
                    }
                }
                m = m + 1;
            }
            proof {
                let fs = interface.functions@;
                assert(fs.take(fs.len() as int) == fs);
                assert(values.take(k + 1).drop_last() == values.take(k as int));
                assert(values.take(k + 1).last() == values[k as int]);
            }
            proof {
                assert forall|k2: int, m2: int|
                    (0 <= k2 < k + 1 && is_function_of(*spec, k2, m2) && scan(*spec, *env, #[trigger] function_of(*spec, k2, m2).params@) is Candidate)
                    implies (0 <= k2 < k || (k2 == k && m2 < m)) && is_function_of(*spec, k2, m2) && scan(*spec, *env, function_of(*spec, k2, m2).params@) is Candidate by {}
            }
            k = k + 1;
        }
        proof {
            assert(values.take(n as int) == values);
        }
        match choose_item(self.u, pool.as_slice()) {
            Ok(f) => Ok(*f),
            Err(e) => Err(e),
        }
    }

    /// Draws the arguments of a call of `function` from the input: a
    /// parameter whose type is not that of a resource gets a value drawn for
    /// its type, and one whose type is gets a resource of that type, chosen
    /// from the input, with the runtime's value for it. It fails where a
    /// value cannot be drawn, and where there is no resource of a type a
    /// parameter asks for.
    pub fn prepare_arguments(&mut self, spec: &Spec, function: &Function, env: &Environment) -> (r: Result<
        Vec<(WasiValue, Option<ResourceIdx>)>,
        DataError,
    >)
        requires
            spec.acyclic(),
            env.wf(),
            forall|j: int|
                0 <= j < function.params@.len() ==> {
                    let d = typedef_of(*spec, (#[trigger] function.params@[j]).tref);
                    &&& function.params@[j].tref.target(*spec) is Some
                    &&& d.state is None ==> drawable(*spec, d.wasi)
                    &&& d.state is Some ==> forall|i: int|
                        0 <= i < env.resources().len() && #[trigger] env.type_of(i) == d.name@
                            ==> old(self).context().resources@.contains_key(i as usize)
                },
        ensures
            final(self).context() == old(self).context(),
            r matches Ok(ps) ==> ps@.len() == function.params@.len() && forall|j: int|
                0 <= j < ps@.len() ==> {
                    let d = typedef_of(*spec, function.params@[j].tref);
                    &&& d.state is None ==> (#[trigger] ps@[j]).1 is None && admits(*spec, d.wasi, ps@[j].0)
                    &&& d.state is Some ==> (ps@[j].1 matches Some(id) && id.0 < env.resources().len()
                        && env.type_of(id.0 as int) == d.name@ && same(
                        old(self).context().resources@[id.0],
                        ps@[j].0,
                    ))
                },
            r is Err ==> exists|j: int|
                0 <= j < function.params@.len() && {
                    let d = typedef_of(*spec, (#[trigger] function.params@[j]).tref);
                    ||| d.state is None && may_fail(*spec, d.wasi)
                    ||| d.state is Some && !env.has_resource_of_type(d.name@)
                },
            final(self).input() == args_run(*spec, *env, function.params@, old(self).input()).1,
            r is Err <==> args_run(*spec, *env, function.params@, old(self).input()).0,
            r matches Ok(ps) ==> forall|j: int|
                0 <= j < ps@.len() ==> {
                    let d = args_run(*spec, *env, function.params@.subrange(0, j), old(self).input()).1;
                    let td = typedef_of(*spec, function.params@[j].tref);
                    match td.state {
                        None => value_from(*spec, td.wasi, d, (#[trigger] ps@[j]).0),
                        Some(_) => ps@[j].1 == Some(
                            env.listed_of_type(td.name@)[index_drawn(d, env.listed_of_type(td.name@).len() as usize).0 as int],
                        ),
                    }
                },
    {
        let ghost ctx0 = self.context();
        let ghost d0 = self.input();
        let ghost fps = function.params@;
        let mut params: Vec<(WasiValue, Option<ResourceIdx>)> = Vec::new();
        let mut j: usize = 0;
        while j < function.params.len()
            invariant
                spec.acyclic(),
                env.wf(),
                self.context() == ctx0,
                ctx0 == old(self).context(),
                forall|j2: int|
                    0 <= j2 < function.params@.len() ==> {
                        let d = typedef_of(*spec, (#[trigger] function.params@[j2]).tref);
                        &&& function.params@[j2].tref.target(*spec) is Some
                        &&& d.state is None ==> drawable(*spec, d.wasi)
                        &&& d.state is Some ==> forall|i: int|
                            0 <= i < env.resources().len() && #[trigger] env.type_of(i) == d.name@
                                ==> ctx0.resources@.contains_key(i as usize)
                    },
                j <= function.params@.len(),
                params@.len() == j,
                forall|j2: int|
                    0 <= j2 < j ==> {
                        let d = typedef_of(*spec, function.params@[j2].tref);
                        &&& d.state is None ==> (#[trigger] params@[j2]).1 is None && admits(*spec, d.wasi, params@[j2].0)
                        &&& d.state is Some ==> (params@[j2].1 matches Some(id) && id.0 < env.resources().len()
                            && env.type_of(id.0 as int) == d.name@ && same(ctx0.resources@[id.0], params@[j2].0))
                    },
                fps == function.params@,
                d0 == old(self).input(),
                !args_run(*spec, *env, fps.subrange(0, j as int), d0).0,
                self.input() == args_run(*spec, *env, fps.subrange(0, j as int), d0).1,
                forall|j2: int|
                    0 <= j2 < j ==> {
                        let d = args_run(*spec, *env, fps.subrange(0, j2), d0).1;
                        let td = typedef_of(*spec, fps[j2].tref);
                        match td.state {
                            None => value_from(*spec, td.wasi, d, (#[trigger] params@[j2]).0),
                            Some(_) => params@[j2].1 == Some(
                                env.listed_of_type(td.name@)[index_drawn(d, env.listed_of_type(td.name@).len() as usize).0 as int],
                            ),
                        }
                    },
            decreases function.params@.len() - j,
        {
            let param = &function.params[j];
            assert(function.params@[j as int] == *param);
            let ghost next = fps.subrange(0, j + 1);
            assert(next.drop_last() == fps.subrange(0, j as int));
            assert(next.last() == fps[j as int]);
            let ghost before = params@;
            let tdef = param.tref.resolve(spec);
            match &tdef.state {
                None => match tdef.wasi.arbitrary_value(spec, self.u) {
                    Ok(v) => params.push((v, None)),
                    Err(e) => {
                        proof {
                            lemma_args_run_failed(*spec, *env, fps, d0, j + 1);
                        }
                        return Err(e);
                    },
                },
                Some(_) => {
                    let resources = match env.resources_of_type(&tdef.name) {
                        Some(l) => l,
                        None => {
                            proof {
                                lemma_args_run_failed(*spec, *env, fps, d0, j + 1);
                            }
                            return Err(DataError::EmptyChoose);
                        },
                    };
                    let id = match choose_item(self.u, resources.as_slice()) {
                        Ok(id) => *id,
                        Err(e) => {
                            proof {
                                lemma_args_run_failed(*spec, *env, fps, d0, j + 1);
                            }
                            return Err(e);
                        },
                    };
                    assert(env.type_of(id.0 as int) == tdef.name@);
                    let value = match self.ctx.resources.get(&id.0) {
                        Some(v) => v.duplicate(),
                        None => {
                            assert(false);
                            return Err(DataError::EmptyChoose);
                        },
                    };
                    params.push((value, Some(id)));
                },
            }
            proof {
                assert forall|j2: int| 0 <= j2 < j + 1 implies {
                    let d = args_run(*spec, *env, fps.subrange(0, j2), d0).1;
                    let td = typedef_of(*spec, fps[j2].tref);
                    match td.state {
                        None => value_from(*spec, td.wasi, d, (#[trigger] params@[j2]).0),
                        Some(_) => params@[j2].1 == Some(
                            env.listed_of_type(td.name@)[index_drawn(d, env.listed_of_type(td.name@).len() as usize).0 as int],
                        ),
                    }
                } by {
                    if j2 < j {
                        assert(params@[j2] == before[j2]);
                    }
                }
            }
            j = j + 1;
        }
        assert(fps.subrange(0, fps.len() as int) == fps);
        Ok(params)
    }

    /// What the call's results mean for the strategy: nothing, as it keeps
    /// no state of its own; the environment is left as it is.
    pub fn handle_results(
        &mut self,
        spec: &Spec,
        function: &Function,
        env: &mut Environment,
        params: Vec<(WasiValue, Option<ResourceIdx>)>,
        results: Vec<Option<ResourceIdx>>,
    ) -> (r: Result<(), DataError>)
        ensures
            r is Ok,
            *final(env) == *old(env),
            final(self).context() == old(self).context(),
    {
        Ok(())
    }
}

/// Whether a function can be called: looking through its parameters in
/// order, each whose type is that of a resource finds a resource of the
/// type named as the parameter is.
fn can_be_called(spec: &Spec, env: &Environment, function: &Function) -> (r: bool)
    requires
        spec.wf(),
        env.wf(),
        !(scan(*spec, *env, function.params@) is Unresolved),
    ensures
        r == (scan(*spec, *env, function.params@) is Candidate),
{
    let ghost ps = function.params@;
    let mut candidate = true;
    let mut j: usize = 0;
    while j < function.params.len() && candidate
        invariant
            spec.wf(),
            env.wf(),
            ps == function.params@,
            !(scan(*spec, *env, ps) is Unresolved),
            j <= ps.len(),
            candidate ==> scan(*spec, *env, ps.subrange(0, j as int)) is Candidate,
            !candidate ==> scan(*spec, *env, ps.subrange(0, j as int)) is Blocked,
        decreases ps.len() - j,
    {
        let ghost next = ps.subrange(0, j + 1);
        proof {
            assert(next.subrange(0, j as int) == ps.subrange(0, j as int));
            assert(next[j as int] == ps[j as int]);
            if ps[j as int].tref.target(*spec) is None {
                lemma_scan_stops(*spec, *env, ps, j + 1);
            }
        }
        let param = &function.params[j];
        let tdef = param.tref.resolve(spec);
        if tdef.state.is_some() {
            match env.resources_of_type(&param.name) {
                None => {
                    candidate = false;
                },
                Some(resources) => {
                    if resources.len() == 0 {
                        candidate = false;
                    }
                },
            }
        }
        j = j + 1;
    }
    proof {
        if candidate {
            assert(ps.subrange(0, ps.len() as int) == ps);
        } else {
            lemma_scan_stops(*spec, *env, ps, j as int);
        }
    }
    candidate
}

} // verus!
