//! Where a fuzzing session keeps its runs: one directory per run, one per
//! runtime under each run, and the count of calls made.
//!
//! The library decides names, paths and counts; creating the directories and
//! writing the files is left to the caller.
use vstd::prelude::*;

use crate::text::{decimal, decimal_string, join, join_path, lemma_decimal_injective, zero_padded};

verus! {

/// `a + b` in a machine word, wrapping around past the largest value.
pub open spec fn wrapped_sum(a: nat, b: nat) -> nat {
    if a + b > usize::MAX {
        (a + b - (usize::MAX + 1)) as nat
    } else {
        a + b
    }
}

/// Why the store refused a request.
#[derive(PartialEq, Eq, Clone, Copy, Debug)]
pub enum StoreError {
    /// The run already has a runtime of that name.
    RuntimeExists,
}

/// What is known of a finished fuzzing session.
#[derive(PartialEq, Eq, Clone, Copy, Debug)]
pub struct FuzzMetadata {
    pub ncalls: usize,
}

/// The root of a session's store.
#[derive(Debug)]
pub struct Store {
    path: String,
    next: usize,
    ncalls: usize,
}

impl Store {
    pub closed spec fn spec_path(&self) -> Seq<char> {
        self.path@
    }

    /// The index that the next run gets.
    pub closed spec fn next_run(&self) -> nat {
        self.next as nat
    }

    /// How many calls the finished runs made.
    pub closed spec fn ncalls(&self) -> nat {
        self.ncalls as nat
    }

    /// A store rooted at `path`, with no runs.
    pub fn new(path: &str) -> (r: Self)
        ensures
            r.spec_path() == path@,
            r.next_run() == 0,
            r.ncalls() == 0,
    {
        Store { path: path.to_owned(), next: 0, ncalls: 0 }
    }

    /// A new run: its name is the next index in decimal, and it lives under
    /// `runs/` in the store.
    pub fn new_run<T>(&mut self) -> (r: (String, RunStore<T>))
        ensures
            r.0@ == decimal(old(self).next_run()),
            r.1.spec_path() == join(join(old(self).spec_path(), "runs"@), r.0@),
            r.1.spec_data_dir() == join(r.1.spec_path(), "data"@),
            r.1.spec_runtimes_dir() == join(r.1.spec_path(), "runtimes"@),
            r.1.runtimes().len() == 0,
            r.1.next_data() == 0,
            final(self).next_run() == wrapped_sum(old(self).next_run(), 1),
            final(self).ncalls() == old(self).ncalls(),
            final(self).spec_path() == old(self).spec_path(),
    {
        let idx = self.next;
        self.next = self.next.wrapping_add(1);
        let id = decimal_string(idx, 0);
        proof {
            reveal_strlit("runs");
            reveal_strlit("data");
            reveal_strlit("runtimes");
        }
        let runs = join_path(self.path.as_str(), "runs");
        let path = join_path(runs.as_str(), id.as_str());
        let data_dir = join_path(path.as_str(), "data");
        let runtimes_dir = join_path(path.as_str(), "runtimes");
        (id, RunStore { path, data_next_idx: 0, data_dir, runtimes_dir, runtimes: Vec::new() })
    }

    pub fn root_path(&self) -> (r: &str)
        ensures
            r@ == self.spec_path(),
    {
        self.path.as_str()
    }

    pub fn metadata(&self) -> (r: FuzzMetadata)
        ensures
            r.ncalls == self.ncalls(),
    {
        FuzzMetadata { ncalls: self.ncalls }
    }
}

/// One run: the data it filled buffers with, and a store for each runtime
/// that it drives.
#[derive(Debug)]
pub struct RunStore<T> {
    path: String,
    data_next_idx: usize,
    data_dir: String,
    runtimes_dir: String,
    runtimes: Vec<(String, RuntimeStore<T>)>,
}

impl<T> RunStore<T> {
    pub closed spec fn spec_path(&self) -> Seq<char> {
        self.path@
    }

    pub closed spec fn spec_data_dir(&self) -> Seq<char> {
        self.data_dir@
    }

    pub closed spec fn spec_runtimes_dir(&self) -> Seq<char> {
        self.runtimes_dir@
    }

    /// The index of the next data file.
    pub closed spec fn next_data(&self) -> nat {
        self.data_next_idx as nat
    }

    /// The runtimes' stores, by name, in the order they were first made.
    pub closed spec fn runtimes(&self) -> Seq<(Seq<char>, RuntimeStore<T>)> {
        self.runtimes@.map_values(|e: (String, RuntimeStore<T>)| (e.0@, e.1))
    }

    /// Whether every runtime made the same number of calls, there being at
    /// least one.
    pub open spec fn spec_calls_agree(&self) -> bool {
        &&& self.runtimes().len() > 0
        &&& forall|i: int|
            0 <= i < self.runtimes().len() ==> (#[trigger] self.runtimes()[i]).1.calls()
                == self.runtimes()[0].1.calls()
    }

    /// A store for the runtime `name`, under the run's runtimes directory,
    /// keeping a trace of each call where `enable_logging` holds, added after
    /// the run's other runtimes; the result is its position. It fails, and
    /// the run is left as it was, where the run already has a runtime of
    /// that name, whose directory is already there.
    pub fn new_runtime(&mut self, name: String, enable_logging: bool) -> (r: Result<usize, StoreError>)
        ensures
            r is Err <==> exists|j: int|
                0 <= j < old(self).runtimes().len() && #[trigger] old(self).runtimes()[j].0 == name@,
            r matches Err(e) ==> e == StoreError::RuntimeExists && *final(self) == *old(self),
            r matches Ok(k) ==> {
                &&& k == old(self).runtimes().len()
                &&& final(self).runtimes() == old(self).runtimes().push(
                    (name@, final(self).runtimes()[k as int].1),
                )
                &&& final(self).runtimes()[k as int].1.is_fresh(
                    join(old(self).spec_runtimes_dir(), name@),
                    enable_logging,
                )
            },
            final(self).spec_path() == old(self).spec_path(),
            final(self).spec_data_dir() == old(self).spec_data_dir(),
            final(self).spec_runtimes_dir() == old(self).spec_runtimes_dir(),
            final(self).next_data() == old(self).next_data(),
    {
        let mut i: usize = 0;
        while i < self.runtimes.len()
            invariant
                i <= self.runtimes@.len(),
                forall|j: int| 0 <= j < i ==> #[trigger] self.runtimes@[j].0@ != name@,
            decreases self.runtimes@.len() - i,
        {
            if self.runtimes[i].0 == name {
                assert(self.runtimes()[i as int].0 == name@);
                return Err(StoreError::RuntimeExists);
            }
            i = i + 1;
        }
        assert forall|j: int| 0 <= j < self.runtimes().len() implies #[trigger] self.runtimes()[j].0 != name@ by {
            assert(self.runtimes@[j].0@ != name@);
        }
        let path = join_path(self.runtimes_dir.as_str(), name.as_str());
        let store = RuntimeStore::new(path.as_str(), enable_logging);
        let k = self.runtimes.len();
        let ghost before = self.runtimes@;
        self.runtimes.push((name, store));
        proof {
            assert(self.runtimes@ == before.push(self.runtimes@[k as int]));
            assert(self.runtimes() =~= old(self).runtimes().push((name@, self.runtimes()[k as int].1)));
        }
        Ok(k)
    }

    pub fn path(&self) -> (r: &str)
        ensures
            r@ == self.spec_path(),
    {
        self.path.as_str()
    }

    pub fn data_dir(&self) -> (r: &str)
        ensures
            r@ == self.spec_data_dir(),
    {
        self.data_dir.as_str()
    }

    pub fn runtimes_dir(&self) -> (r: &str)
        ensures
            r@ == self.spec_runtimes_dir(),
    {
        self.runtimes_dir.as_str()
    }

    /// The index of the next data file.
    pub fn next_data_idx(&self) -> (r: usize)
        ensures
            r == self.next_data(),
    {
        self.data_next_idx
    }

    /// The runtimes' stores, by name.
    pub fn runtime_stores(&self) -> (r: &[(String, RuntimeStore<T>)])
        ensures
            r@.map_values(|e: (String, RuntimeStore<T>)| (e.0@, e.1)) == self.runtimes(),
    {
        self.runtimes.as_slice()
    }

    /// The store of the runtime at position `i`, to record calls in.
    pub fn runtime_mut(&mut self, i: usize) -> (r: &mut RuntimeStore<T>)
        requires
            i < old(self).runtimes().len(),
        ensures
            *r == old(self).runtimes()[i as int].1,
            final(self).runtimes() == old(self).runtimes().update(
                i as int,
                (old(self).runtimes()[i as int].0, *final(r)),
            ),
            final(self).spec_path() == old(self).spec_path(),
            final(self).spec_data_dir() == old(self).spec_data_dir(),
            final(self).spec_runtimes_dir() == old(self).spec_runtimes_dir(),
            final(self).next_data() == old(self).next_data(),
    {
        &mut self.runtimes[i].1
    }

    /// Where the next filled buffer is to be written; the next one goes to
    /// the following index.
    pub fn claim_data_path(&mut self) -> (r: String)
        requires
            old(self).next_data() < usize::MAX,
        ensures
            r@ == join(old(self).spec_data_dir(), decimal(old(self).next_data())),
            final(self).next_data() == old(self).next_data() + 1,
            final(self).runtimes() == old(self).runtimes(),
            final(self).spec_path() == old(self).spec_path(),
            final(self).spec_data_dir() == old(self).spec_data_dir(),
            final(self).spec_runtimes_dir() == old(self).spec_runtimes_dir(),
    {
        let name = decimal_string(self.data_next_idx, 0);
        let path = join_path(self.data_dir.as_str(), name.as_str());
        self.data_next_idx = self.data_next_idx + 1;
        path
    }

    /// Whether every runtime made the same number of calls, there being at
    /// least one.
    pub fn calls_agree(&self) -> (b: bool)
        ensures
            b == self.spec_calls_agree(),
    {
        if self.runtimes.len() == 0 {
            return false;
        }
        let first = self.runtimes[0].1.next_call_idx;
        let mut i: usize = 0;
        while i < self.runtimes.len()
            invariant
                0 < self.runtimes@.len(),
                i <= self.runtimes@.len(),
                first == self.runtimes@[0].1.calls(),
                forall|j: int| 0 <= j < i ==> (#[trigger] self.runtimes@[j]).1.calls() == first,
            decreases self.runtimes@.len() - i,
        {
            if self.runtimes[i].1.next_call_idx != first {
                assert(self.runtimes()[i as int].1.calls() != self.runtimes()[0].1.calls());
                return false;
            }
            i = i + 1;
        }
        assert forall|j: int| 0 <= j < self.runtimes().len() implies (
        #[trigger] self.runtimes()[j]).1.calls() == self.runtimes()[0].1.calls() by {
            assert(self.runtimes@[j].1.calls() == first);
        }
        true
    }

    /// Ends the run: every runtime made the same number of calls, and that
    /// number is added, wrapping, to the session's count.
    pub fn finish(&self, store: &mut Store)
        requires
            self.spec_calls_agree(),
        ensures
            final(store).ncalls() == wrapped_sum(old(store).ncalls(), self.runtimes()[0].1.calls()),
            final(store).next_run() == old(store).next_run(),
            final(store).spec_path() == old(store).spec_path(),
    {
        let n = self.runtimes[0].1.next_call_idx;
        store.ncalls = store.ncalls.wrapping_add(n);
    }
}

/// What a runtime did in a run: its directories, and the calls made of it.
#[derive(Debug)]
pub struct RuntimeStore<T> {
    root_path: String,
    base_path: String,
    log_trace: Option<String>,
    next_call_idx: usize,
    last_call: Option<T>,
}

impl<T> RuntimeStore<T> {
    pub closed spec fn spec_root_path(&self) -> Seq<char> {
        self.root_path@
    }

    pub closed spec fn spec_base_path(&self) -> Seq<char> {
        self.base_path@
    }

    /// The directory that call traces go to, where calls are traced.
    pub closed spec fn spec_trace_dir(&self) -> Option<Seq<char>> {
        match self.log_trace {
            Some(t) => Some(t@),
            None => None,
        }
    }

    /// How many calls were recorded.
    pub closed spec fn calls(&self) -> nat {
        self.next_call_idx as nat
    }

    pub closed spec fn spec_last_call(&self) -> Option<T> {
        self.last_call
    }

    /// Whether this is a store rooted at `root`, with its base directory and,
    /// where `log_trace` holds, its trace directory under it, and no calls.
    pub open spec fn is_fresh(&self, root: Seq<char>, log_trace: bool) -> bool {
        &&& self.spec_root_path() == root
        &&& self.spec_base_path() == join(root, "base"@)
        &&& self.spec_trace_dir() == (if log_trace {
            Some(join(root, "trace"@))
        } else {
            None
        })
        &&& self.calls() == 0
        &&& self.spec_last_call() is None
    }

    /// The store of a runtime rooted at `path`: its base directory is `base`
    /// under it, and its traces, where it keeps them, go to `trace`.
    pub fn new(path: &str, log_trace: bool) -> (r: Self)
        ensures
            r.is_fresh(path@, log_trace),
    {
        proof {
            reveal_strlit("base");
            reveal_strlit("trace");
        }
        let base_path = join_path(path, "base");
        let log_trace = if log_trace {
            Some(join_path(path, "trace"))
        } else {
            None
        };
        RuntimeStore {
            root_path: path.to_owned(),
            base_path,
            log_trace,
            next_call_idx: 0,
            last_call: None,
        }
    }

    pub fn root_path(&self) -> (r: &str)
        ensures
            r@ == self.spec_root_path(),
    {
        self.root_path.as_str()
    }

    pub fn base_path(&self) -> (r: &str)
        ensures
            r@ == self.spec_base_path(),
    {
        self.base_path.as_str()
    }

    /// The directory that call traces go to, where calls are traced.
    pub fn trace_dir(&self) -> (r: Option<&str>)
        ensures
            r matches Some(t) ==> self.spec_trace_dir() == Some(t@),
            r is None ==> self.spec_trace_dir() is None,
    {
        match &self.log_trace {
            Some(t) => Some(t.as_str()),
            None => None,
        }
    }

    /// How many calls were recorded.
    pub fn next_call_idx(&self) -> (r: usize)
        ensures
            r == self.calls(),
    {
        self.next_call_idx
    }

    /// The last call recorded, if any.
    pub fn last_call(&self) -> (r: Option<&T>)
        ensures
            r == match self.spec_last_call() {
                Some(c) => Some(&c),
                None => None::<&T>,
            },
    {
        match &self.last_call {
            Some(c) => Some(c),
            None => None,
        }
    }

    /// Where the trace of the next call goes, where calls are traced: its
    /// index zero-padded to four digits, as JSON.
    pub fn trace_file(&self) -> (r: Option<String>)
        ensures
            r is None <==> self.spec_trace_dir() is None,
            r matches Some(p) ==> p@ == join(
                self.spec_trace_dir().unwrap(),
                zero_padded(self.calls(), 4) + ".json"@,
            ),
    {
        match &self.log_trace {
            Some(dir) => {
                let mut name = decimal_string(self.next_call_idx, 4);
                proof {
                    reveal_strlit(".json");
                }
                name.append(".json");
                Some(join_path(dir.as_str(), name.as_str()))
            },
            None => None,
        }
    }

    /// Records a call: it becomes the last call, and the count goes up by
    /// one.
    pub fn record_call(&mut self, result: T)
        requires
            old(self).calls() < usize::MAX,
        ensures
            final(self).calls() == old(self).calls() + 1,
            final(self).spec_last_call() == Some(result),
            final(self).spec_root_path() == old(self).spec_root_path(),
            final(self).spec_base_path() == old(self).spec_base_path(),
            final(self).spec_trace_dir() == old(self).spec_trace_dir(),
    {
        self.next_call_idx = self.next_call_idx + 1;
        self.last_call = Some(result);
    }
}

/// The sum of the counts.
pub open spec fn total(counts: Seq<nat>) -> nat
    decreases counts.len(),
{
    if counts.len() == 0 {
        0
    } else {
        total(counts.drop_last()) + counts.last()
    }
}

/// The runs of a session are named, in the order they are made, by the
/// numbers from zero up in decimal, and no two by the same name, as long as
/// no more runs are made than a machine word counts. `stores` are the
/// session's store before each run is made and after the last, `names` the
/// names of the runs.
pub proof fn lemma_run_names(stores: Seq<Store>, names: Seq<Seq<char>>)
    requires
        stores.len() == names.len() + 1,
        names.len() <= usize::MAX + 1,
        stores[0].next_run() == 0,
        forall|i: int|
            0 <= i < names.len() ==> #[trigger] names[i] == decimal(stores[i].next_run())
                && stores[i + 1].next_run() == wrapped_sum(stores[i].next_run(), 1),
    ensures
        forall|i: int| 0 <= i < names.len() ==> #[trigger] names[i] == decimal(i as nat),
        forall|i: int, j: int| 0 <= i < j < names.len() ==> #[trigger] names[i] != #[trigger] names[j],
{
    assert forall|i: int| 0 <= i < names.len() implies #[trigger] stores[i].next_run() == i by {
        lemma_run_index(stores, names, i);
    }
    assert forall|i: int| 0 <= i < names.len() implies #[trigger] names[i] == decimal(i as nat) by {
        assert(stores[i].next_run() == i);
    }
    assert forall|i: int, j: int| 0 <= i < j < names.len() implies #[trigger] names[i] != #[trigger] names[j] by {
        assert(names[i] == decimal(i as nat));
        assert(names[j] == decimal(j as nat));
        if names[i] == names[j] {
            lemma_decimal_injective(i as nat, j as nat);
        }
    }
}

proof fn lemma_run_index(stores: Seq<Store>, names: Seq<Seq<char>>, i: int)
    requires
        stores.len() == names.len() + 1,
        names.len() <= usize::MAX + 1,
        stores[0].next_run() == 0,
        forall|k: int|
            0 <= k < names.len() ==> #[trigger] names[k] == decimal(stores[k].next_run())
                && stores[k + 1].next_run() == wrapped_sum(stores[k].next_run(), 1),
        0 <= i < names.len(),
    ensures
        stores[i].next_run() == i,
    decreases i,
{
    if i > 0 {
        lemma_run_index(stores, names, i - 1);
        assert(names[i - 1] == decimal(stores[i - 1].next_run()));
    }
}

/// The session's count of calls is the sum, in a machine word, of the calls
/// of the runs finished in it. `stores` are the session's store before each
/// run is finished and after the last, `counts` the calls of each run.
pub proof fn lemma_session_calls(stores: Seq<Store>, counts: Seq<nat>)
    requires
        stores.len() == counts.len() + 1,
        stores[0].ncalls() == 0,
        forall|j: int| 0 <= j < counts.len() ==> #[trigger] counts[j] <= usize::MAX,
        forall|j: int|
            0 <= j < counts.len() ==> #[trigger] stores[j + 1].ncalls() == wrapped_sum(stores[j].ncalls(), counts[j]),
    ensures
        stores[counts.len() as int].ncalls() == (total(counts) as int) % (usize::MAX + 1),
    decreases counts.len(),
{
    let m: int = usize::MAX + 1;
    if counts.len() == 0 {
        assert(total(counts) == 0);
    } else {
        let n = counts.len() - 1;
        let init = counts.drop_last();
        let sinit = stores.drop_last();
        assert forall|j: int| 0 <= j < init.len() implies #[trigger] init[j] <= usize::MAX by {
            assert(init[j] == counts[j]);
        }
        assert forall|j: int| 0 <= j < init.len() implies #[trigger] sinit[j + 1].ncalls() == wrapped_sum(
            sinit[j].ncalls(),
            init[j],
        ) by {
            assert(init[j] == counts[j]);
            assert(sinit[j + 1] == stores[j + 1]);
            assert(sinit[j] == stores[j]);
        }
        lemma_session_calls(sinit, init);
        assert(sinit[n as int] == stores[n as int]);
        let a = stores[n as int].ncalls();
        let c = counts[n as int];
        assert(stores[n + 1].ncalls() == wrapped_sum(a, c));
        assert(a == (total(init) as int) % m);
        assert(total(counts) == total(init) + c);
        vstd::arithmetic::div_mod::lemma_add_mod_noop(total(init) as int, c as int, m);
        vstd::arithmetic::div_mod::lemma_mod_bound(total(init) as int, m);
        vstd::arithmetic::div_mod::lemma_mod_bound(c as int, m);
        vstd::arithmetic::div_mod::lemma_small_mod(c, m as nat);
        if a + c >= m {
            vstd::arithmetic::div_mod::lemma_mod_sub_multiples_vanish((a + c - m) as int, m);
            vstd::arithmetic::div_mod::lemma_small_mod((a + c - m) as nat, m as nat);
        } else {
            vstd::arithmetic::div_mod::lemma_small_mod((a + c) as nat, m as nat);
        }
    }
}

/// After calls are recorded one after another in a runtime's fresh store,
/// the store counts them, and its last call is the last one recorded.
/// `stores` are the runtime's store before each call is recorded and after
/// the last.
pub proof fn lemma_record_calls<T>(stores: Seq<RuntimeStore<T>>, calls: Seq<T>)
    requires
        stores.len() == calls.len() + 1,
        stores[0].calls() == 0,
        stores[0].spec_last_call() is None,
        forall|j: int|
            0 <= j < calls.len() ==> #[trigger] stores[j + 1].calls() == stores[j].calls() + 1
                && stores[j + 1].spec_last_call() == Some(calls[j]),
    ensures
        stores.last().calls() == calls.len(),
        stores.last().spec_last_call() == (if calls.len() == 0 {
            None
        } else {
            Some(calls.last())
        }),
    decreases calls.len(),
{
    if calls.len() > 0 {
        let n = calls.len() - 1;
        let sinit = stores.drop_last();
        let cinit = calls.drop_last();
        assert forall|j: int| 0 <= j < cinit.len() implies #[trigger] sinit[j + 1].calls() == sinit[j].calls() + 1
            && sinit[j + 1].spec_last_call() == Some(cinit[j]) by {
            assert(sinit[j + 1] == stores[j + 1]);
            assert(sinit[j] == stores[j]);
        }
        lemma_record_calls(sinit, cinit);
        assert(sinit.last() == stores[n as int]);
        assert(stores[n + 1].calls() == stores[n as int].calls() + 1);
    }
}

} // verus!
