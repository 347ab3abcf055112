//! A model of the host directory that a runtime's file descriptors point
//! into: files by index, the entries of each directory, and the file each
//! descriptor is open on.
use vstd::prelude::*;

use std::collections::BTreeMap;

use crate::text::{lemma_seq_lt_trans, seq_lt, str_lt};

verus! {

broadcast use {vstd::laws_cmp::group_laws_cmp, vstd::std_specs::btree::group_btree_axioms};

/// Entities by index, in the order they were added.
#[derive(PartialEq, Eq, Debug)]
pub struct Entities<T>(Vec<T>);

impl<T> Entities<T> {
    pub closed spec fn view(&self) -> Seq<T> {
        self.0@
    }

    pub fn new() -> (r: Self)
        ensures
            r.view().len() == 0,
    {
        Entities(Vec::new())
    }

    /// Adds an entity; its index is the number of entities before it.
    pub fn push(&mut self, entity: T) -> (r: usize)
        ensures
            final(self).view() == old(self).view().push(entity),
            r == old(self).view().len(),
    {
        self.0.push(entity);
        self.0.len() - 1
    }

    /// The entity at index `i`, if there is one.
    pub fn len(&self) -> (r: usize)
        ensures
            r == self.view().len(),
    {
        self.0.len()
    }

    pub fn get(&self, i: usize) -> (r: Option<&T>)
        ensures
            r == (if i < self.view().len() {
                Some(&self.view()[i as int])
            } else {
                None::<&T>
            }),
    {
        if i < self.0.len() {
            Some(&self.0[i])
        } else {
            None
        }
    }

    /// The entities, each with its index.
    pub fn iter(&self) -> (r: Vec<(usize, &T)>)
        ensures
            r@.len() == self.view().len(),
            forall|i: int| 0 <= i < r@.len() ==> #[trigger] r@[i] == (i as usize, &self.view()[i]),
    {
        let mut r: Vec<(usize, &T)> = Vec::new();
        let mut i: usize = 0;
        while i < self.0.len()
            invariant
                i <= self.0@.len(),
                r@.len() == i,
                forall|k: int| 0 <= k < i ==> #[trigger] r@[k] == (k as usize, &self.0@[k]),
            decreases self.0@.len() - i,
        {
            r.push((i, &self.0[i]));
            i = i + 1;
        }
        r
    }
}

/// A directory tree as read from the host: a file, or a directory with its
/// entries, each under its name.
#[derive(PartialEq, Eq, Debug)]
pub enum DirTree {
    File,
    Dir(Vec<(String, DirTree)>),
}

/// Why a path could not be followed.
#[derive(PartialEq, Eq, Clone, Copy, Debug)]
pub enum FsError {
    /// A directory has no entry of the component's name.
    NoChild,
}

/// The files of a host directory tree, its directories' entries, and the
/// file each descriptor is open on.
#[derive(Debug)]
pub struct WasiFs {
    fds: Entities<()>,
    files: Entities<()>,
    dir_entry_mappings: Vec<((usize, String), usize)>,
    fd_file_mappings: BTreeMap<usize, usize>,
}

impl WasiFs {
    /// How many files there are.
    pub closed spec fn n_files(&self) -> nat {
        self.files.view().len()
    }

    /// How many descriptors there are.
    pub closed spec fn n_fds(&self) -> nat {
        self.fds.view().len()
    }

    /// The file that the entry `name` of directory `dir` is, if any.
    pub closed spec fn child(&self, dir: int, name: Seq<char>) -> Option<int> {
        if exists|k: int|
            0 <= k < self.dir_entry_mappings@.len() && self.dir_entry_mappings@[k].0.0 == dir
                && self.dir_entry_mappings@[k].0.1@ == name {
            let k = choose|k: int|
                0 <= k < self.dir_entry_mappings@.len() && self.dir_entry_mappings@[k].0.0 == dir
                    && self.dir_entry_mappings@[k].0.1@ == name;
            Some(self.dir_entry_mappings@[k].1 as int)
        } else {
            None
        }
    }

    /// The file each descriptor is open on.
    pub closed spec fn fd_files(&self) -> Map<usize, usize> {
        self.fd_file_mappings@
    }

    /// No entry is listed twice.
    pub closed spec fn wf(&self) -> bool {
        forall|k1: int, k2: int|
            0 <= k1 < k2 < self.dir_entry_mappings@.len() ==> !(self.dir_entry_mappings@[k1].0.0
                == self.dir_entry_mappings@[k2].0.0 && self.dir_entry_mappings@[k1].0.1@
                == self.dir_entry_mappings@[k2].0.1@)
    }

    /// The file reached from `from` by following the entries named in
    /// `path`, if every one of them is there.
    pub open spec fn walk(&self, from: int, path: Seq<Seq<char>>) -> Option<int>
        decreases path.len(),
    {
        if path.len() == 0 {
            Some(from)
        } else {
            match self.walk(from, path.drop_last()) {
                Some(d) => self.child(d, path.last()),
                None => None,
            }
        }
    }

    /// No files and no descriptors.
    pub fn new() -> (r: Self)
        ensures
            r.wf(),
            r.n_files() == 0,
            r.n_fds() == 0,
            r.fd_files() == Map::<usize, usize>::empty(),
            forall|d: int, n: Seq<char>| r.child(d, n) is None,
            r.ids_ok(),
    {
        WasiFs {
            fds: Entities::new(),
            files: Entities::new(),
            dir_entry_mappings: Vec::new(),
            fd_file_mappings: BTreeMap::new(),
        }
    }

    /// The file that the entry `name` of directory `dir` is, if any.
    fn find_child(&self, dir: usize, name: &String) -> (r: Option<usize>)
        requires
            self.wf(),
        ensures
            r is None <==> self.child(dir as int, name@) is None,
            r matches Some(f) ==> self.child(dir as int, name@) == Some(f as int),
    {
        let mut k: usize = 0;
        while k < self.dir_entry_mappings.len()
            invariant
                self.wf(),
                k <= self.dir_entry_mappings@.len(),
                forall|j: int|
                    0 <= j < k ==> !(#[trigger] self.dir_entry_mappings@[j].0.0 == dir
                        && self.dir_entry_mappings@[j].0.1@ == name@),
            decreases self.dir_entry_mappings@.len() - k,
        {
            if self.dir_entry_mappings[k].0.0 == dir && self.dir_entry_mappings[k].0.1 == *name {
                proof {
                    let c = choose|c: int|
                        0 <= c < self.dir_entry_mappings@.len() && self.dir_entry_mappings@[c].0.0
                            == dir && self.dir_entry_mappings@[c].0.1@ == name@;
                    if c != k as int {
                        if c < k as int {
                            assert(self.dir_entry_mappings@[c].0.0 == dir && self.dir_entry_mappings@[c].0.1@ == name@);
                        }
                    }
                }
                return Some(self.dir_entry_mappings[k].1);
            }
            k = k + 1;
        }
        None
    }

    /// How many descriptors there are.
    pub fn fd_count(&self) -> (r: usize)
        ensures
            r == self.n_fds(),
    {
        self.fds.len()
    }

    /// Opens a descriptor on the file reached from `base_file_id` by
    /// following the entries named by `components`; fails where one of them
    /// is missing, adding nothing.
    pub fn register_fd(&mut self, base_file_id: usize, components: &[String]) -> (r: Result<(), FsError>)
        requires
            old(self).wf(),
            old(self).n_fds() < usize::MAX,
        ensures
            final(self).wf(),
            r is Ok <==> old(self).walk(base_file_id as int, components@.map_values(|c: String| c@)) is Some,
            r is Ok ==> {
                &&& final(self).n_fds() == old(self).n_fds() + 1
                &&& final(self).fd_files() == old(self).fd_files().insert(
                    old(self).n_fds() as usize,
                    old(self).walk(base_file_id as int, components@.map_values(|c: String| c@)).unwrap() as usize,
                )
            },
            r is Err ==> final(self).n_fds() == old(self).n_fds() && final(self).fd_files() == old(self).fd_files(),
            final(self).n_files() == old(self).n_files(),
            forall|d: int, n: Seq<char>| #[trigger] final(self).child(d, n) == old(self).child(d, n),
            old(self).ids_ok() ==> final(self).ids_ok(),
    {
        let ghost path = components@.map_values(|c: String| c@);
        let mut curr: usize = base_file_id;
        let mut i: usize = 0;
        while i < components.len()
            invariant
                *self == *old(self),
                self.wf(),
                i <= components@.len(),
                path == components@.map_values(|c: String| c@),
                self.walk(base_file_id as int, path.subrange(0, i as int)) == Some(curr as int),
            decreases components@.len() - i,
        {
            let ghost p1 = path.subrange(0, i + 1);
            assert(p1.drop_last() == path.subrange(0, i as int));
            assert(p1.last() == components@[i as int]@);
            match self.find_child(curr, &components[i]) {
                Some(next) => {
                    curr = next;
                },
                None => {
                    proof {
                        lemma_walk_stuck(*self, base_file_id as int, path, i as int);
                    }
                    return Err(FsError::NoChild);
                },
            }
            i = i + 1;
        }
        assert(path.subrange(0, components@.len() as int) == path);
        let fd_id = self.fds.push(());
        self.fd_file_mappings.insert(fd_id, curr);
        assert(self.dir_entry_mappings == old(self).dir_entry_mappings);
        assert(forall|d: int, n: Seq<char>| #[trigger] self.child(d, n) == old(self).child(d, n));
        Ok(())
    }
}

/// Where a walk gets stuck partway, the whole walk fails.
pub proof fn lemma_walk_stuck(fs: WasiFs, from: int, path: Seq<Seq<char>>, i: int)
    requires
        0 <= i < path.len(),
        fs.walk(from, path.subrange(0, i + 1)) is None,
    ensures
        fs.walk(from, path) is None,
    decreases path.len(),
{
    if i + 1 < path.len() {
        assert(path.drop_last().subrange(0, i + 1) == path.subrange(0, i + 1));
        lemma_walk_stuck(fs, from, path.drop_last(), i);
    } else {
        assert(path.subrange(0, i + 1) == path);
    }
}


impl DirTree {
    /// Whether following `path` from the tree's root meets an entry of each
    /// name in turn.
    pub open spec fn has_path(self, path: Seq<Seq<char>>) -> bool
        decreases self,
    {
        if path.len() == 0 {
            true
        } else {
            match self {
                DirTree::File => false,
                DirTree::Dir(es) => exists|k: int|
                    0 <= k < es@.len() && (#[trigger] es@[k]).0@ == path[0] && es@[k].1.has_path(
                        path.drop_first(),
                    ),
            }
        }
    }

    /// Whether no directory of the tree lists two entries of one name.
    pub open spec fn wf(self) -> bool
        decreases self,
    {
        match self {
            DirTree::File => true,
            DirTree::Dir(es) => {
                &&& distinct_names(es@)
                &&& forall|k: int| 0 <= k < es@.len() ==> (#[trigger] es@[k]).1.wf()
            },
        }
    }
}

impl DirTree {
    /// How many files the tree has: itself and those of its entries.
    pub open spec fn size(self) -> nat
        decreases self,
    {
        1 + match self {
            DirTree::File => 0,
            DirTree::Dir(es) => entries_size(es@),
        }
    }
}

/// How many files the trees of the entries `es` have together.
pub open spec fn entries_size(es: Seq<(String, DirTree)>) -> nat
    decreases es,
{
    if es.len() == 0 {
        0
    } else {
        es[0].1.size() + entries_size(es.subrange(1, es.len() as int))
    }
}

/// The sum of `s`.
pub open spec fn sum(s: Seq<nat>) -> nat
    decreases s.len(),
{
    if s.len() == 0 {
        0
    } else {
        s[0] + sum(s.drop_first())
    }
}

/// Taking one element out of a sequence takes it out of the sum.
proof fn lemma_sum_remove(s: Seq<nat>, j: int)
    requires
        0 <= j < s.len(),
    ensures
        sum(s) == s[j] + sum(s.remove(j)),
    decreases j,
{
    if j == 0 {
        assert(s.remove(0) == s.drop_first());
    } else {
        lemma_sum_remove(s.drop_first(), j - 1);
        assert(s.drop_first().remove(j - 1) == s.remove(j).drop_first());
    }
}

/// Summing in the order of a permutation gives the same sum.
proof fn lemma_sum_permuted(w: Seq<nat>, order: Seq<usize>)
    requires
        is_permutation(order, w.len()),
    ensures
        sum(order.map_values(|k: usize| w[k as int])) == sum(w),
    decreases w.len(),
{
    let n = w.len() as int;
    if n > 0 {
        assert(listed(order, n - 1));
        let j = choose|q: int| 0 <= q < order.len() && order[q] == n - 1;
        let rest = order.remove(j);
        let w1 = w.drop_last();
        assert forall|q: int| 0 <= q < n - 1 implies rest[q] < n - 1 by {
            let q0 = if q < j { q } else { q + 1 };
            assert(rest[q] == order[q0]);
            assert(order[q0] != order[j]);
        }
        assert forall|q1: int, q2: int| 0 <= q1 < q2 < n - 1 implies rest[q1] != rest[q2] by {
            let a = if q1 < j { q1 } else { q1 + 1 };
            let b = if q2 < j { q2 } else { q2 + 1 };
            assert(rest[q1] == order[a] && rest[q2] == order[b]);
        }
        assert forall|k: int| 0 <= k < n - 1 implies #[trigger] listed(rest, k) by {
            assert(listed(order, k));
            let q = choose|q: int| 0 <= q < order.len() && order[q] == k;
            if q < j {
                assert(rest[q] == k);
            } else {
                assert(q != j);
                assert(rest[q - 1] == k);
            }
        }
        assert(is_permutation(rest, w1.len()));
        lemma_sum_permuted(w1, rest);
        let m = order.map_values(|k: usize| w[k as int]);
        lemma_sum_remove(m, j);
        assert(m.remove(j) == rest.map_values(|k: usize| w1[k as int]));
        lemma_sum_remove(w, n - 1);
        assert(w.remove(n - 1) == w1);
    }
}

/// The sizes of the trees of `es` add up to `entries_size`.
proof fn lemma_entries_size(es: Seq<(String, DirTree)>)
    ensures
        entries_size(es) == es.len() + sum(Seq::new(es.len(), |k: int| (es[k].1.size() - 1) as nat)),
    decreases es.len(),
{
    if es.len() > 0 {
        let tail = es.subrange(1, es.len() as int);
        lemma_entries_size(tail);
        assert(Seq::new(es.len(), |k: int| (es[k].1.size() - 1) as nat).drop_first()
            == Seq::new(tail.len(), |k: int| (tail[k].1.size() - 1) as nat));
    }
}

/// Whether no two entries have one name.
pub open spec fn distinct_names(es: Seq<(String, DirTree)>) -> bool {
    forall|k1: int, k2: int| 0 <= k1 < es.len() && 0 <= k2 < es.len() && k1 != k2 ==> es[k1].0@ != es[k2].0@
}

/// Whether `order` lists each position below `n` once.
pub open spec fn is_permutation(order: Seq<usize>, n: nat) -> bool {
    &&& order.len() == n
    &&& forall|q: int| 0 <= q < n ==> order[q] < n
    &&& forall|q1: int, q2: int| 0 <= q1 < q2 < n ==> order[q1] != order[q2]
    &&& forall|k: int| 0 <= k < n ==> #[trigger] listed(order, k)
}

/// Whether `k` stands somewhere in `order`.
pub open spec fn listed(order: Seq<usize>, k: int) -> bool {
    exists|q: int| 0 <= q < order.len() && order[q] == k
}

/// The positions of `es` in order of their names; entries of one name keep
/// their order.
fn sorted_order(es: &Vec<(String, DirTree)>) -> (order: Vec<usize>)
    ensures
        is_permutation(order@, es@.len()),
        forall|a: int, b: int|
            0 <= a < b < es@.len() ==> !seq_lt(es@[order@[b] as int].0@, es@[order@[a] as int].0@),
{
    let mut order: Vec<usize> = Vec::new();
    let mut i: usize = 0;
    while i < es.len()
        invariant
            i <= es@.len(),
            is_permutation(order@, i as nat),
            forall|a: int, b: int|
                0 <= a < b < i ==> !seq_lt(es@[order@[b] as int].0@, es@[order@[a] as int].0@),
        decreases es@.len() - i,
    {
        let mut p: usize = 0;
        while p < order.len() && !str_lt(es[i].0.as_str(), es[order[p]].0.as_str())
            invariant
                p <= order@.len(),
                order@.len() == i,
                i < es@.len(),
                forall|q: int| 0 <= q < i ==> order@[q] < i,
                forall|a: int| 0 <= a < p ==> !seq_lt(es@[i as int].0@, es@[order@[a] as int].0@),
            decreases order@.len() - p,
        {
            p = p + 1;
        }
        let ghost old_order = order@;
        order.insert(p, i);
        proof {
            assert(order@ == old_order.insert(p as int, i));
            assert forall|k: int| 0 <= k < i + 1 implies #[trigger] listed(order@, k) by {
                if k < i {
                    assert(listed(old_order, k));
                    let q0 = choose|q: int| 0 <= q < old_order.len() && old_order[q] == k;
                    if q0 < p {
                        assert(order@[q0] == k);
                    } else {
                        assert(order@[q0 + 1] == k);
                    }
                } else {
                    assert(order@[p as int] == k);
                }
            }
            assert forall|a: int, b: int|
                0 <= a < b < i + 1 implies !seq_lt(es@[order@[b] as int].0@, es@[order@[a] as int].0@) by {
                let x = es@[i as int].0@;
                if b == p {
                    assert(order@[b] == i);
                    assert(order@[a] == old_order[a]);
                } else if a == p {
                    assert(order@[a] == i);
                    assert(order@[b] == old_order[b - 1]);
                    let y = es@[old_order[p as int] as int].0@;
                    assert(seq_lt(x, y));
                    let z = es@[order@[b] as int].0@;
                    if seq_lt(z, x) {
                        lemma_seq_lt_trans(z, x, y);
                        if b - 1 > p {
                            assert(!seq_lt(es@[old_order[b - 1] as int].0@, es@[old_order[p as int] as int].0@));
                        } else {
                            crate::text::lemma_seq_lt_irreflexive(y);
                        }
                    }
                } else {
                    let a0 = if a < p { a } else { a - 1 };
                    let b0 = if b < p { b } else { b - 1 };
                    assert(order@[a] == old_order[a0]);
                    assert(order@[b] == old_order[b0]);
                    assert(a0 < b0);
                }
            }
        }
        i = i + 1;
    }
    order
}


impl WasiFs {
    /// Every entry's directory and file are among the files.
    pub closed spec fn ids_ok(&self) -> bool {
        forall|k: int|
            0 <= k < self.dir_entry_mappings@.len() ==> (#[trigger] self.dir_entry_mappings@[k]).0.0
                < self.n_files() && self.dir_entry_mappings@[k].1 < self.n_files()
    }

    /// Whether following `path` from `from` meets an entry at each step, each
    /// a file in `[lo, hi)`.
    pub open spec fn walk_within(&self, from: int, path: Seq<Seq<char>>, lo: int, hi: int) -> bool {
        forall|m: int|
            1 <= m <= path.len() ==> ((#[trigger] self.walk(from, path.subrange(0, m))) matches Some(x)
                && lo <= x < hi)
    }

    /// Makes `f` the entry `name` of directory `d`.
    fn insert_entry(&mut self, d: usize, name: String, f: usize)
        requires
            old(self).wf(),
            old(self).ids_ok(),
            d < old(self).n_files(),
            f < old(self).n_files(),
        ensures
            final(self).wf(),
            final(self).ids_ok(),
            final(self).n_files() == old(self).n_files(),
            final(self).n_fds() == old(self).n_fds(),
            final(self).fd_files() == old(self).fd_files(),
            final(self).child(d as int, name@) == Some(f as int),
            forall|d2: int, n2: Seq<char>|
                !(d2 == d && n2 == name@) ==> #[trigger] final(self).child(d2, n2) == old(self).child(d2, n2),
    {
        let ghost before = *self;
        let mut k: usize = 0;
        let mut found = false;
        while k < self.dir_entry_mappings.len() && !found
            invariant
                *self == before,
                k <= self.dir_entry_mappings@.len(),
                found ==> k < self.dir_entry_mappings@.len() && self.dir_entry_mappings@[k as int].0.0 == d
                    && self.dir_entry_mappings@[k as int].0.1@ == name@,
                !found ==> forall|j: int|
                    0 <= j < k ==> !(#[trigger] self.dir_entry_mappings@[j].0.0 == d
                        && self.dir_entry_mappings@[j].0.1@ == name@),
            decreases self.dir_entry_mappings@.len() - k + (if found { 0int } else { 1int }),
        {
            if self.dir_entry_mappings[k].0.0 == d && self.dir_entry_mappings[k].0.1 == name {
                found = true;
            } else {
                k = k + 1;
            }
        }
        if found {
            let ghost old_map = self.dir_entry_mappings@;
            assert(old_map[k as int].0.0 == d && old_map[k as int].0.1@ == name@);
            self.dir_entry_mappings.set(k, ((d, name), f));
            proof {
                let m = self.dir_entry_mappings@;
                assert forall|k1: int, k2: int|
                    0 <= k1 < k2 < m.len() implies !(m[k1].0.0 == m[k2].0.0 && m[k1].0.1@ == m[k2].0.1@) by {
                    assert(before.wf());
                    assert(!(old_map[k1].0.0 == old_map[k2].0.0 && old_map[k1].0.1@ == old_map[k2].0.1@));
                }
                lemma_child_at(*self, k as int);
                assert forall|d2: int, n2: Seq<char>|
                    !(d2 == d && n2 == name@) implies #[trigger] self.child(d2, n2) == before.child(d2, n2) by {
                    lemma_child_same_keys(before, *self, d2, n2, k as int);
                }
            }
        } else {
            self.dir_entry_mappings.push(((d, name), f));
            proof {
                let m = self.dir_entry_mappings@;
                let n = before.dir_entry_mappings@.len();
                assert forall|k1: int, k2: int|
                    0 <= k1 < k2 < m.len() implies !(m[k1].0.0 == m[k2].0.0 && m[k1].0.1@ == m[k2].0.1@) by {
                    if k2 == n {
                        assert(!(before.dir_entry_mappings@[k1].0.0 == d && before.dir_entry_mappings@[k1].0.1@ == name@));
                    } else {
                        assert(before.wf());
                    }
                }
                lemma_child_at(*self, n as int);
                assert forall|d2: int, n2: Seq<char>|
                    !(d2 == d && n2 == name@) implies #[trigger] self.child(d2, n2) == before.child(d2, n2) by {
                    lemma_child_pushed(before, *self, d2, n2);
                }
            }
        }
    }
}

/// Names being unique, the entry at position `k` is the one its key finds.
proof fn lemma_child_at(fs: WasiFs, k: int)
    requires
        fs.wf(),
        0 <= k < fs.dir_entry_mappings@.len(),
    ensures
        fs.child(fs.dir_entry_mappings@[k].0.0 as int, fs.dir_entry_mappings@[k].0.1@) == Some(
            fs.dir_entry_mappings@[k].1 as int,
        ),
{
    let m = fs.dir_entry_mappings@;
    let d = m[k].0.0 as int;
    let n = m[k].0.1@;
    assert(exists|j: int| 0 <= j < m.len() && m[j].0.0 == d && m[j].0.1@ == n);
    let c = choose|j: int| 0 <= j < m.len() && m[j].0.0 == d && m[j].0.1@ == n;
    if c != k {
        if c < k {
            assert(!(m[c].0.0 == m[k].0.0 && m[c].0.1@ == m[k].0.1@));
        } else {
            assert(!(m[k].0.0 == m[c].0.0 && m[k].0.1@ == m[c].0.1@));
        }
    }
}

/// Changing the file of one key leaves the other keys' files.
proof fn lemma_child_same_keys(a: WasiFs, b: WasiFs, d: int, n: Seq<char>, k: int)
    requires
        a.wf(),
        b.wf(),
        0 <= k < a.dir_entry_mappings@.len(),
        b.dir_entry_mappings@.len() == a.dir_entry_mappings@.len(),
        forall|j: int| 0 <= j < a.dir_entry_mappings@.len() && j != k ==> #[trigger] b.dir_entry_mappings@[j] == a.dir_entry_mappings@[j],
        b.dir_entry_mappings@[k].0.0 == a.dir_entry_mappings@[k].0.0,
        b.dir_entry_mappings@[k].0.1@ == a.dir_entry_mappings@[k].0.1@,
        !(d == a.dir_entry_mappings@[k].0.0 && n == a.dir_entry_mappings@[k].0.1@),
    ensures
        b.child(d, n) == a.child(d, n),
{
    let ma = a.dir_entry_mappings@;
    let mb = b.dir_entry_mappings@;
    if exists|j: int| 0 <= j < ma.len() && ma[j].0.0 == d && ma[j].0.1@ == n {
        let j = choose|j: int| 0 <= j < ma.len() && ma[j].0.0 == d && ma[j].0.1@ == n;
        assert(j != k);
        lemma_child_at(a, j);
        assert(mb[j] == ma[j]);
        lemma_child_at(b, j);
    } else {
        assert forall|j: int| 0 <= j < mb.len() implies !(mb[j].0.0 == d && mb[j].0.1@ == n) by {
            if j != k {
                assert(mb[j] == ma[j]);
            }
        }
    }
}

/// Adding a key leaves the other keys' files.
proof fn lemma_child_pushed(a: WasiFs, b: WasiFs, d: int, n: Seq<char>)
    requires
        a.wf(),
        b.wf(),
        b.dir_entry_mappings@.len() == a.dir_entry_mappings@.len() + 1,
        forall|j: int| 0 <= j < a.dir_entry_mappings@.len() ==> #[trigger] b.dir_entry_mappings@[j] == a.dir_entry_mappings@[j],
        !(d == b.dir_entry_mappings@.last().0.0 && n == b.dir_entry_mappings@.last().0.1@),
    ensures
        b.child(d, n) == a.child(d, n),
{
    let ma = a.dir_entry_mappings@;
    let mb = b.dir_entry_mappings@;
    if exists|j: int| 0 <= j < ma.len() && ma[j].0.0 == d && ma[j].0.1@ == n {
        let j = choose|j: int| 0 <= j < ma.len() && ma[j].0.0 == d && ma[j].0.1@ == n;
        lemma_child_at(a, j);
        assert(mb[j] == ma[j]);
        lemma_child_at(b, j);
    } else {
        assert forall|j: int| 0 <= j < mb.len() implies !(mb[j].0.0 == d && mb[j].0.1@ == n) by {
            if j < ma.len() {
                assert(mb[j] == ma[j]);
            }
        }
    }
}


/// Walking `p` then `q` is walking `p + q`.
pub proof fn lemma_walk_concat(fs: WasiFs, from: int, p: Seq<Seq<char>>, q: Seq<Seq<char>>)
    ensures
        fs.walk(from, p + q) == match fs.walk(from, p) {
            Some(d) => fs.walk(d, q),
            None => None,
        },
    decreases q.len(),
{
    if q.len() == 0 {
        assert(p + q == p);
    } else {
        assert((p + q).drop_last() == p + q.drop_last());
        assert((p + q).last() == q.last());
        lemma_walk_concat(fs, from, p, q.drop_last());
    }
}

/// A walk that stays among files whose entries are the same in `b` as in
/// `a` goes the same way in `b`.
pub proof fn lemma_walk_frame(a: WasiFs, b: WasiFs, from: int, path: Seq<Seq<char>>, lo: int, hi: int)
    requires
        a.walk_within(from, path, lo, hi),
        forall|d: int, n: Seq<char>| (d == from || lo <= d < hi) ==> #[trigger] b.child(d, n) == a.child(d, n),
    ensures
        b.walk_within(from, path, lo, hi),
        forall|m: int| 0 <= m <= path.len() ==> #[trigger] b.walk(from, path.subrange(0, m)) == a.walk(from, path.subrange(0, m)),
{
    assert forall|m: int| 0 <= m <= path.len() implies #[trigger] b.walk(from, path.subrange(0, m)) == a.walk(from, path.subrange(0, m)) by {
        lemma_walk_frame_prefix(a, b, from, path, lo, hi, m);
    }
}

proof fn lemma_walk_frame_prefix(a: WasiFs, b: WasiFs, from: int, path: Seq<Seq<char>>, lo: int, hi: int, m: int)
    requires
        a.walk_within(from, path, lo, hi),
        forall|d: int, n: Seq<char>| (d == from || lo <= d < hi) ==> #[trigger] b.child(d, n) == a.child(d, n),
        0 <= m <= path.len(),
    ensures
        b.walk(from, path.subrange(0, m)) == a.walk(from, path.subrange(0, m)),
    decreases m,
{
    if m > 0 {
        lemma_walk_frame_prefix(a, b, from, path, lo, hi, m - 1);
        let pm = path.subrange(0, m);
        assert(pm.drop_last() == path.subrange(0, m - 1));
        if m - 1 >= 1 {
            assert(a.walk(from, path.subrange(0, m - 1)) is Some);
        }
    }
}

/// A walk from a file of a set that the entries of its files do not leave,
/// where `b` has the same entries as `a` for the files of the set, goes the
/// same way in `b` as in `a`, and stays in the set.
proof fn lemma_walk_closed(a: WasiFs, b: WasiFs, from: int, path: Seq<Seq<char>>, inside: spec_fn(int) -> bool)
    requires
        inside(from),
        forall|d: int, n: Seq<char>| inside(d) && (#[trigger] a.child(d, n)) is Some ==> inside(a.child(d, n).unwrap()),
        forall|d: int, n: Seq<char>| inside(d) ==> #[trigger] b.child(d, n) == a.child(d, n),
    ensures
        b.walk(from, path) == a.walk(from, path),
        a.walk(from, path) matches Some(x) ==> inside(x),
    decreases path.len(),
{
    if path.len() > 0 {
        lemma_walk_closed(a, b, from, path.drop_last(), inside);
        match a.walk(from, path.drop_last()) {
            Some(d) => {
                assert(b.child(d, path.last()) == a.child(d, path.last()));
            },
            None => {},
        }
    }
}

/// From a file without entries only the empty path can be followed.
proof fn lemma_walk_leaf(fs: WasiFs, from: int, path: Seq<Seq<char>>)
    requires
        forall|n: Seq<char>| #[trigger] fs.child(from, n) is None,
        fs.walk(from, path) is Some,
    ensures
        path.len() == 0,
{
    if path.len() > 0 {
        let head = path.subrange(0, 1);
        assert(head.drop_last() == Seq::<Seq<char>>::empty());
        assert(fs.walk(from, head.drop_last()) == Some(from));
        assert(fs.child(from, head.last()) is None);
        assert(fs.walk(from, head) is None);
        lemma_walk_stuck(fs, from, path, 0);
    }
}

impl WasiFs {
    /// Gives each of `entries`, the listing of directory `dir_id`, a new
    /// file, in the order of their names, then does the same inside each of
    /// them that is a directory, the last-named first.
    fn visit(&mut self, dir_id: usize, entries: &Vec<(String, DirTree)>)
        requires
            old(self).wf(),
            old(self).ids_ok(),
            dir_id < old(self).n_files(),
            forall|n: Seq<char>| #[trigger] old(self).child(dir_id as int, n) is None,
        ensures
            final(self).wf(),
            final(self).ids_ok(),
            final(self).n_files() == old(self).n_files() + entries_size(entries@),
            final(self).n_fds() == old(self).n_fds(),
            final(self).fd_files() == old(self).fd_files(),
            forall|d: int, n: Seq<char>|
                d != dir_id && d < old(self).n_files() ==> #[trigger] final(self).child(d, n) == old(self).child(d, n),
            forall|path: Seq<Seq<char>>|
                DirTree::Dir(*entries).wf() && #[trigger] DirTree::Dir(*entries).has_path(path)
                    ==> final(self).walk_within(dir_id as int, path, old(self).n_files() as int, final(self).n_files() as int),
            forall|d: int, n: Seq<char>|
                (d == dir_id || old(self).n_files() <= d < final(self).n_files()) && (#[trigger] final(self).child(d, n)) is Some
                    ==> old(self).n_files() <= final(self).child(d, n).unwrap() < final(self).n_files(),
            forall|path: Seq<Seq<char>>|
                DirTree::Dir(*entries).wf() && (#[trigger] final(self).walk(dir_id as int, path)) is Some
                    ==> DirTree::Dir(*entries).has_path(path),
        decreases entries,
    {
        let ghost start = *self;
        let ghost es = entries@;
        let order = sorted_order(entries);
        let n = entries.len();
        let mut ids: Vec<usize> = Vec::new();
        let mut p: usize = 0;
        while p < n
            invariant
                es == entries@,
                n == es.len(),
                is_permutation(order@, n as nat),
                self.wf(),
                self.ids_ok(),
                dir_id < start.n_files(),
                start.ids_ok(),
                p <= n,
                self.n_files() == start.n_files() + p,
                ids@.len() == p,
                forall|q: int| 0 <= q < p ==> #[trigger] ids@[q] == start.n_files() + q,
                self.n_fds() == start.n_fds(),
                self.fd_files() == start.fd_files(),
                forall|d: int, nm: Seq<char>| d != dir_id ==> #[trigger] self.child(d, nm) == start.child(d, nm),
                forall|nm: Seq<char>|
                    (forall|q: int| 0 <= q < p ==> es[order@[q] as int].0@ != nm) ==> #[trigger] self.child(dir_id as int, nm) is None,
                distinct_names(es) ==> forall|q: int|
                    0 <= q < p ==> #[trigger] self.child(dir_id as int, es[order@[q] as int].0@) == Some(start.n_files() + q),
                forall|nm: Seq<char>| #[trigger] start.child(dir_id as int, nm) is None,
                forall|nm: Seq<char>| (#[trigger] self.child(dir_id as int, nm)) is Some
                    ==> start.n_files() <= self.child(dir_id as int, nm).unwrap() < start.n_files() + p,
            decreases n - p,
        {
            let ghost it0 = *self;
            let id = self.files.push(());
            proof {
                assert(self.dir_entry_mappings == it0.dir_entry_mappings);
                assert forall|d: int, nm: Seq<char>| #[trigger] self.child(d, nm) == it0.child(d, nm) by {}
            }
            let ghost before = *self;
            self.insert_entry(dir_id, entries[order[p]].0.clone(), id);
            ids.push(id);
            proof {
                let nm_p = es[order@[p as int] as int].0@;
                assert forall|nm: Seq<char>|
                    (forall|q: int| 0 <= q < p + 1 ==> es[order@[q] as int].0@ != nm) implies #[trigger] self.child(dir_id as int, nm) is None by {
                    assert(es[order@[p as int] as int].0@ != nm);
                    assert(it0.child(dir_id as int, nm) is None);
                }
                if distinct_names(es) {
                    assert forall|q: int|
                        0 <= q < p + 1 implies #[trigger] self.child(dir_id as int, es[order@[q] as int].0@) == Some(start.n_files() + q) by {
                        if q < p {
                            assert(order@[q] != order@[p as int]);
                            assert(es[order@[q] as int].0@ != nm_p);
                        }
                    }
                }
            }
            p = p + 1;
        }
        let ghost mid = *self;
        let ghost ws = Seq::new(n as nat, |q: int| (es[order@[q] as int].1.size() - 1) as nat);
        proof {
            assert forall|d: int, nm: Seq<char>| start.n_files() <= d < start.n_files() + n implies #[trigger] self.child(d, nm) is None by {
                if start.child(d, nm) is Some {
                    let k = choose|k: int| 0 <= k < start.dir_entry_mappings@.len() && start.dir_entry_mappings@[k].0.0 == d
                        && start.dir_entry_mappings@[k].0.1@ == nm;
                    assert(start.ids_ok());
                }
            }
        }
        let mut p: usize = n;
        while p > 0
            invariant
                es == entries@,
                n == es.len(),
                is_permutation(order@, n as nat),
                ids@.len() == n,
                forall|q: int| 0 <= q < n ==> #[trigger] ids@[q] == start.n_files() + q,
                self.wf(),
                self.ids_ok(),
                dir_id < start.n_files(),
                mid.n_files() == start.n_files() + n,
                p <= n,
                self.n_files() >= mid.n_files(),
                self.n_fds() == start.n_fds(),
                self.fd_files() == start.fd_files(),
                forall|d: int, nm: Seq<char>|
                    d < start.n_files() ==> #[trigger] self.child(d, nm) == mid.child(d, nm),
                forall|q: int, nm: Seq<char>|
                    0 <= q < p ==> #[trigger] self.child(start.n_files() + q, nm) is None,
                forall|q: int, path: Seq<Seq<char>>|
                    p <= q < n && es[order@[q] as int].1.wf() && #[trigger] es[order@[q] as int].1.has_path(path)
                        && path.len() > 0 ==> self.walk_within(
                        start.n_files() + q,
                        path,
                        mid.n_files() as int,
                        self.n_files() as int,
                    ),
                ws == Seq::new(n as nat, |q: int| (es[order@[q] as int].1.size() - 1) as nat),
                self.n_files() == mid.n_files() + sum(ws.subrange(p as int, n as int)),
                forall|d: int, nm: Seq<char>|
                    ((start.n_files() + p <= d < start.n_files() + n) || (mid.n_files() <= d < self.n_files()))
                        && (#[trigger] self.child(d, nm)) is Some
                        ==> mid.n_files() <= self.child(d, nm).unwrap() < self.n_files(),
                forall|q: int, path: Seq<Seq<char>>|
                    p <= q < n && es[order@[q] as int].1.wf() && (#[trigger] self.walk(start.n_files() + q, path)) is Some
                        ==> es[order@[q] as int].1.has_path(path),
            decreases p,
        {
            p = p - 1;
            let ghost before = *self;
            match &entries[order[p]].1 {
                DirTree::Dir(sub) => {
                    proof {
                        assert forall|nm: Seq<char>| #[trigger] self.child(ids@[p as int] as int, nm) is None by {
                            assert(self.child(start.n_files() + p, nm) is None);
                        }
                    }
                    self.visit(ids[p], sub);
                },
                DirTree::File => {},
            }
            proof {
                let c = start.n_files() + p;
                let s0 = start.n_files() as int;
                let inside = |d: int| (s0 + p + 1 <= d < s0 + n) || (mid.n_files() <= d < before.n_files());
                assert(ws.subrange(p as int, n as int).drop_first() == ws.subrange(p + 1, n as int));
                assert(ws.subrange(p as int, n as int)[0] == ws[p as int]);
                assert forall|d: int, nm: Seq<char>| inside(d) implies #[trigger] self.child(d, nm) == before.child(d, nm) by {
                    assert(d != c && d < before.n_files());
                }
                assert forall|d: int, nm: Seq<char>|
                    ((s0 + p <= d < s0 + n) || (mid.n_files() <= d < self.n_files()))
                        && (#[trigger] self.child(d, nm)) is Some
                        implies mid.n_files() <= self.child(d, nm).unwrap() < self.n_files() by {
                    if inside(d) {
                        assert(self.child(d, nm) == before.child(d, nm));
                    } else if d == c {
                        match es[order@[p as int] as int].1 {
                            DirTree::Dir(sub) => {},
                            DirTree::File => {
                                assert(before.child(c, nm) is None);
                            },
                        }
                    }
                }
                assert forall|q: int, path: Seq<Seq<char>>|
                    p <= q < n && es[order@[q] as int].1.wf() && (#[trigger] self.walk(s0 + q, path)) is Some
                        implies es[order@[q] as int].1.has_path(path) by {
                    if q == p {
                        match es[order@[q] as int].1 {
                            DirTree::Dir(sub) => {},
                            DirTree::File => {
                                assert forall|nm: Seq<char>| #[trigger] before.child(c, nm) is None by {}
                                lemma_walk_leaf(before, c, path);
                            },
                        }
                    } else {
                        assert forall|d: int, nm: Seq<char>| inside(d) && (#[trigger] before.child(d, nm)) is Some
                            implies inside(before.child(d, nm).unwrap()) by {}
                        lemma_walk_closed(before, *self, s0 + q, path, inside);
                    }
                }
                assert forall|q: int, path: Seq<Seq<char>>|
                    p <= q < n && es[order@[q] as int].1.wf() && #[trigger] es[order@[q] as int].1.has_path(path)
                        && path.len() > 0 implies self.walk_within(
                        start.n_files() + q,
                        path,
                        mid.n_files() as int,
                        self.n_files() as int,
                    ) by {
                    if q == p {
                        match es[order@[q] as int].1 {
                            DirTree::Dir(sub) => {
                                assert(self.walk_within(c, path, before.n_files() as int, self.n_files() as int));
                            },
                            DirTree::File => {},
                        }
                    } else {
                        assert(before.walk_within(start.n_files() + q, path, mid.n_files() as int, before.n_files() as int));
                        lemma_walk_frame(before, *self, start.n_files() + q, path, mid.n_files() as int, before.n_files() as int);
                    }
                }
            }
        }
        proof {
            let s0 = start.n_files() as int;
            assert forall|path: Seq<Seq<char>>|
                DirTree::Dir(*entries).wf() && #[trigger] DirTree::Dir(*entries).has_path(path)
                    implies self.walk_within(dir_id as int, path, s0, self.n_files() as int) by {
                if path.len() > 0 {
                    let k = choose|k: int| 0 <= k < es.len() && (#[trigger] es[k]).0@ == path[0] && es[k].1.has_path(path.drop_first());
                    assert(listed(order@, k));
                    let q = choose|q: int| 0 <= q < order@.len() && order@[q] == k;
                    assert(mid.child(dir_id as int, es[order@[q] as int].0@) == Some(s0 + q));
                    assert(self.child(dir_id as int, path[0]) == Some(s0 + q));
                    let rest = path.drop_first();
                    assert forall|m: int| 1 <= m <= path.len() implies ((#[trigger] self.walk(dir_id as int, path.subrange(0, m))) matches Some(x)
                        && s0 <= x < self.n_files()) by {
                        let head = path.subrange(0, 1);
                        assert(head.drop_last() == Seq::<Seq<char>>::empty());
                        assert(self.walk(dir_id as int, head.drop_last()) == Some(dir_id as int));
                        assert(head.last() == path[0]);
                        assert(self.walk(dir_id as int, head) == Some(s0 + q));
                        assert(path.subrange(0, m) == head + rest.subrange(0, m - 1));
                        lemma_walk_concat(*self, dir_id as int, head, rest.subrange(0, m - 1));
                        if m > 1 {
                            assert(es[order@[q] as int].1.has_path(rest));
                            assert(es[order@[q] as int].1.wf());
                            assert(self.walk_within(s0 + q, rest, mid.n_files() as int, self.n_files() as int));
                            assert(self.walk(s0 + q, rest.subrange(0, m - 1)) is Some);
                        }
                    }
                }
            }
        }
        proof {
            let s0 = start.n_files() as int;
            assert(ws.subrange(0, n as int) == ws);
            let subs = Seq::new(n as nat, |k: int| (es[k].1.size() - 1) as nat);
            assert(order@.map_values(|k: usize| subs[k as int]) == ws);
            lemma_sum_permuted(subs, order@);
            lemma_entries_size(es);
            assert forall|d: int, nm: Seq<char>|
                (d == dir_id || s0 <= d < self.n_files()) && (#[trigger] self.child(d, nm)) is Some
                    implies s0 <= self.child(d, nm).unwrap() < self.n_files() by {
                if d == dir_id {
                    assert(self.child(d, nm) == mid.child(d, nm));
                }
            }
            assert forall|path: Seq<Seq<char>>|
                DirTree::Dir(*entries).wf() && (#[trigger] self.walk(dir_id as int, path)) is Some
                    implies DirTree::Dir(*entries).has_path(path) by {
                if path.len() > 0 {
                    let head = path.subrange(0, 1);
                    let rest = path.drop_first();
                    assert(path == head + rest);
                    lemma_walk_concat(*self, dir_id as int, head, rest);
                    assert(head.drop_last() == Seq::<Seq<char>>::empty());
                    assert(self.walk(dir_id as int, head.drop_last()) == Some(dir_id as int));
                    assert(head.last() == path[0]);
                    assert(self.child(dir_id as int, path[0]) == mid.child(dir_id as int, path[0]));
                    assert(mid.child(dir_id as int, path[0]) is Some);
                    if forall|q: int| 0 <= q < n ==> es[order@[q] as int].0@ != path[0] {
                        assert(mid.child(dir_id as int, path[0]) is None);
                    }
                    let q = choose|q: int| 0 <= q < n && es[order@[q] as int].0@ == path[0];
                    assert(distinct_names(es));
                    assert(mid.child(dir_id as int, es[order@[q] as int].0@) == Some(s0 + q));
                    assert(self.walk(s0 + q, rest) is Some);
                    let k = order@[q] as int;
                    assert(es[k].1.wf());
                    assert(es[k].1.has_path(rest));
                    assert(es[k].0@ == path[0]);
                }
            }
        }
    }

    /// Adds the files of a host directory tree: the root first, then the
    /// entries of each directory in the order of their names, the last-named
    /// directory's entries first, one file for each of the tree's. The result
    /// is the root's file. Where no directory lists two entries of one name,
    /// the paths that can be followed from it are exactly those of the tree.
    pub fn push_dir(&mut self, tree: &DirTree) -> (r: usize)
        requires
            old(self).wf(),
            old(self).ids_ok(),
        ensures
            final(self).wf(),
            final(self).ids_ok(),
            r == old(self).n_files(),
            final(self).n_files() > r,
            final(self).n_fds() == old(self).n_fds(),
            final(self).fd_files() == old(self).fd_files(),
            forall|d: int, n: Seq<char>| d < old(self).n_files() ==> #[trigger] final(self).child(d, n) == old(self).child(d, n),
            final(self).n_files() == old(self).n_files() + tree.size(),
            forall|path: Seq<Seq<char>>|
                tree.wf() && #[trigger] tree.has_path(path) ==> final(self).walk(r as int, path) is Some
                    && final(self).walk_within(r as int, path, r as int, final(self).n_files() as int),
            forall|path: Seq<Seq<char>>|
                tree.wf() && (#[trigger] final(self).walk(r as int, path)) is Some ==> tree.has_path(path),
    {
        let ghost start = *self;
        let root = self.files.push(());
        proof {
            assert(self.dir_entry_mappings == start.dir_entry_mappings);
            assert forall|d: int, nm: Seq<char>| #[trigger] self.child(d, nm) == start.child(d, nm) by {}
            assert forall|nm: Seq<char>| #[trigger] self.child(root as int, nm) is None by {
                if self.child(root as int, nm) is Some {
                    let k = choose|k: int| 0 <= k < self.dir_entry_mappings@.len() && self.dir_entry_mappings@[k].0.0 == root
                        && self.dir_entry_mappings@[k].0.1@ == nm;
                    assert(start.ids_ok());
                }
            }
        }
        match tree {
            DirTree::Dir(entries) => {
                self.visit(root, entries);
            },
            DirTree::File => {},
        }
        proof {
            assert forall|path: Seq<Seq<char>>|
                tree.wf() && #[trigger] tree.has_path(path) implies self.walk(root as int, path) is Some
                    && self.walk_within(root as int, path, root as int, self.n_files() as int) by {
                if path.len() > 0 {
                    assert(path.subrange(0, path.len() as int) == path);
                }
            }
            assert forall|path: Seq<Seq<char>>|
                tree.wf() && (#[trigger] self.walk(root as int, path)) is Some implies tree.has_path(path) by {
                match tree {
                    DirTree::Dir(entries) => {},
                    DirTree::File => {
                        lemma_walk_leaf(*self, root as int, path);
                    },
                }
            }
        }
        root
    }
}

} // verus!
