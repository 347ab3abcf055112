//! Whether runtimes that were given the same call behaved differently: in
//! the outcome the errno reports, or in what their directories hold after.
use vstd::prelude::*;

verus! {

/// What a comparison of the runtimes found.
#[derive(PartialEq, Eq, Clone, Copy, Debug)]
pub enum DiffResult {
    /// The runtimes agree.
    Agree,
    /// One runtime's call failed or reported no errno where another's did
    /// not.
    Errno,
    /// The directories of two runtimes differ.
    Filesystem,
}

/// What an errno says of a call: that there is none, that the call
/// succeeded, or that it failed.
pub open spec fn errno_class(e: Option<i32>) -> int {
    match e {
        None => 0,
        Some(x) => if x == 0 {
            1
        } else {
            2
        },
    }
}

/// Whether every runtime's errno says the same of the call as the first's.
pub open spec fn errnos_agree(errnos: Seq<(String, Option<i32>)>) -> bool {
    forall|i: int| 0 <= i < errnos.len() ==> errno_class(#[trigger] errnos[i].1) == errno_class(errnos[0].1)
}

/// Whether the runtimes' errnos, given in order, disagree on the outcome of
/// the call: one has an errno where the first has none, or the other way
/// round, or one reports success where the first reports failure, or the
/// other way round.
pub fn errno_diff(errnos: &[(String, Option<i32>)]) -> (r: bool)
    requires
        errnos@.len() > 0,
    ensures
        r == !errnos_agree(errnos@),
{
    let first = errnos[0].1;
    let mut i: usize = 1;
    while i < errnos.len()
        invariant
            1 <= i <= errnos@.len(),
            first == errnos@[0].1,
            forall|k: int| 0 <= k < i ==> errno_class(#[trigger] errnos@[k].1) == errno_class(first),
        decreases errnos@.len() - i,
    {
        let differs = match (first, errnos[i].1) {
            (None, None) => false,
            (None, Some(_)) | (Some(_), None) => true,
            (Some(l), Some(r)) => (l == 0 && r != 0) || (l != 0 && r == 0),
        };
        if differs {
            assert(errno_class(errnos@[i as int].1) != errno_class(errnos@[0].1));
            return true;
        }
        i = i + 1;
    }
    false
}

/// The kind of a directory entry.
#[derive(PartialEq, Eq, Structural, Clone, Copy, Debug)]
pub enum FileKind {
    Directory,
    File,
    Symlink,
    /// Another kind, told apart from the rest by its number.
    Other(u8),
}

/// An entry met walking a runtime's directory, entries sorted by name
/// within each directory and each directory before what it holds: how deep
/// it is, its kind, its name, and, for a file, what it holds.
#[derive(PartialEq, Eq, Debug)]
pub struct FsEntry {
    pub depth: usize,
    pub kind: FileKind,
    pub name: Vec<u8>,
    pub contents: Vec<u8>,
}

/// Whether two entries are alike: as deep, of the same kind and name, and,
/// where the first is a file, with the same contents.
pub open spec fn entries_alike(a: FsEntry, b: FsEntry) -> bool {
    &&& a.depth == b.depth
    &&& a.kind == b.kind
    &&& a.name@ == b.name@
    &&& a.kind == FileKind::File ==> a.contents@ == b.contents@
}

/// Whether two walks are alike: as long, and alike entry by entry.
pub open spec fn walks_alike(a: Seq<FsEntry>, b: Seq<FsEntry>) -> bool {
    &&& a.len() == b.len()
    &&& forall|i: int| 0 <= i < a.len() ==> entries_alike(#[trigger] a[i], b[i])
}

fn bytes_equal(a: &Vec<u8>, b: &Vec<u8>) -> (r: bool)
    ensures
        r == (a@ == b@),
{
    if a.len() != b.len() {
        return false;
    }
    let mut i: usize = 0;
    while i < a.len()
        invariant
            a@.len() == b@.len(),
            i <= a@.len(),
            forall|k: int| 0 <= k < i ==> a@[k] == b@[k],
        decreases a@.len() - i,
    {
        if a[i] != b[i] {
            return false;
        }
        i = i + 1;
    }
    assert(a@ =~= b@);
    true
}

/// Whether two runtimes' directories differ, from their walks: one has
/// more entries than the other, or two entries at the same place differ.
pub fn walks_differ(a: &[FsEntry], b: &[FsEntry]) -> (r: bool)
    ensures
        r == !walks_alike(a@, b@),
{
    if a.len() != b.len() {
        return true;
    }
    let mut i: usize = 0;
    while i < a.len()
        invariant
            a@.len() == b@.len(),
            i <= a@.len(),
            forall|k: int| 0 <= k < i ==> entries_alike(#[trigger] a@[k], b@[k]),
        decreases a@.len() - i,
    {
        let x = &a[i];
        let y = &b[i];
        let alike = x.depth == y.depth && x.kind == y.kind && bytes_equal(&x.name, &y.name) && (x.kind
            != FileKind::File || bytes_equal(&x.contents, &y.contents));
        if !alike {
            assert(!entries_alike(a@[i as int], b@[i as int]));
            return true;
        }
        i = i + 1;
    }
    false
}

/// Whether the directories of two of the runtimes differ.
pub open spec fn some_walks_differ(walks: Seq<Vec<FsEntry>>) -> bool {
    exists|i: int, j: int| 0 <= i < j < walks.len() && !walks_alike(#[trigger] walks[i]@, #[trigger] walks[j]@)
}

/// Compares the runtimes after a call: the errnos first, then the
/// directories of each two runtimes. Where the errnos agree, every two of
/// them agree too, so comparing them two by two again finds nothing.
pub fn diff(errnos: &[(String, Option<i32>)], walks: &[Vec<FsEntry>]) -> (r: DiffResult)
    requires
        errnos@.len() > 0,
    ensures
        r == (if !errnos_agree(errnos@) {
            DiffResult::Errno
        } else if some_walks_differ(walks@) {
            DiffResult::Filesystem
        } else {
            DiffResult::Agree
        }),
{
    if errno_diff(errnos) {
        return DiffResult::Errno;
    }
    let mut i: usize = 0;
    while i < walks.len()
        invariant
            errnos_agree(errnos@),
            i <= walks@.len(),
            forall|i2: int, j2: int|
                0 <= i2 < i && i2 < j2 < walks@.len() ==> walks_alike(#[trigger] walks@[i2]@, #[trigger] walks@[j2]@),
        decreases walks@.len() - i,
    {
        let mut j: usize = i + 1;
        while j < walks.len()
            invariant
                errnos_agree(errnos@),
                i < walks@.len(),
                i + 1 <= j <= walks@.len(),
                forall|i2: int, j2: int|
                    0 <= i2 < i && i2 < j2 < walks@.len() ==> walks_alike(#[trigger] walks@[i2]@, #[trigger] walks@[j2]@),
                forall|j2: int| i < j2 < j ==> walks_alike(walks@[i as int]@, #[trigger] walks@[j2]@),
            decreases walks@.len() - j,
        {
            if walks_differ(walks[i].as_slice(), walks[j].as_slice()) {
                assert(!walks_alike(walks@[i as int]@, walks@[j as int]@));
                return DiffResult::Filesystem;
            }
            j = j + 1;
        }
        i = i + 1;
    }
    DiffResult::Agree
}

/// What a run does after the runtimes answered a call and were compared.
#[derive(PartialEq, Eq, Clone, Copy, Debug)]
pub struct CallStep {
    /// Whether the call's results are registered as new resources.
    pub register_results: bool,
    /// Whether the run goes on to another call.
    pub go_on: bool,
}

/// The decisions of a run's loop after a call: its results are registered
/// where the runtimes reported no errno or errno zero, and the run stops at
/// the first difference between the runtimes.
pub fn after_call(errno: Option<i32>, found: DiffResult) -> (r: CallStep)
    ensures
        r.register_results <==> (errno is None || errno == Some(0i32)),
        r.go_on <==> found == DiffResult::Agree,
{
    let register_results = match errno {
        None => true,
        Some(e) => e == 0,
    };
    let go_on = match found {
        DiffResult::Agree => true,
        _ => false,
    };
    CallStep { register_results, go_on }
}


/// Walks differ wherever the entries at one place differ: in depth, in
/// kind, in name, or, both being files, in contents; and where one walk is
/// longer. A walk is alike to itself.
pub proof fn lemma_walks_differ_at(a: Seq<FsEntry>, b: Seq<FsEntry>, i: int)
    requires
        0 <= i < a.len(),
        0 <= i < b.len(),
        a[i].depth != b[i].depth || a[i].kind != b[i].kind || a[i].name@ != b[i].name@ || (a[i].kind
            == FileKind::File && b[i].kind == FileKind::File && a[i].contents@ != b[i].contents@),
    ensures
        !walks_alike(a, b),
        walks_alike(a, a),
        a.len() != b.len() ==> !walks_alike(a, b),
{
}

/// Where the runtimes agree on the errno and the walks of two of them differ
/// in the depth of the entries at one place, the comparison finds the
/// directories differ.
pub proof fn lemma_depth_diff_found(errnos: Seq<(String, Option<i32>)>, walks: Seq<Vec<FsEntry>>, x: int, y: int, i: int)
    requires
        errnos_agree(errnos),
        0 <= x < y < walks.len(),
        0 <= i < walks[x]@.len(),
        i < walks[y]@.len(),
        walks[x]@[i].depth != walks[y]@[i].depth,
    ensures
        some_walks_differ(walks),
        (if !errnos_agree(errnos) {
            DiffResult::Errno
        } else if some_walks_differ(walks) {
            DiffResult::Filesystem
        } else {
            DiffResult::Agree
        }) == DiffResult::Filesystem,
{
    lemma_walks_differ_at(walks[x]@, walks[y]@, i);
}


/// Two runtimes' errnos agree exactly where both have none, or both report
/// success (errno zero), or both report a failure, whichever failure.
pub proof fn lemma_two_errnos(x: (String, Option<i32>), y: (String, Option<i32>))
    ensures
        errnos_agree(seq![x, y]) <==> ((x.1 is None && y.1 is None) || (x.1 == Some(0i32) && y.1 == Some(0i32)) || (
        x.1 is Some && x.1 != Some(0i32) && y.1 is Some && y.1 != Some(0i32))),
{
    let s = seq![x, y];
    assert(s[0] == x && s[1] == y);
}

} // verus!
