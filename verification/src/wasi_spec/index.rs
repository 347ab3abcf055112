//! A space of values that are found both by position and by a unique name.
use vstd::prelude::*;

verus! {

/// Values by position, each under a name that no other value has.
#[derive(Debug)]
pub struct IndexSpace<V> {
    keys: Vec<String>,
    values: Vec<V>,
}

impl<V> IndexSpace<V> {
    /// The names, by position.
    pub closed spec fn keys(&self) -> Seq<Seq<char>> {
        self.keys@.map_values(|k: String| k@)
    }

    /// The values, by position.
    pub closed spec fn values(&self) -> Seq<V> {
        self.values@
    }

    /// As many names as values, and no name twice.
    pub closed spec fn wf(&self) -> bool {
        &&& self.keys@.len() == self.values@.len()
        &&& forall|i: int, j: int|
            0 <= i < j < self.keys@.len() ==> self.keys@[i]@ != self.keys@[j]@
    }

    /// The position of the value named `key`, if there is one.
    pub open spec fn index_of(&self, key: Seq<char>) -> Option<int> {
        if exists|i: int| 0 <= i < self.keys().len() && self.keys()[i] == key {
            Some(choose|i: int| 0 <= i < self.keys().len() && self.keys()[i] == key)
        } else {
            None
        }
    }

    /// An empty space.
    pub fn new() -> (r: Self)
        ensures
            r.wf(),
            r.keys().len() == 0,
            r.values().len() == 0,
    {
        IndexSpace { keys: Vec::new(), values: Vec::new() }
    }

    /// How many values there are.
    pub fn len(&self) -> (r: usize)
        requires
            self.wf(),
        ensures
            r == self.values().len(),
            r == self.keys().len(),
    {
        self.values.len()
    }

    /// Puts `value` under `key`: in the place of the value already named so,
    /// or else at the end. The result is the value's position.
    pub fn push(&mut self, key: String, value: V) -> (r: usize)
        requires
            old(self).wf(),
        ensures
            final(self).wf(),
            old(self).index_of(key@) matches Some(i) ==> {
                &&& r == i
                &&& final(self).keys() == old(self).keys()
                &&& final(self).values() == old(self).values().update(i, value)
            },
            old(self).index_of(key@) is None ==> {
                &&& r == old(self).values().len()
                &&& final(self).keys() == old(self).keys().push(key@)
                &&& final(self).values() == old(self).values().push(value)
            },
    {
        let mut i: usize = 0;
        while i < self.keys.len()
            invariant
                *self == *old(self),
                self.wf(),
                i <= self.keys@.len(),
                forall|j: int| 0 <= j < i ==> self.keys@[j]@ != key@,
            decreases self.keys@.len() - i,
        {
            if self.keys[i] == key {
                proof {
                    assert(self.keys()[i as int] == key@);
                    lemma_index_of_found(self, i as int);
                }
                self.values.set(i, value);
                return i;
            }
            i = i + 1;
        }
        proof {
            assert forall|j: int| 0 <= j < self.keys().len() implies self.keys()[j] != key@ by {
                assert(self.keys@[j]@ != key@);
            }
        }
        let k = self.values.len();
        self.keys.push(key);
        self.values.push(value);
        proof {
            assert(self.keys() =~= old(self).keys().push(key@));
        }
        k
    }

    /// The value named `key`, if there is one.
    pub fn get_by_key(&self, key: &str) -> (r: Option<&V>)
        requires
            self.wf(),
        ensures
            r == match self.index_of(key@) {
                Some(i) => Some(&self.values()[i]),
                None => None::<&V>,
            },
    {
        match self.find(key) {
            Some(i) => Some(&self.values[i]),
            None => None,
        }
    }

    /// The position of the value named `key`, if there is one.
    pub fn find(&self, key: &str) -> (r: Option<usize>)
        requires
            self.wf(),
        ensures
            r is None <==> self.index_of(key@) is None,
            r matches Some(i) ==> self.index_of(key@) == Some(i as int) && i < self.values().len(),
    {
        let target = key.to_owned();
        let mut i: usize = 0;
        while i < self.keys.len()
            invariant
                self.wf(),
                target@ == key@,
                i <= self.keys@.len(),
                forall|j: int| 0 <= j < i ==> self.keys@[j]@ != key@,
            decreases self.keys@.len() - i,
        {
            if self.keys[i] == target {
                proof {
                    lemma_index_of_found(self, i as int);
                }
                return Some(i);
            }
            i = i + 1;
        }
        proof {
            assert forall|j: int| 0 <= j < self.keys().len() implies self.keys()[j] != key@ by {
                assert(self.keys@[j]@ != key@);
            }
        }
        None
    }

    /// The value at position `i`, if there is one.
    pub fn get_by_index(&self, i: usize) -> (r: Option<&V>)
        ensures
            r == (if i < self.values().len() {
                Some(&self.values()[i as int])
            } else {
                None::<&V>
            }),
    {
        if i < self.values.len() {
            Some(&self.values[i])
        } else {
            None
        }
    }
}

/// Names being unique, the position of a name is the one it stands at.
pub proof fn lemma_index_of_found<V>(s: &IndexSpace<V>, i: int)
    requires
        s.wf(),
        0 <= i < s.keys().len(),
    ensures
        s.index_of(s.keys()[i]) == Some(i),
{
    let k = s.keys()[i];
    assert(exists|j: int| 0 <= j < s.keys().len() && s.keys()[j] == k);
    let j = choose|j: int| 0 <= j < s.keys().len() && s.keys()[j] == k;
    if j != i {
        if j < i {
            assert(s.keys@[j]@ != s.keys@[i]@);
        } else {
            assert(s.keys@[i]@ != s.keys@[j]@);
        }
    }
}

/// After a value is put under a name, the name finds that value, and every
/// other name finds what it found before.
pub proof fn lemma_push_then_get<V>(before: IndexSpace<V>, after: IndexSpace<V>, key: Seq<char>, value: V, other: Seq<char>)
    requires
        before.wf(),
        after.wf(),
        before.index_of(key) matches Some(i) ==> after.keys() == before.keys()
            && after.values() == before.values().update(i, value),
        before.index_of(key) is None ==> after.keys() == before.keys().push(key)
            && after.values() == before.values().push(value),
    ensures
        after.index_of(key) matches Some(i) && after.values()[i] == value,
        other != key ==> after.index_of(other) == before.index_of(other),
        other != key ==> (before.index_of(other) matches Some(i) ==> after.values()[i] == before.values()[i]),
{
    match before.index_of(key) {
        Some(i) => {
            lemma_index_of_found(&before, i);
            lemma_index_of_found(&after, i);
            if let Some(j) = before.index_of(other) {
                lemma_index_of_found(&before, j);
                lemma_index_of_found(&after, j);
            } else {
                assert(after.keys() == before.keys());
            }
        },
        None => {
            let n = before.keys().len();
            assert(after.keys()[n as int] == key);
            lemma_index_of_found(&after, n as int);
            if let Some(j) = before.index_of(other) {
                lemma_index_of_found(&before, j);
                assert(after.keys()[j] == before.keys()[j]);
                lemma_index_of_found(&after, j);
            } else if other != key {
                assert forall|j: int| 0 <= j < after.keys().len() implies after.keys()[j] != other by {
                    if j < n {
                        assert(after.keys()[j] == before.keys()[j]);
                    }
                }
            }
        },
    }
}

} // verus!

verus! {

/// A well-formed space has as many names as values.
pub proof fn lemma_wf_lengths<V>(s: &IndexSpace<V>)
    requires
        s.wf(),
    ensures
        s.keys().len() == s.values().len(),
{
}

} // verus!
