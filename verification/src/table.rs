use crate::hash_map::{HashMap, HashMapIter};
use crate::key::Key;
use vstd::prelude::*;

verus! {

/// Entry `j` of `es`, one of the first `done`, holds the value `k` under the
/// index `i`.
spec fn copied<A>(es: Seq<(A, usize)>, done: int, j: int, k: A, i: usize) -> bool {
    0 <= j < done && j < es.len() && es[j].0 == k && es[j].1 == i
}

/// An indexed table: each value put into it gets the next positive index, and
/// keeps it for as long as it stays in the table.
pub struct Table<V: Key> {
    table: HashMap<usize, V>,
    inverse: HashMap<V, usize>,
    current_index: usize,
}

impl<V: Key> Table<V> {
    /// The index of each value in the table, by the value's view.
    pub closed spec fn index_of(&self) -> Map<V::V, usize> {
        self.inverse@
    }

    /// The index that the next new value gets.
    pub closed spec fn next_index(&self) -> nat {
        self.current_index as nat
    }

    /// The table's invariant.
    pub closed spec fn wf(&self) -> bool {
        &&& self.table.wf()
        &&& self.inverse.wf()
        &&& 1 <= self.current_index <= usize::MAX / 2
        &&& self.table@.len() < self.current_index
        &&& self.inverse@.len() < self.current_index
        &&& forall|k: V::V| #[trigger]
            self.inverse@.contains_key(k) ==> {
                &&& 1 <= self.inverse@[k] < self.current_index
                &&& self.table@.contains_key(self.inverse@[k])
                &&& self.table@[self.inverse@[k]]@ == k
            }
        &&& forall|i: usize| #[trigger]
            self.table@.contains_key(i) ==> {
                &&& self.inverse@.contains_key(self.table@[i]@)
                &&& self.inverse@[self.table@[i]@] == i
            }
    }

    /// Every index in the table is positive and below the next index, and no
    /// two values share one.
    pub proof fn lemma_indices(&self)
        requires
            self.wf(),
        ensures
            self.next_index() >= 1,
            self.index_of().dom().finite(),
            self.index_of().len() < self.next_index(),
            forall|k: V::V| #[trigger]
                self.index_of().contains_key(k) ==> 1 <= self.index_of()[k] < self.next_index(),
            forall|a: V::V, b: V::V|
                self.index_of().contains_key(a) && self.index_of().contains_key(b) && a != b
                    ==> self.index_of()[a] != self.index_of()[b],
    {
        self.inverse.lemma_len_below_slots();
    }

    /// The index of a value that is new to the table is greater than every
    /// index in the table, and the table's other values keep theirs.
    pub proof fn lemma_fresh_index(&self, before: &Self, value: V::V)
        requires
            before.wf(),
            !before.index_of().contains_key(value),
            self.index_of() == before.index_of().insert(value, before.next_index() as usize),
        ensures
            forall|k: V::V| #[trigger]
                before.index_of().contains_key(k) ==> self.index_of()[k] == before.index_of()[k]
                    && before.index_of()[k] < self.index_of()[value],
    {
        before.lemma_indices();
    }

    /// An empty table, whose first index is 1.
    pub fn new() -> (table: Self)
        ensures
            table.wf(),
            table.index_of() == Map::<V::V, usize>::empty(),
            table.next_index() == 1,
    {
        let table = HashMap::new();
        let inverse = HashMap::new();
        proof {
            table.lemma_len_below_slots();
            inverse.lemma_len_below_slots();
        }
        Table { table, inverse, current_index: 1 }
    }

    /// The number of values in the table.
    pub fn len(&self) -> (n: usize)
        requires
            self.wf(),
        ensures
            n == self.index_of().len(),
    {
        self.inverse.len()
    }

    /// The number of values in the table.
    pub fn size(&self) -> (n: usize)
        requires
            self.wf(),
        ensures
            n == self.index_of().len(),
    {
        self.inverse.len()
    }

    /// The index of `value`: the one it has if it is in the table, else the
    /// next index, under which it is then stored.
    pub fn put(&mut self, value: V) -> (index: usize)
        requires
            old(self).wf(),
            old(self).next_index() < usize::MAX / 2,
        ensures
            final(self).wf(),
            old(self).index_of().contains_key(value@) ==> {
                &&& index == old(self).index_of()[value@]
                &&& final(self).index_of() == old(self).index_of()
                &&& final(self).next_index() == old(self).next_index()
            },
            !old(self).index_of().contains_key(value@) ==> {
                &&& index == old(self).next_index()
                &&& final(self).index_of() == old(self).index_of().insert(value@, index)
                &&& final(self).next_index() == old(self).next_index() + 1
            },
    {
        match self.inverse.get(&value) {
            Some(index) => {
                return *index;
            },
            None => {},
        }
        let index = self.current_index;
        proof {
            self.table.lemma_len_below_slots();
            self.inverse.lemma_len_below_slots();
            if self.table@.contains_key(index) {
                assert(self.inverse@.contains_key(self.table@[index]@));
            }
        }
        let copy = value.duplicate();
        self.table.insert(index, copy);
        self.inverse.insert(value, index);
        self.current_index += 1;
        proof {
            self.table.lemma_len_below_slots();
            self.inverse.lemma_len_below_slots();
            assert(self.table@.dom() =~= old(self).table@.dom().insert(index));
            assert(self.inverse@.dom() =~= old(self).inverse@.dom().insert(value@));
            assert forall|k: V::V| #[trigger] self.inverse@.contains_key(k) implies {
                &&& 1 <= self.inverse@[k] < self.current_index
                &&& self.table@.contains_key(self.inverse@[k])
                &&& self.table@[self.inverse@[k]]@ == k
            } by {
                if k != value@ {
                    assert(old(self).inverse@.contains_key(k));
                }
            }
            assert forall|i: usize| #[trigger] self.table@.contains_key(i) implies {
                &&& self.inverse@.contains_key(self.table@[i]@)
                &&& self.inverse@[self.table@[i]@] == i
            } by {
                if i != index {
                    assert(old(self).table@.contains_key(i));
                }
            }
        }
        index
    }

    /// The value stored under `index`, if there is one.
    pub fn get(&self, index: &usize) -> (value: Option<&V>)
        requires
            self.wf(),
        ensures
            match value {
                Some(v) => self.index_of().contains_key(v@) && self.index_of()[v@] == *index,
                None => forall|k: V::V| #[trigger]
                    self.index_of().contains_key(k) ==> self.index_of()[k] != *index,
            },
    {
        let found = self.table.get(index);
        proof {
            if found is Some {
                assert(self.table@.contains_key(*index));
            }
        }
        found
    }

    /// Whether `value` is in the table.
    pub fn contains(&self, value: &V) -> (b: bool)
        requires
            self.wf(),
        ensures
            b == self.index_of().contains_key(value@),
    {
        self.inverse.contains(value)
    }

    /// Takes `value` out of the table. Its index is not given out again.
    pub fn remove(&mut self, value: &V)
        requires
            old(self).wf(),
        ensures
            final(self).wf(),
            final(self).index_of() == old(self).index_of().remove(value@),
            final(self).next_index() == old(self).next_index(),
    {
        let index = match self.inverse.get(value) {
            Some(index) => *index,
            None => {
                proof {
                    assert(self.inverse@.remove(value@) =~= self.inverse@);
                }
                return ;
            },
        };
        proof {
            self.table.lemma_len_below_slots();
            self.inverse.lemma_len_below_slots();
        }
        self.table.remove(&index);
        self.inverse.remove(value);
        proof {
            self.table.lemma_len_below_slots();
            self.inverse.lemma_len_below_slots();
            assert(self.table@.dom() =~= old(self).table@.dom().remove(index));
            assert(self.inverse@.dom() =~= old(self).inverse@.dom().remove(value@));
            assert forall|k: V::V| #[trigger] self.inverse@.contains_key(k) implies {
                &&& 1 <= self.inverse@[k] < self.current_index
                &&& self.table@.contains_key(self.inverse@[k])
                &&& self.table@[self.inverse@[k]]@ == k
            } by {
                assert(old(self).inverse@.contains_key(k));
                assert(old(self).table@.contains_key(index));
            }
            assert forall|i: usize| #[trigger] self.table@.contains_key(i) implies {
                &&& self.inverse@.contains_key(self.table@[i]@)
                &&& self.inverse@[self.table@[i]@] == i
            } by {
                assert(old(self).table@.contains_key(i));
            }
        }
    }

    /// Empties the table. Indices start at 1 again.
    pub fn clear(&mut self)
        requires
            old(self).wf(),
        ensures
            final(self).wf(),
            final(self).index_of() == Map::<V::V, usize>::empty(),
            final(self).next_index() == 1,
    {
        self.table.clear();
        self.inverse.clear();
        self.current_index = 1;
        proof {
            self.table.lemma_len_below_slots();
            self.inverse.lemma_len_below_slots();
        }
    }

    /// A copy of the table: the same values under the same indices, and the
    /// same next index.
    pub fn clone(&self) -> (copy: Self)
        requires
            self.wf(),
        ensures
            copy.wf(),
            copy.index_of() == self.index_of(),
            copy.next_index() == self.next_index(),
    {
        let mut table: HashMap<usize, V> = HashMap::new();
        let mut inverse: HashMap<V, usize> = HashMap::new();
        let ghost es = self.inverse.entries();
        let ghost mut done: int = 0;
        let mut it = self.inverse.iter();
        proof {
            self.inverse.lemma_entries();
            self.inverse.lemma_len_below_slots();
            table.lemma_len_below_slots();
            inverse.lemma_len_below_slots();
            assert(es.skip(0) =~= es);
        }
        loop
            invariant
                self.wf(),
                es == self.inverse.entries(),
                es.len() == self.inverse@.len(),
                forall|j: int|
                    0 <= j < es.len() ==> self.inverse@.contains_key((#[trigger] es[j]).0)
                        && self.inverse@[es[j].0] == es[j].1,
                forall|a: int, b: int|
                    0 <= a < es.len() && 0 <= b < es.len() && a != b ==> es[a].0 != es[b].0,
                0 <= done <= es.len(),
                it.remaining() == es.skip(done),
                table.wf(),
                inverse.wf(),
                table@.dom().finite(),
                inverse@.dom().finite(),
                table@.len() <= done,
                inverse@.len() <= done,
                forall|k: V::V| #[trigger]
                    inverse@.contains_key(k) ==> exists|j: int| copied(es, done, j, k, inverse@[k]),
                forall|i: usize| #[trigger]
                    table@.contains_key(i) ==> exists|j: int| copied(es, done, j, table@[i]@, i),
                forall|j: int|
                    0 <= j < done ==> inverse@.contains_key((#[trigger] es[j]).0) && inverse@[es[j].0]
                        == es[j].1 && table@.contains_key(es[j].1) && table@[es[j].1]@ == es[j].0,
            ensures
                done == es.len(),
                table.wf(),
                inverse.wf(),
                table@.len() <= done,
                inverse@.len() <= done,
                forall|k: V::V| #[trigger]
                    inverse@.contains_key(k) ==> exists|j: int| copied(es, done, j, k, inverse@[k]),
                forall|i: usize| #[trigger]
                    table@.contains_key(i) ==> exists|j: int| copied(es, done, j, table@[i]@, i),
                forall|j: int|
                    0 <= j < done ==> inverse@.contains_key((#[trigger] es[j]).0) && inverse@[es[j].0]
                        == es[j].1 && table@.contains_key(es[j].1) && table@[es[j].1]@ == es[j].0,
            decreases es.len() - done,
        {
            match it.next() {
                Some((value, index)) => {
                    let ghost old_table = table@;
                    let ghost old_inverse = inverse@;
                    let ghost at = done;
                    proof {
                        assert(es.skip(done)[0] == es[done]);
                        assert(es.skip(done).drop_first() =~= es.skip(done + 1));
                        assert(es[at] == (value@, *index));
                        assert(self.inverse@.contains_key(es[at].0));
                    }
                    table.insert(*index, value.duplicate());
                    inverse.insert(value.duplicate(), *index);
                    proof {
                        table.lemma_len_below_slots();
                        inverse.lemma_len_below_slots();
                        assert(table@.dom() =~= old_table.dom().insert(*index));
                        assert(inverse@.dom() =~= old_inverse.dom().insert(value@));
                        done = done + 1;
                        assert(copied(es, done, at, value@, *index));
                        assert forall|k: V::V| #[trigger] inverse@.contains_key(k) implies exists|
                            j: int,
                        |
                            copied(es, done, j, k, inverse@[k]) by {
                            if k != value@ {
                                assert(old_inverse.contains_key(k));
                                let j = choose|j: int| copied(es, at, j, k, old_inverse[k]);
                                assert(copied(es, done, j, k, inverse@[k]));
                            } else {
                                assert(copied(es, done, at, k, inverse@[k]));
                            }
                        }
                        assert forall|i: usize| #[trigger] table@.contains_key(i) implies exists|
                            j: int,
                        |
                            copied(es, done, j, table@[i]@, i) by {
                            if i != *index {
                                assert(old_table.contains_key(i));
                                let j = choose|j: int| copied(es, at, j, old_table[i]@, i);
                                assert(copied(es, done, j, table@[i]@, i));
                            } else {
                                assert(copied(es, done, at, table@[i]@, i));
                            }
                        }
                        assert forall|j: int| 0 <= j < done implies inverse@.contains_key(
                            (#[trigger] es[j]).0,
                        ) && inverse@[es[j].0] == es[j].1 && table@.contains_key(es[j].1)
                            && table@[es[j].1]@ == es[j].0 by {
                            if j < at {
                                assert(es[j].0 != es[at].0);
                                assert(self.inverse@.contains_key(es[j].0));
                                assert(self.inverse@.contains_key(es[at].0));
                                assert(es[j].1 != es[at].1);
                            }
                        }
                    }
                },
                None => {
                    proof {
                        assert(es.skip(done).len() == 0);
                    }
                    break ;
                },
            }
        }
        let copy = Table { table, inverse, current_index: self.current_index };
        proof {
            self.inverse.lemma_len_below_slots();
            assert forall|k: V::V| copy.inverse@.contains_key(k) == self.inverse@.contains_key(
                k,
            ) by {
                if copy.inverse@.contains_key(k) {
                    let j = choose|j: int| copied(es, done, j, k, copy.inverse@[k]);
                    assert(self.inverse@.contains_key(es[j].0));
                }
                if self.inverse@.contains_key(k) {
                    let pair = (k, self.inverse@[k]);
                    assert(es.contains(pair));
                    let j = choose|j: int| 0 <= j < es.len() && es[j] == pair;
                    assert(copy.inverse@.contains_key(es[j].0));
                }
            }
            assert forall|k: V::V| copy.inverse@.contains_key(k) implies copy.inverse@[k]
                == self.inverse@[k] by {
                let j = choose|j: int| copied(es, done, j, k, copy.inverse@[k]);
                assert(self.inverse@.contains_key(es[j].0));
            }
            assert(copy.inverse@ =~= self.inverse@);
            assert forall|k: V::V| #[trigger] copy.inverse@.contains_key(k) implies {
                &&& 1 <= copy.inverse@[k] < copy.current_index
                &&& copy.table@.contains_key(copy.inverse@[k])
                &&& copy.table@[copy.inverse@[k]]@ == k
            } by {
                let j = choose|j: int| copied(es, done, j, k, copy.inverse@[k]);
                assert(self.inverse@.contains_key(k));
                assert(copy.table@.contains_key(es[j].1));
            }
            assert forall|i: usize| #[trigger] copy.table@.contains_key(i) implies {
                &&& copy.inverse@.contains_key(copy.table@[i]@)
                &&& copy.inverse@[copy.table@[i]@] == i
            } by {
                let j = choose|j: int| copied(es, done, j, copy.table@[i]@, i);
                assert(copy.inverse@.contains_key(es[j].0));
            }
        }
        copy
    }

    /// The entries of the table, each an index with its value, in the order
    /// of the underlying slots.
    pub closed spec fn entries(&self) -> Seq<(usize, V)> {
        self.table.entries()
    }

    /// The table's entries are its values under their indices: as many as
    /// the table has values, each value once.
    pub proof fn lemma_entries(&self)
        requires
            self.wf(),
        ensures
            forall|j: int|
                0 <= j < self.entries().len() ==> {
                    let e = #[trigger] self.entries()[j];
                    self.index_of().contains_key(e.1@) && self.index_of()[e.1@] == e.0
                },
            forall|k: V::V| #[trigger]
                self.index_of().contains_key(k) ==> exists|j: int|
                    0 <= j < self.entries().len() && (#[trigger] self.entries()[j]).0
                        == self.index_of()[k] && self.entries()[j].1@ == k,
            forall|i: int, j: int|
                0 <= i < self.entries().len() && 0 <= j < self.entries().len() && i != j
                    ==> self.entries()[i].0 != self.entries()[j].0,
    {
        self.table.lemma_entries();
        let es = self.entries();
        assert forall|j: int| 0 <= j < es.len() implies {
            let e = #[trigger] es[j];
            self.index_of().contains_key(e.1@) && self.index_of()[e.1@] == e.0
        } by {
            assert(self.table@.contains_key(es[j].0));
        }
        assert forall|k: V::V| #[trigger] self.index_of().contains_key(k) implies exists|j: int|
            0 <= j < es.len() && (#[trigger] es[j]).0 == self.index_of()[k] && es[j].1@ == k by {
            let i = self.inverse@[k];
            assert(self.table@.contains_key(i));
            let pair = (i, self.table@[i]);
            assert(es.contains(pair));
            let j = choose|j: int| 0 <= j < es.len() && es[j] == pair;
            assert(es[j].0 == i && es[j].1@ == k);
        }
    }

    /// The table has as many entries as values.
    pub proof fn lemma_entry_count(&self)
        requires
            self.wf(),
        ensures
            self.entries().len() == self.index_of().len(),
    {
        self.table.lemma_entries();
        self.lemma_same_size();
    }

    /// The two directions of the table hold equally many entries.
    proof fn lemma_same_size(&self)
        requires
            self.wf(),
        ensures
            self.table@.len() == self.inverse@.len(),
    {
        self.table.lemma_len_below_slots();
        self.inverse.lemma_len_below_slots();
        let f = |k: V::V| self.inverse@[k];
        let a = self.inverse@.dom();
        let b = self.table@.dom();
        assert(a.map(f) =~= b) by {
            assert forall|i: usize| a.map(f).contains(i) == b.contains(i) by {
                if b.contains(i) {
                    let k = self.table@[i]@;
                    assert(self.table@.contains_key(i));
                    assert(a.contains(k) && f(k) == i);
                }
                if a.map(f).contains(i) {
                    let k = choose|k: V::V| a.contains(k) && f(k) == i;
                    assert(self.inverse@.contains_key(k));
                }
            }
        }
        assert(vstd::relations::injective_on(f, a)) by {
            assert forall|x: V::V, y: V::V| a.contains(x) && a.contains(y) && f(x) == f(y) implies x
                == y by {
                assert(self.inverse@.contains_key(x));
                assert(self.inverse@.contains_key(y));
            }
        }
        vstd::set_lib::lemma_map_size(a, b, f);
    }

    /// An iterator over the table's entries.
    pub fn iter(&self) -> (it: HashMapIter<'_, usize, V>)
        ensures
            it.remaining() == self.entries(),
    {
        self.table.iter()
    }
}

} // verus!
