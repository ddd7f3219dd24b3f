use crate::hasher::Djb2Hasher;
use crate::key::{key_hash, Key};
use vstd::prelude::*;

verus! {

/// The number of slots of a new map.
pub const INITIAL_CAPACITY: usize = 16;

/// An occupied slot: a key, its value, and how far the slot lies behind the
/// key's home slot.
struct Entry<K, V> {
    key: K,
    value: V,
    probe_count: usize,
}

type Slots<K, V> = Seq<Option<Entry<K, V>>>;

/// An open-addressed hash map with Robin-Hood probing and backward-shift
/// removal. Its view is the mapping from the views of its keys to its values.
pub struct HashMap<K: Key, V> {
    data: Vec<Option<Entry<K, V>>>,
    capacity: usize,
    size: usize,
    model: Ghost<Map<K::V, V>>,
}

/// The slot `d` steps after slot `h`, wrapping at `cap`.
spec fn slot_after(h: int, d: int, cap: int) -> int {
    if h + d < cap {
        h + d
    } else {
        h + d - cap
    }
}

/// The slot `d` steps before slot `j`, wrapping at `cap`.
spec fn slot_before(j: int, d: int, cap: int) -> int {
    if j - d >= 0 {
        j - d
    } else {
        j - d + cap
    }
}

/// The number of steps forward from slot `from` to slot `to`.
spec fn steps_to(from: int, to: int, cap: int) -> int {
    if to >= from {
        to - from
    } else {
        to + cap - from
    }
}

/// The home slot of the key with view `k` in a table of `cap` slots.
spec fn home_slot<K: Key>(k: K::V, cap: int) -> int {
    (key_hash::<K>(k) as int) % cap
}

/// Slot `i` holds the key with view `k`.
spec fn holds<K: Key, V>(s: Slots<K, V>, i: int, k: K::V) -> bool {
    0 <= i < s.len() && s[i] is Some && s[i]->0.key@ == k
}

/// The probe count of slot `i` if it is occupied, else -1.
spec fn probe_of<K: Key, V>(s: Slots<K, V>, i: int) -> int {
    if s[i] is Some {
        s[i]->0.probe_count as int
    } else {
        -1
    }
}

/// An occupied slot lies exactly its probe count behind its key's home slot.
spec fn placed<K: Key, V>(s: Slots<K, V>, i: int) -> bool {
    s[i] is Some ==> {
        &&& probe_of(s, i) < s.len()
        &&& i == slot_after(home_slot::<K>(s[i]->0.key@, s.len() as int), probe_of(s, i), s.len() as int)
    }
}

/// No entry sits later than its predecessor allows: a displaced entry follows
/// an entry that is displaced at most one step less.
spec fn ordered<K: Key, V>(s: Slots<K, V>, i: int) -> bool {
    probe_of(s, i) > 0 ==> probe_of(s, slot_before(i, 1, s.len() as int)) + 1 >= probe_of(s, i)
}

spec fn all_placed<K: Key, V>(s: Slots<K, V>) -> bool {
    forall|i: int| 0 <= i < s.len() ==> #[trigger] placed(s, i)
}

spec fn all_ordered<K: Key, V>(s: Slots<K, V>) -> bool {
    forall|i: int| 0 <= i < s.len() ==> #[trigger] ordered(s, i)
}

spec fn distinct_keys<K: Key, V>(s: Slots<K, V>) -> bool {
    forall|i: int, j: int, k: K::V| #[trigger] holds(s, i, k) && #[trigger] holds(s, j, k) ==> i == j
}

/// Every occupied slot is an entry of `m`.
spec fn slots_in_map<K: Key, V>(s: Slots<K, V>, m: Map<K::V, V>) -> bool {
    forall|i: int|
        0 <= i < s.len() && (#[trigger] s[i]) is Some ==> m.contains_key(s[i]->0.key@) && m[s[i]->0.key@]
            == s[i]->0.value
}

/// Every key of `m` sits in some slot.
spec fn map_in_slots<K: Key, V>(s: Slots<K, V>, m: Map<K::V, V>) -> bool {
    forall|k: K::V| #[trigger] m.contains_key(k) ==> exists|i: int| holds(s, i, k)
}

/// The occupied slots in slot order, each as the view of its key and its value.
spec fn live_entries<K: Key, V>(s: Slots<K, V>) -> Seq<(K::V, V)>
    decreases s.len(),
{
    if s.len() == 0 {
        Seq::empty()
    } else {
        match s[0] {
            Some(e) => seq![(e.key@, e.value)] + live_entries(s.drop_first()),
            None => live_entries(s.drop_first()),
        }
    }
}

/// The number of occupied slots.
spec fn occupied<K: Key, V>(s: Slots<K, V>) -> nat {
    live_entries(s).len()
}

/// No key occurs twice in `es`.
spec fn keys_once<A, B>(es: Seq<(A, B)>) -> bool {
    forall|i: int, j: int| 0 <= i < es.len() && 0 <= j < es.len() && i != j ==> es[i].0 != es[j].0
}

proof fn lemma_occupied_bound<K: Key, V>(s: Slots<K, V>)
    ensures
        occupied(s) <= s.len(),
        occupied(s) < s.len() ==> exists|i: int| 0 <= i < s.len() && (#[trigger] s[i]) is None,
    decreases s.len(),
{
    if s.len() > 0 {
        let t = s.drop_first();
        lemma_occupied_bound(t);
        if occupied(s) < s.len() {
            if s[0] is None {
            } else {
                let i = choose|i: int| 0 <= i < t.len() && (#[trigger] t[i]) is None;
                assert(s[i + 1] is None);
            }
        }
    }
}

proof fn lemma_occupied_update<K: Key, V>(s: Slots<K, V>, i: int, x: Option<Entry<K, V>>)
    requires
        0 <= i < s.len(),
    ensures
        occupied(s.update(i, x)) + (if s[i] is Some {
            1nat
        } else {
            0nat
        }) == occupied(s) + (if x is Some {
            1nat
        } else {
            0nat
        }),
    decreases s.len(),
{
    let u = s.update(i, x);
    if i == 0 {
        assert(u.drop_first() =~= s.drop_first());
    } else {
        assert(u.drop_first() =~= s.drop_first().update(i - 1, x));
        lemma_occupied_update(s.drop_first(), i - 1, x);
    }
}

proof fn lemma_occupied_all_none<K: Key, V>(s: Slots<K, V>)
    requires
        forall|i: int| 0 <= i < s.len() ==> (#[trigger] s[i]) is None,
    ensures
        live_entries(s) == Seq::<(K::V, V)>::empty(),
        occupied(s) == 0,
    decreases s.len(),
{
    if s.len() > 0 {
        let t = s.drop_first();
        assert forall|i: int| 0 <= i < t.len() implies (#[trigger] t[i]) is None by {
            assert(s[i + 1] is None);
        }
        lemma_occupied_all_none(t);
    }
}

/// Some slot holds the key and the value of `e`.
spec fn sits_in<K: Key, V>(s: Slots<K, V>, e: (K::V, V)) -> bool {
    exists|i: int| holds(s, i, e.0) && s[i]->0.value == e.1
}

/// The live entries are the occupied slots: each entry sits in a slot, each
/// occupied slot is an entry, and no key occurs twice among them if none
/// does among the slots.
proof fn lemma_live_entries<K: Key, V>(s: Slots<K, V>)
    ensures
        forall|j: int| 0 <= j < live_entries(s).len() ==> sits_in(s, #[trigger] live_entries(s)[j]),
        forall|i: int|
            0 <= i < s.len() && (#[trigger] s[i]) is Some ==> live_entries(s).contains(
                (s[i]->0.key@, s[i]->0.value),
            ),
        distinct_keys(s) ==> keys_once(live_entries(s)),
    decreases s.len(),
{
    if s.len() > 0 {
        let t = s.drop_first();
        let es = live_entries(s);
        let et = live_entries(t);
        lemma_live_entries(t);
        let shift: int = if s[0] is Some {
            1
        } else {
            0
        };
        assert(es.len() == et.len() + shift);
        assert forall|j: int| shift <= j < es.len() implies es[j] == et[j - shift] by {}
        assert forall|j: int| 0 <= j < es.len() implies sits_in(s, #[trigger] es[j]) by {
            if j < shift {
                assert(holds(s, 0, es[j].0) && s[0]->0.value == es[j].1);
            } else {
                let e = et[j - shift];
                assert(sits_in(t, e));
                let i = choose|i: int| holds(t, i, e.0) && t[i]->0.value == e.1;
                assert(holds(s, i + 1, es[j].0) && s[i + 1]->0.value == es[j].1);
            }
        }
        assert forall|i: int| 0 <= i < s.len() && (#[trigger] s[i]) is Some implies es.contains(
            (s[i]->0.key@, s[i]->0.value),
        ) by {
            if i == 0 {
                assert(es[0] == (s[i]->0.key@, s[i]->0.value));
            } else {
                assert(t[i - 1] is Some);
                let pair = (s[i]->0.key@, s[i]->0.value);
                assert(et.contains(pair));
                let j = choose|j: int| 0 <= j < et.len() && et[j] == pair;
                assert(es[j + shift] == pair);
            }
        }
        if distinct_keys(s) {
            assert(distinct_keys(t)) by {
                assert forall|i: int, j: int, k: K::V| #[trigger]
                    holds(t, i, k) && #[trigger] holds(t, j, k) implies i == j by {
                    assert(holds(s, i + 1, k) && holds(s, j + 1, k));
                }
            }
            assert forall|a: int, b: int|
                0 <= a < es.len() && 0 <= b < es.len() && a != b implies es[a].0 != es[b].0 by {
                if a >= shift && b >= shift {
                    assert(et[a - shift].0 != et[b - shift].0);
                } else {
                    let lo = if a < b {
                        a
                    } else {
                        b
                    };
                    let hi = if a < b {
                        b
                    } else {
                        a
                    };
                    let e = et[hi - shift];
                    assert(es[hi] == e);
                    assert(sits_in(t, e));
                    let i = choose|i: int| holds(t, i, e.0) && t[i]->0.value == e.1;
                    assert(holds(s, i + 1, e.0));
                    if es[a].0 == es[b].0 {
                        assert(holds(s, 0, e.0));
                    }
                }
            }
        }
    } else {
        assert(live_entries(s).len() == 0);
    }
}

/// Walking back from an occupied slot, each slot up to the entry's home is
/// occupied by an entry displaced at least as far as the walk has left to go.
proof fn lemma_chain<K: Key, V>(s: Slots<K, V>, j: int, t: int)
    requires
        all_placed(s),
        all_ordered(s),
        0 <= j < s.len(),
        0 <= t <= probe_of(s, j),
    ensures
        probe_of(s, slot_before(j, t, s.len() as int)) >= probe_of(s, j) - t,
    decreases t,
{
    let cap = s.len() as int;
    assert(placed(s, j));
    if t > 0 {
        lemma_chain(s, j, t - 1);
        let i = slot_before(j, t - 1, cap);
        assert(ordered(s, i));
        assert(slot_before(i, 1, cap) == slot_before(j, t, cap));
    }
}

/// A probe for `k` that has come `d` steps from the home slot without meeting
/// `k`, and now stands on an empty slot or on an entry displaced less than
/// `d`, shows that no slot holds `k`.
proof fn lemma_probe_ends<K: Key, V>(s: Slots<K, V>, k: K::V, d: int)
    requires
        all_placed(s),
        all_ordered(s),
        s.len() > 0,
        0 <= d <= s.len(),
        probe_of(s, slot_after(home_slot::<K>(k, s.len() as int), d, s.len() as int)) < d,
        forall|e: int|
            0 <= e < d ==> !holds(s, #[trigger] slot_after(home_slot::<K>(k, s.len() as int), e, s.len() as int), k),
    ensures
        forall|i: int| !holds(s, i, k),
{
    let cap = s.len() as int;
    let h = home_slot::<K>(k, cap);
    assert forall|i: int| !holds(s, i, k) by {
        if holds(s, i, k) {
            assert(placed(s, i));
            let p = probe_of(s, i);
            assert(i == slot_after(h, p, cap));
            if p < d {
                assert(!holds(s, slot_after(h, p, cap), k));
            } else {
                lemma_chain(s, i, p - d);
                assert(slot_before(i, p - d, cap) == slot_after(h, d, cap));
            }
        }
    }
}

impl<K: Key, V> HashMap<K, V> {
    /// The mapping that the map holds.
    pub closed spec fn view(&self) -> Map<K::V, V> {
        self.model@
    }

    /// The number of slots.
    pub closed spec fn slot_count(&self) -> nat {
        self.capacity as nat
    }

    /// The live entries in slot order: the order of iteration.
    pub closed spec fn entries(&self) -> Seq<(K::V, V)> {
        live_entries(self.data@)
    }

    /// The map's invariant.
    pub closed spec fn wf(&self) -> bool {
        &&& self.data@.len() == self.capacity
        &&& self.capacity >= INITIAL_CAPACITY
        &&& self.capacity % 4 == 0
        &&& self.size < self.capacity
        &&& self.size == occupied(self.data@)
        &&& all_placed(self.data@)
        &&& all_ordered(self.data@)
        &&& distinct_keys(self.data@)
        &&& slots_in_map(self.data@, self.model@)
        &&& map_in_slots(self.data@, self.model@)
        &&& self.model@.dom().finite()
        &&& self.model@.dom().len() == self.size
    }

    /// A well-formed map has at least one more slot than entries.
    pub proof fn lemma_len_below_slots(&self)
        requires
            self.wf(),
        ensures
            self@.dom().finite(),
            self@.len() < self.slot_count(),
            self.slot_count() >= 16,
    {
    }

    /// Creates an empty map of 16 slots.
    pub fn new() -> (map: Self)
        ensures
            map.wf(),
            map@ == Map::<K::V, V>::empty(),
            map.slot_count() == 16,
    {
        let data = vector::<Entry<K, V>>(INITIAL_CAPACITY);
        proof {
            lemma_occupied_all_none(data@);
        }
        HashMap { data, capacity: INITIAL_CAPACITY, size: 0, model: Ghost(Map::empty()) }
    }

    /// The home slot of `key`: its hash modulo the number of slots.
    fn hash(&self, key: &K) -> (index: usize)
        requires
            self.capacity > 0,
        ensures
            index == home_slot::<K>(key@, self.capacity as int),
            index < self.capacity,
    {
        let mut hasher = Djb2Hasher::new();
        key.feed(&mut hasher);
        (hasher.finish() % (self.capacity as u64)) as usize
    }

    /// The number of live entries.
    pub fn size(&self) -> (n: usize)
        requires
            self.wf(),
        ensures
            n == self@.len(),
    {
        self.size
    }

    /// The number of live entries.
    pub fn len(&self) -> (n: usize)
        requires
            self.wf(),
        ensures
            n == self@.len(),
    {
        self.size
    }

    /// The slot that holds `key`, if any does.
    fn find(&self, key: &K) -> (found: Option<usize>)
        requires
            self.wf(),
        ensures
            match found {
                Some(i) => holds(self.data@, i as int, key@),
                None => forall|i: int| !holds(self.data@, i, key@),
            },
    {
        let cap = self.capacity;
        let ghost h = home_slot::<K>(key@, cap as int);
        let mut index = self.hash(key);
        let mut probe_count: usize = 0;
        while probe_count < cap
            invariant
                self.wf(),
                cap == self.capacity,
                h == home_slot::<K>(key@, cap as int),
                0 <= h < cap,
                probe_count <= cap,
                index < cap,
                index == slot_after(h, probe_count as int, cap as int),
                forall|e: int|
                    0 <= e < probe_count ==> !holds(
                        self.data@,
                        #[trigger] slot_after(h, e, cap as int),
                        key@,
                    ),
            decreases cap - probe_count,
        {
            match &self.data[index] {
                None => {
                    proof {
                        lemma_probe_ends::<K, V>(self.data@, key@, probe_count as int);
                    }
                    return None;
                },
                Some(entry) => {
                    if probe_count > entry.probe_count {
                        proof {
                            lemma_probe_ends::<K, V>(self.data@, key@, probe_count as int);
                        }
                        return None;
                    }
                    if entry.key.same(key) {
                        return Some(index);
                    }
                },
            }
            probe_count += 1;
            index = if index + 1 == cap {
                0
            } else {
                index + 1
            };
        }
        proof {
            assert(placed(self.data@, index as int));
            lemma_probe_ends::<K, V>(self.data@, key@, probe_count as int);
        }
        None
    }

    /// The value stored for `key`, if the map holds the key.
    pub fn get(&self, key: &K) -> (value: Option<&V>)
        requires
            self.wf(),
        ensures
            match value {
                Some(v) => self@.contains_key(key@) && *v == self@[key@],
                None => !self@.contains_key(key@),
            },
    {
        match self.find(key) {
            Some(index) => {
                match &self.data[index] {
                    Some(entry) => Some(&entry.value),
                    None => None,
                }
            },
            None => None,
        }
    }

    /// Stores `value` for `key` without growing the table.
    fn insert_entry(&mut self, key: K, value: V)
        requires
            old(self).wf(),
            old(self).size + 1 < old(self).capacity,
        ensures
            final(self).wf(),
            final(self)@ == old(self)@.insert(key@, value),
            final(self).capacity == old(self).capacity,
    {
        let cap = self.capacity;
        let ghost k0 = key@;
        let ghost v0 = value;
        let ghost before = self.data@;
        let ghost target = self.model@.insert(k0, v0);
        let ghost h0 = home_slot::<K>(k0, cap as int);
        let ghost mut displaced = false;
        let ghost mut gap: int = 0;
        proof {
            lemma_occupied_bound(self.data@);
            gap = choose|i: int| 0 <= i < self.data@.len() && (#[trigger] self.data@[i]) is None;
        }
        let mut index = self.hash(&key);
        let mut entry = Entry { key, value, probe_count: 0 };
        loop
            invariant
                cap == self.capacity,
                self.capacity == old(self).capacity,
                self.size == old(self).size,
                self.model@ == old(self).model@,
                old(self).wf(),
                k0 == key@,
                v0 == value,
                before == old(self).data@,
                target == old(self).model@.insert(k0, v0),
                h0 == home_slot::<K>(k0, cap as int),
                self.data@.len() == cap,
                index < cap,
                0 <= gap < cap,
                self.data@[gap] is None,
                entry.probe_count + steps_to(index as int, gap, cap as int) < cap,
                index == slot_after(
                    home_slot::<K>(entry.key@, cap as int),
                    entry.probe_count as int,
                    cap as int,
                ),
                all_placed(self.data@),
                all_ordered(self.data@),
                distinct_keys(self.data@),
                self.size == occupied(self.data@),
                entry.probe_count > 0 ==> probe_of(
                    self.data@,
                    slot_before(index as int, 1, cap as int),
                ) + 1 >= entry.probe_count,
                !displaced ==> {
                    &&& self.data@ == before
                    &&& entry.key@ == k0
                    &&& entry.value == v0
                    &&& forall|e: int|
                        0 <= e < entry.probe_count ==> !holds(
                            before,
                            #[trigger] slot_after(h0, e, cap as int),
                            k0,
                        )
                },
                displaced ==> {
                    &&& !old(self).model@.contains_key(k0)
                    &&& slots_in_map(self.data@, target)
                    &&& target.contains_key(entry.key@)
                    &&& target[entry.key@] == entry.value
                    &&& forall|i: int| !holds(self.data@, i, entry.key@)
                    &&& forall|k: K::V| #[trigger]
                        target.contains_key(k) ==> k == entry.key@ || exists|i: int|
                            holds(self.data@, i, k)
                },
            ensures
                self.data@[index as int] is None,
            decreases steps_to(index as int, gap, cap as int),
        {
            let ghost slots = self.data@;
            let resident: Option<usize> = match &self.data[index] {
                Some(existing) => Some(existing.probe_count),
                None => None,
            };
            if resident.is_none() {
                break ;
            }
            let resident_count = resident.unwrap();
            let mut swapped = false;
            if resident_count < entry.probe_count {
                let ghost carried = entry;
                match &mut self.data[index] {
                    Some(existing) => {
                        std::mem::swap(existing, &mut entry);
                    },
                    None => {},
                }
                swapped = true;
                proof {
                    let now = self.data@;
                    assert(now == slots.update(index as int, Some(carried)));
                    assert(entry == slots[index as int]->0);
                    lemma_occupied_update(slots, index as int, Some(carried));
                    assert(placed(slots, index as int));
                    if !displaced {
                        lemma_probe_ends::<K, V>(before, k0, carried.probe_count as int);
                        assert(!old(self).model@.contains_key(k0)) by {
                            if old(self).model@.contains_key(k0) {
                                let i = choose|i: int| holds(before, i, k0);
                                assert(holds(before, i, k0));
                            }
                        }
                    }
                    assert forall|i: int| !holds(now, i, entry.key@) by {
                        if holds(now, i, entry.key@) {
                            if i == index {
                                assert(holds(slots, index as int, entry.key@));
                                if displaced {
                                } else {
                                    assert(holds(before, index as int, k0));
                                }
                            } else {
                                assert(holds(slots, i, entry.key@));
                                assert(holds(slots, index as int, entry.key@));
                            }
                        }
                    }
                    assert(all_placed(now)) by {
                        assert forall|i: int| 0 <= i < now.len() implies #[trigger] placed(now, i) by {
                            if i != index {
                                assert(placed(slots, i));
                            }
                        }
                    }
                    assert(all_ordered(now)) by {
                        assert forall|i: int| 0 <= i < now.len() implies #[trigger] ordered(
                            now,
                            i,
                        ) by {
                            assert(ordered(slots, i));
                        }
                    }
                    assert(distinct_keys(now)) by {
                        assert forall|i: int, j: int, k: K::V| #[trigger]
                            holds(now, i, k) && #[trigger] holds(now, j, k) implies i == j by {
                            if i != j {
                                if i == index {
                                    assert(holds(slots, j, k));
                                } else if j == index {
                                    assert(holds(slots, i, k));
                                } else {
                                    assert(holds(slots, i, k) && holds(slots, j, k));
                                }
                            }
                        }
                    }
                    assert(slots_in_map(now, target)) by {
                        assert forall|i: int| 0 <= i < now.len() && (#[trigger] now[i]) is Some implies target.contains_key(
                            now[i]->0.key@,
                        ) && target[now[i]->0.key@] == now[i]->0.value by {
                            if i != index {
                                assert(slots[i] is Some);
                                assert(holds(slots, i, slots[i]->0.key@));
                            }
                        }
                    }
                    assert(slots[index as int] is Some);
                    assert(target.contains_key(entry.key@) && target[entry.key@] == entry.value);
                    assert forall|k: K::V| #[trigger] target.contains_key(k) implies k
                        == entry.key@ || exists|i: int| holds(now, i, k) by {
                        if k != entry.key@ {
                            if k == carried.key@ {
                                assert(holds(now, index as int, k));
                            } else {
                                if displaced {
                                    let i = choose|i: int| holds(slots, i, k);
                                    assert(holds(slots, i, k));
                                    assert(holds(now, i, k));
                                } else {
                                    assert(old(self).model@.contains_key(k));
                                    let i = choose|i: int| holds(before, i, k);
                                    assert(holds(before, i, k));
                                    assert(holds(now, i, k));
                                }
                            }
                        }
                    }
                    displaced = true;
                }
            }
            let matches = !swapped && match &self.data[index] {
                Some(existing) => existing.key.same(&entry.key),
                None => false,
            };
            if matches {
                proof {
                    assert(holds(self.data@, index as int, entry.key@));
                    assert(!displaced);
                }
                let ghost slots = self.data@;
                match &mut self.data[index] {
                    Some(existing) => {
                        existing.value = entry.value;
                    },
                    None => {},
                }
                proof {
                    let now = self.data@;
                    let stored = now[index as int];
                    assert(now == slots.update(index as int, stored));
                    lemma_occupied_update(slots, index as int, stored);
                    assert(old(self).model@.contains_key(k0));
                    assert(target.dom() =~= old(self).model@.dom());
                    assert(all_placed(now)) by {
                        assert forall|i: int| 0 <= i < now.len() implies #[trigger] placed(now, i) by {
                            assert(placed(slots, i));
                        }
                    }
                    assert(all_ordered(now)) by {
                        assert forall|i: int| 0 <= i < now.len() implies #[trigger] ordered(
                            now,
                            i,
                        ) by {
                            assert(ordered(slots, i));
                        }
                    }
                    assert(distinct_keys(now)) by {
                        assert forall|i: int, j: int, k: K::V| #[trigger]
                            holds(now, i, k) && #[trigger] holds(now, j, k) implies i == j by {
                            assert(holds(slots, i, k) && holds(slots, j, k));
                        }
                    }
                    assert(slots_in_map(now, target)) by {
                        assert forall|i: int| 0 <= i < now.len() && (#[trigger] now[i]) is Some implies target.contains_key(
                            now[i]->0.key@,
                        ) && target[now[i]->0.key@] == now[i]->0.value by {
                            if i != index {
                                assert(slots[i] is Some);
                                assert(holds(slots, i, slots[i]->0.key@));
                                assert(holds(slots, index as int, k0));
                            }
                        }
                    }
                    assert(map_in_slots(now, target)) by {
                        assert forall|k: K::V| #[trigger] target.contains_key(k) implies exists|
                            i: int,
                        |
                            holds(now, i, k) by {
                            assert(old(self).model@.contains_key(k));
                            let i = choose|i: int| holds(slots, i, k);
                            assert(holds(slots, i, k));
                            assert(holds(now, i, k));
                        }
                    }
                }
                self.model = Ghost(target);
                return ;
            }
            proof {
                if !displaced {
                    assert(!holds(before, index as int, k0));
                }
                assert(self.data@[index as int] is Some);
                assert(index != gap);
            }
            entry.probe_count += 1;
            index = if index + 1 == cap {
                0
            } else {
                index + 1
            };
        }
        let ghost slots = self.data@;
        let ghost placed_entry = entry;
        self.data[index] = Some(entry);
        self.size += 1;
        self.model = Ghost(target);
        proof {
            let now = self.data@;
            assert(now == slots.update(index as int, Some(placed_entry)));
            lemma_occupied_update(slots, index as int, Some(placed_entry));
            if !displaced {
                lemma_probe_ends::<K, V>(before, k0, placed_entry.probe_count as int);
                assert(!old(self).model@.contains_key(k0)) by {
                    if old(self).model@.contains_key(k0) {
                        let i = choose|i: int| holds(before, i, k0);
                        assert(holds(before, i, k0));
                    }
                }
            }
            assert(target.dom() =~= old(self).model@.dom().insert(k0));
            assert(all_placed(now)) by {
                assert forall|i: int| 0 <= i < now.len() implies #[trigger] placed(now, i) by {
                    if i != index {
                        assert(placed(slots, i));
                    }
                }
            }
            assert(all_ordered(now)) by {
                assert forall|i: int| 0 <= i < now.len() implies #[trigger] ordered(now, i) by {
                    assert(ordered(slots, i));
                }
            }
            assert(distinct_keys(now)) by {
                assert forall|i: int, j: int, k: K::V| #[trigger]
                    holds(now, i, k) && #[trigger] holds(now, j, k) implies i == j by {
                    if i != j {
                        if i == index {
                            assert(holds(slots, j, k));
                        } else if j == index {
                            assert(holds(slots, i, k));
                        } else {
                            assert(holds(slots, i, k) && holds(slots, j, k));
                        }
                    }
                }
            }
            assert(slots_in_map(now, target)) by {
                assert forall|i: int| 0 <= i < now.len() && (#[trigger] now[i]) is Some implies target.contains_key(
                    now[i]->0.key@,
                ) && target[now[i]->0.key@] == now[i]->0.value by {
                    if i != index {
                        assert(slots[i] is Some);
                        assert(holds(slots, i, slots[i]->0.key@));
                    }
                }
            }
            assert(map_in_slots(now, target)) by {
                assert forall|k: K::V| #[trigger] target.contains_key(k) implies exists|i: int|
                    holds(now, i, k) by {
                    if k == placed_entry.key@ {
                        assert(holds(now, index as int, k));
                    } else if displaced {
                        let i = choose|i: int| holds(slots, i, k);
                        assert(holds(slots, i, k));
                        assert(holds(now, i, k));
                    } else {
                        assert(old(self).model@.contains_key(k));
                        let i = choose|i: int| holds(before, i, k);
                        assert(holds(before, i, k));
                        assert(holds(now, i, k));
                    }
                }
            }
        }
    }

    /// Doubles the number of slots and places every entry anew.
    fn resize(&mut self)
        requires
            old(self).wf(),
            old(self).capacity <= usize::MAX / 2,
        ensures
            final(self).wf(),
            final(self)@ == old(self)@,
            final(self).capacity == 2 * old(self).capacity,
    {
        let old_capacity = self.capacity;
        let new_capacity = old_capacity * 2;
        let ghost before = self.data@;
        let mut old_data = vector::<Entry<K, V>>(new_capacity);
        std::mem::swap(&mut self.data, &mut old_data);
        self.capacity = new_capacity;
        self.size = 0;
        self.model = Ghost(Map::empty());
        proof {
            lemma_occupied_all_none(self.data@);
        }
        let mut i: usize = 0;
        while i < old_capacity
            invariant
                old(self).wf(),
                before == old(self).data@,
                old_capacity == old(self).capacity,
                new_capacity == 2 * old_capacity,
                i <= old_capacity,
                old_data@.len() == old_capacity,
                forall|j: int| i <= j < old_capacity ==> old_data@[j] == before[j],
                self.wf(),
                self.capacity == new_capacity,
                self.size <= i,
                forall|j: int|
                    0 <= j < i && (#[trigger] before[j]) is Some ==> self.model@.contains_key(
                        before[j]->0.key@,
                    ) && self.model@[before[j]->0.key@] == before[j]->0.value,
                forall|k: K::V| #[trigger]
                    self.model@.contains_key(k) ==> exists|j: int| 0 <= j < i && holds(before, j, k),
            decreases old_capacity - i,
        {
            let ghost earlier = self.model@;
            match old_data[i].take() {
                Some(entry) => {
                    proof {
                        assert(before[i as int] == Some(entry));
                        assert(holds(before, i as int, entry.key@));
                    }
                    self.insert_entry(entry.key, entry.value);
                    proof {
                        assert forall|j: int|
                            0 <= j < i + 1 && (#[trigger] before[j]) is Some implies self.model@.contains_key(
                            before[j]->0.key@,
                        ) && self.model@[before[j]->0.key@] == before[j]->0.value by {
                            if j < i {
                                assert(holds(before, j, before[j]->0.key@));
                            }
                        }
                        assert forall|k: K::V| #[trigger] self.model@.contains_key(k) implies exists|
                            j: int,
                        |
                            0 <= j < i + 1 && holds(before, j, k) by {
                            if k == entry.key@ {
                                assert(holds(before, i as int, k));
                            } else {
                                assert(earlier.contains_key(k));
                                let j = choose|j: int| 0 <= j < i && holds(before, j, k);
                                assert(0 <= j < i + 1 && holds(before, j, k));
                            }
                        }
                    }
                },
                None => {},
            }
            i += 1;
        }
        proof {
            let m = self.model@;
            let o = old(self).model@;
            assert forall|k: K::V| m.contains_key(k) == o.contains_key(k) by {
                if m.contains_key(k) {
                    let j = choose|j: int| 0 <= j < i && holds(before, j, k);
                    assert(before[j] is Some);
                }
                if o.contains_key(k) {
                    let j = choose|j: int| holds(before, j, k);
                    assert(before[j] is Some);
                }
            }
            assert forall|k: K::V| m.contains_key(k) implies m[k] == o[k] by {
                let j = choose|j: int| 0 <= j < i && holds(before, j, k);
                assert(before[j] is Some);
            }
            assert(m.dom() =~= o.dom());
            assert(m =~= o);
        }
    }

    /// Stores `value` for `key`, replacing the value that `key` had. The table
    /// doubles first when three quarters of its slots are taken.
    pub fn insert(&mut self, key: K, value: V)
        requires
            old(self).wf(),
            old(self)@.len() < usize::MAX / 2,
        ensures
            final(self).wf(),
            final(self)@ == old(self)@.insert(key@, value),
            final(self).slot_count() == if 4 * old(self)@.len() >= 3 * old(self).slot_count()
                && old(self).slot_count() <= usize::MAX / 2 {
                2 * old(self).slot_count()
            } else {
                old(self).slot_count()
            },
    {
        if self.size >= self.capacity - self.capacity / 4 && self.capacity <= usize::MAX / 2 {
            self.resize();
        }
        self.insert_entry(key, value);
    }

    /// Stores `value` for `key`, as `insert` does.
    pub fn put(&mut self, key: K, value: V)
        requires
            old(self).wf(),
            old(self)@.len() < usize::MAX / 2,
        ensures
            final(self).wf(),
            final(self)@ == old(self)@.insert(key@, value),
            final(self).slot_count() == if 4 * old(self)@.len() >= 3 * old(self).slot_count()
                && old(self).slot_count() <= usize::MAX / 2 {
                2 * old(self).slot_count()
            } else {
                old(self).slot_count()
            },
    {
        self.insert(key, value);
    }

    /// Removes `key` and its value, then shifts the entries that follow back
    /// by one slot, up to the first empty slot or entry in its home slot.
    pub fn remove(&mut self, key: &K)
        requires
            old(self).wf(),
        ensures
            final(self).wf(),
            final(self)@ == old(self)@.remove(key@),
            final(self).slot_count() == old(self).slot_count(),
    {
        let cap = self.capacity;
        let ghost before = self.data@;
        let ghost target = self.model@.remove(key@);
        let start = match self.find(key) {
            Some(index) => index,
            None => {
                proof {
                    if self.model@.contains_key(key@) {
                        let i = choose|i: int| holds(before, i, key@);
                        assert(holds(before, i, key@));
                    }
                    assert(target =~= self.model@);
                }
                return ;
            },
        };
        let ghost mut gap: int = 0;
        proof {
            lemma_occupied_bound(before);
            gap = choose|i: int| 0 <= i < before.len() && (#[trigger] before[i]) is None;
            lemma_occupied_update(before, start as int, None);
            assert(self.model@.contains_key(key@));
            assert(target.dom() =~= self.model@.dom().remove(key@));
        }
        self.data[start] = None;
        self.size -= 1;
        self.model = Ghost(target);
        let ghost reach = steps_to(start as int, gap, cap as int);
        let ghost mut shifts: int = 0;
        let ghost mut left_probe: int = probe_of(before, start as int);
        let mut hole = start;
        let mut next = if start + 1 == cap {
            0
        } else {
            start + 1
        };
        proof {
            let now = self.data@;
            assert(now == before.update(start as int, None));
            assert(all_placed(now)) by {
                assert forall|i: int| 0 <= i < now.len() implies #[trigger] placed(now, i) by {
                    assert(placed(before, i));
                }
            }
            assert forall|i: int| 0 <= i < cap && i != next implies #[trigger] ordered(now, i) by {
                assert(ordered(before, i));
            }
            assert(distinct_keys(now)) by {
                assert forall|i: int, j: int, k: K::V| #[trigger]
                    holds(now, i, k) && #[trigger] holds(now, j, k) implies i == j by {
                    assert(holds(before, i, k) && holds(before, j, k));
                }
            }
            assert(slots_in_map(now, target)) by {
                assert forall|i: int| 0 <= i < now.len() && (#[trigger] now[i]) is Some implies target.contains_key(
                    now[i]->0.key@,
                ) && target[now[i]->0.key@] == now[i]->0.value by {
                    assert(before[i] is Some);
                    assert(holds(before, i, before[i]->0.key@));
                    assert(holds(before, start as int, key@));
                }
            }
            assert(map_in_slots(now, target)) by {
                assert forall|k: K::V| #[trigger] target.contains_key(k) implies exists|i: int|
                    holds(now, i, k) by {
                    assert(old(self).model@.contains_key(k));
                    let i = choose|i: int| holds(before, i, k);
                    assert(holds(before, i, k));
                    assert(holds(now, i, k));
                }
            }
            assert(ordered(before, start as int));
            assert(ordered(before, next as int));
        }
        loop
            invariant
                old(self).wf(),
                before == old(self).data@,
                cap == self.capacity,
                cap == old(self).capacity,
                self.model@ == target,
                target.dom().finite(),
                target.dom().len() == self.size,
                self.data@.len() == cap,
                cap >= INITIAL_CAPACITY,
                cap % 4 == 0,
                self.size < cap,
                start < cap,
                hole < cap,
                next < cap,
                0 <= gap < cap,
                before[gap] is None,
                reach == steps_to(start as int, gap, cap as int),
                0 <= shifts < reach,
                hole == slot_after(start as int, shifts, cap as int),
                next == slot_after(start as int, shifts + 1, cap as int),
                forall|e: int|
                    shifts < e < cap ==> self.data@[#[trigger] slot_after(start as int, e, cap as int)]
                        == before[slot_after(start as int, e, cap as int)],
                self.data@[hole as int] is None,
                left_probe == probe_of(before, hole as int),
                left_probe > 0 ==> probe_of(self.data@, slot_before(hole as int, 1, cap as int)) + 1
                    >= left_probe,
                all_placed(self.data@),
                forall|i: int| 0 <= i < cap && i != next ==> #[trigger] ordered(self.data@, i),
                distinct_keys(self.data@),
                slots_in_map(self.data@, target),
                map_in_slots(self.data@, target),
                self.size == occupied(self.data@),
            ensures
                probe_of(self.data@, next as int) <= 0,
            decreases reach - shifts,
        {
            let ghost slots = self.data@;
            proof {
                assert(slots[next as int] == before[next as int]) by {
                    assert(slot_after(start as int, shifts + 1, cap as int) == next);
                }
            }
            let moves = match &self.data[next] {
                Some(entry) => entry.probe_count > 0,
                None => false,
            };
            if !moves {
                break ;
            }
            let taken = self.data[next].take();
            match taken {
                Some(mut entry) => {
                    let ghost moved = entry;
                    entry.probe_count -= 1;
                    let ghost shifted = entry;
                    self.data[hole] = Some(entry);
                    proof {
                        let mid = slots.update(next as int, None);
                        let now = self.data@;
                        assert(now == mid.update(hole as int, Some(shifted)));
                        lemma_occupied_update(slots, next as int, None);
                        lemma_occupied_update(mid, hole as int, Some(shifted));
                        assert(placed(slots, next as int));
                        assert(ordered(before, next as int));
                        assert(slot_before(next as int, 1, cap as int) == hole);
                        assert(next != gap);
                        assert(all_placed(now)) by {
                            assert forall|i: int| 0 <= i < now.len() implies #[trigger] placed(
                                now,
                                i,
                            ) by {
                                assert(placed(slots, i));
                            }
                        }
                        let after = slot_after(start as int, shifts + 2, cap as int);
                        assert forall|i: int| 0 <= i < cap && i != after implies #[trigger] ordered(
                            now,
                            i,
                        ) by {
                            if i != next && i != hole {
                                assert(ordered(slots, i));
                            }
                        }
                        assert(distinct_keys(now)) by {
                            assert forall|i: int, j: int, k: K::V| #[trigger]
                                holds(now, i, k) && #[trigger] holds(now, j, k) implies i == j by {
                                if i != j {
                                    if i == hole {
                                        assert(holds(slots, next as int, k));
                                        assert(holds(slots, j, k));
                                    } else if j == hole {
                                        assert(holds(slots, next as int, k));
                                        assert(holds(slots, i, k));
                                    } else {
                                        assert(holds(slots, i, k) && holds(slots, j, k));
                                    }
                                }
                            }
                        }
                        assert(slots_in_map(now, target)) by {
                            assert forall|i: int|
                                0 <= i < now.len() && (#[trigger] now[i]) is Some implies target.contains_key(
                                now[i]->0.key@,
                            ) && target[now[i]->0.key@] == now[i]->0.value by {
                                if i == hole {
                                    assert(slots[next as int] is Some);
                                } else {
                                    assert(slots[i] is Some);
                                }
                            }
                        }
                        assert(map_in_slots(now, target)) by {
                            assert forall|k: K::V| #[trigger] target.contains_key(k) implies exists|
                                i: int,
                            |
                                holds(now, i, k) by {
                                let i = choose|i: int| holds(slots, i, k);
                                assert(holds(slots, i, k));
                                if i == next {
                                    assert(holds(now, hole as int, k));
                                } else {
                                    assert(holds(now, i, k));
                                }
                            }
                        }
                        assert forall|e: int| shifts + 1 < e < cap implies now[#[trigger] slot_after(
                            start as int,
                            e,
                            cap as int,
                        )] == before[slot_after(start as int, e, cap as int)] by {
                            assert(slots[slot_after(start as int, e, cap as int)] == before[slot_after(
                                start as int,
                                e,
                                cap as int,
                            )]);
                        }
                        left_probe = moved.probe_count as int;
                        shifts = shifts + 1;
                    }
                    hole = next;
                    next = if next + 1 == cap {
                        0
                    } else {
                        next + 1
                    };
                },
                None => {},
            }
        }
        proof {
            assert(all_ordered(self.data@)) by {
                assert forall|i: int| 0 <= i < self.data@.len() implies #[trigger] ordered(
                    self.data@,
                    i,
                ) by {}
            }
        }
    }

    /// Removes every entry. The number of slots stays.
    pub fn clear(&mut self)
        requires
            old(self).wf(),
        ensures
            final(self).wf(),
            final(self)@ == Map::<K::V, V>::empty(),
            final(self).slot_count() == old(self).slot_count(),
    {
        self.data = vector::<Entry<K, V>>(self.capacity);
        self.size = 0;
        self.model = Ghost(Map::empty());
        proof {
            lemma_occupied_all_none(self.data@);
        }
    }

    /// A key that was inserted and not removed since has the value that was
    /// inserted last; the other keys keep what they had.
    pub proof fn lemma_inserted(&self, before: &Self, key: K::V, value: V, other: K::V)
        requires
            self@ == before@.insert(key, value),
        ensures
            self@.contains_key(key),
            self@[key] == value,
            other != key ==> self@.contains_key(other) == before@.contains_key(other),
            other != key && before@.contains_key(other) ==> self@[other] == before@[other],
    {
    }

    /// A key that was removed is not in the map; the other keys keep what
    /// they had.
    pub proof fn lemma_removed(&self, before: &Self, key: K::V, other: K::V)
        requires
            self@ == before@.remove(key),
        ensures
            !self@.contains_key(key),
            other != key ==> self@.contains_key(other) == before@.contains_key(other),
            other != key && before@.contains_key(other) ==> self@[other] == before@[other],
    {
    }

    /// Iteration yields exactly the live entries: as many as the map has,
    /// each key once, each with the value that the map holds for it.
    pub proof fn lemma_entries(&self)
        requires
            self.wf(),
        ensures
            self.entries().len() == self@.len(),
            forall|j: int|
                0 <= j < self.entries().len() ==> self@.contains_key((#[trigger] self.entries()[j]).0)
                    && self@[self.entries()[j].0] == self.entries()[j].1,
            forall|k: K::V| #[trigger]
                self@.contains_key(k) ==> self.entries().contains((k, self@[k])),
            forall|i: int, j: int|
                0 <= i < self.entries().len() && 0 <= j < self.entries().len() && i != j
                    ==> self.entries()[i].0 != self.entries()[j].0,
    {
        let s = self.data@;
        let es = live_entries(s);
        lemma_live_entries(s);
        assert forall|j: int| 0 <= j < es.len() implies self@.contains_key((#[trigger] es[j]).0)
            && self@[es[j].0] == es[j].1 by {
            assert(sits_in(s, es[j]));
            let i = choose|i: int| holds(s, i, es[j].0) && s[i]->0.value == es[j].1;
            assert(s[i] is Some);
        }
        assert forall|k: K::V| #[trigger] self@.contains_key(k) implies es.contains((k, self@[k])) by {
            let i = choose|i: int| holds(s, i, k);
            assert(s[i] is Some);
        }
    }

    /// An iterator over the live entries in slot order.
    pub fn iter(&self) -> (it: HashMapIter<'_, K, V>)
        ensures
            it.remaining() == self.entries(),
    {
        proof {
            assert(self.data@.skip(0) =~= self.data@);
            lemma_occupied_all_none(Seq::<Option<Entry<K, V>>>::empty());
        }
        HashMapIter { data: &self.data, index: 0 }
    }

    /// Whether the map holds `key`.
    pub fn contains(&self, key: &K) -> (b: bool)
        requires
            self.wf(),
        ensures
            b == self@.contains_key(key@),
    {
        self.get(key).is_some()
    }
}

/// The value stored with the key `k` in the slots `s`.
spec fn value_in<K: Key, V>(s: Slots<K, V>, k: K::V) -> V {
    s[choose|i: int| holds(s, i, k)]->0.value
}

impl<K: Key, V: Clone> HashMap<K, V> {
    /// A copy of the map: the same keys in the same slots, each with a clone
    /// of its value.
    pub fn clone(&self) -> (copy: Self)
        requires
            self.wf(),
        ensures
            copy.wf(),
            copy@.dom() == self@.dom(),
            forall|k: K::V| #[trigger] self@.contains_key(k) ==> cloned(self@[k], copy@[k]),
            copy.slot_count() == self.slot_count(),
            copy.entries().len() == self.entries().len(),
            forall|j: int|
                0 <= j < self.entries().len() ==> (#[trigger] copy.entries()[j]).0
                    == self.entries()[j].0,
    {
        let cap = self.capacity;
        let mut data: Vec<Option<Entry<K, V>>> = Vec::with_capacity(cap);
        let mut i: usize = 0;
        while i < cap
            invariant
                self.wf(),
                cap == self.capacity,
                i <= cap,
                data@.len() == i,
                forall|j: int|
                    0 <= j < i ==> ((#[trigger] data@[j]) is Some) == (self.data@[j] is Some),
                forall|j: int|
                    0 <= j < i && (#[trigger] data@[j]) is Some ==> {
                        &&& data@[j]->0.key@ == self.data@[j]->0.key@
                        &&& data@[j]->0.probe_count == self.data@[j]->0.probe_count
                        &&& cloned(self.data@[j]->0.value, data@[j]->0.value)
                    },
            decreases cap - i,
        {
            let slot = match &self.data[i] {
                Some(entry) => Some(
                    Entry {
                        key: entry.key.duplicate(),
                        value: entry.value.clone(),
                        probe_count: entry.probe_count,
                    },
                ),
                None => None,
            };
            data.push(slot);
            i += 1;
        }
        let ghost s = self.data@;
        let ghost t = data@;
        let ghost model = Map::new(|k: K::V| self.model@.contains_key(k), |k: K::V| value_in(t, k));
        proof {
            assert forall|i: int, k: K::V| holds(t, i, k) == holds(s, i, k) by {
                if 0 <= i < t.len() {
                    assert((t[i] is Some) == (s[i] is Some));
                }
            }
            assert forall|i: int| 0 <= i < t.len() implies probe_of(t, i) == probe_of(s, i) by {
                assert((t[i] is Some) == (s[i] is Some));
            }
            assert(all_placed(t)) by {
                assert forall|i: int| 0 <= i < t.len() implies #[trigger] placed(t, i) by {
                    assert(placed(s, i));
                    assert((t[i] is Some) == (s[i] is Some));
                }
            }
            assert(all_ordered(t)) by {
                assert forall|i: int| 0 <= i < t.len() implies #[trigger] ordered(t, i) by {
                    assert(ordered(s, i));
                }
            }
            assert(distinct_keys(t)) by {
                assert forall|i: int, j: int, k: K::V| #[trigger]
                    holds(t, i, k) && #[trigger] holds(t, j, k) implies i == j by {
                    assert(holds(s, i, k) && holds(s, j, k));
                }
            }
            assert(model.dom() =~= self.model@.dom());
            assert forall|i: int| 0 <= i < t.len() && (#[trigger] t[i]) is Some implies model.contains_key(
                t[i]->0.key@,
            ) && model[t[i]->0.key@] == t[i]->0.value by {
                let k = t[i]->0.key@;
                assert(s[i] is Some);
                assert(holds(t, i, k));
                let c = choose|c: int| holds(t, c, k);
                assert(holds(t, c, k));
            }
            assert forall|k: K::V| #[trigger] model.contains_key(k) implies exists|i: int|
                holds(t, i, k) by {
                let i = choose|i: int| holds(s, i, k);
                assert(holds(t, i, k));
            }
            assert forall|k: K::V| #[trigger] self.model@.contains_key(k) implies cloned(
                self.model@[k],
                model[k],
            ) by {
                let i = choose|i: int| holds(s, i, k);
                assert(holds(t, i, k));
                let c = choose|c: int| holds(t, c, k);
                assert(holds(t, c, k));
                assert(s[i] is Some);
                assert(t[i] is Some);
            }
            lemma_same_shape(s, t);
        }
        HashMap { data, capacity: cap, size: self.size, model: Ghost(model) }
    }
}

/// Slots that are occupied alike, by the same keys, have the same keys in
/// the same order among their live entries.
proof fn lemma_same_shape<K: Key, V>(s: Slots<K, V>, t: Slots<K, V>)
    requires
        s.len() == t.len(),
        forall|j: int| 0 <= j < s.len() ==> ((#[trigger] t[j]) is Some) == (s[j] is Some),
        forall|j: int| 0 <= j < s.len() && (#[trigger] t[j]) is Some ==> t[j]->0.key@ == s[j]->0.key@,
    ensures
        live_entries(s).len() == live_entries(t).len(),
        forall|j: int|
            0 <= j < live_entries(s).len() ==> (#[trigger] live_entries(t)[j]).0 == live_entries(s)[j].0,
    decreases s.len(),
{
    if s.len() > 0 {
        let s1 = s.drop_first();
        let t1 = t.drop_first();
        assert forall|j: int| 0 <= j < s1.len() implies ((#[trigger] t1[j]) is Some) == (s1[j] is Some) by {
            assert((t[j + 1] is Some) == (s[j + 1] is Some));
        }
        assert forall|j: int| 0 <= j < s1.len() && (#[trigger] t1[j]) is Some implies t1[j]->0.key@
            == s1[j]->0.key@ by {
            assert(t[j + 1] is Some);
        }
        lemma_same_shape(s1, t1);
        assert((t[0] is Some) == (s[0] is Some));
    }
}

/// An iterator over the live entries of a map, in slot order.
pub struct HashMapIter<'a, K: Key, V> {
    data: &'a Vec<Option<Entry<K, V>>>,
    index: usize,
}

impl<'a, K: Key, V> HashMapIter<'a, K, V> {
    /// The entries that the iterator has yet to yield.
    pub closed spec fn remaining(&self) -> Seq<(K::V, V)> {
        if self.index >= self.data@.len() {
            Seq::empty()
        } else {
            live_entries(self.data@.skip(self.index as int))
        }
    }

    /// The next live entry, if one is left.
    pub fn next(&mut self) -> (item: Option<(&'a K, &'a V)>)
        ensures
            match item {
                Some((key, value)) => {
                    &&& old(self).remaining().len() > 0
                    &&& old(self).remaining()[0] == (key@, *value)
                    &&& final(self).remaining() == old(self).remaining().drop_first()
                },
                None => old(self).remaining().len() == 0 && final(self).remaining().len() == 0,
            },
    {
        while self.index < self.data.len()
            invariant
                self.data == old(self).data,
                self.remaining() == old(self).remaining(),
            decreases self.data@.len() - self.index,
        {
            let ghost here = self.data@.skip(self.index as int);
            proof {
                assert(here.drop_first() =~= self.data@.skip(self.index + 1));
                if self.index + 1 == self.data@.len() {
                    lemma_occupied_all_none(self.data@.skip(self.index + 1));
                }
            }
            match &self.data[self.index] {
                Some(entry) => {
                    self.index += 1;
                    proof {
                        assert(live_entries(here).drop_first() =~= live_entries(here.drop_first()));
                    }
                    return Some((&entry.key, &entry.value));
                },
                None => {
                    self.index += 1;
                },
            }
        }
        None
    }
}

/// A vector of `capacity` empty slots.
pub fn vector<T>(capacity: usize) -> (data: Vec<Option<T>>)
    ensures
        data@.len() == capacity,
        forall|i: int| 0 <= i < capacity ==> (#[trigger] data@[i]) is None,
{
    let mut data: Vec<Option<T>> = Vec::with_capacity(capacity);
    let mut i: usize = 0;
    while i < capacity
        invariant
            i <= capacity,
            data@.len() == i,
            forall|j: int| 0 <= j < i ==> (#[trigger] data@[j]) is None,
        decreases capacity - i,
    {
        data.push(None);
        i += 1;
    }
    data
}

} // verus!
