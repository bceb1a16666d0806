//! A map with owned keys, kept in hash slots.
//!
//! Its view is a `Map` from the keys' views, so two keys with one view are one
//! key. The map keeps the key that was put in first; what of it the view leaves
//! out is in [`KeyMap::names`].
use vstd::prelude::*;

use crate::path::FsPath;
use crate::path::PathView;
use crate::path::SpelledView;

verus! {

/// The number of hash slots.
pub const SLOTS: usize = 65521;

/// What a type needs to be a key: a slot that its view fixes, a test for equal
/// views, and copies. Its name says all that a copy keeps of it.
pub trait MapKey: View + Sized {
    type Name;

    spec fn name(&self) -> Self::Name;

    spec fn slot(key: Self::V) -> int;

    proof fn slot_in_range(key: Self::V)
        ensures
            0 <= Self::slot(key) < SLOTS,
    ;

    fn slot_index(&self) -> (s: usize)
        ensures
            s == Self::slot(self@),
    ;

    fn same_key(&self, other: &Self) -> (r: bool)
        ensures
            r == (self@ == other@),
    ;

    fn copy_key(&self) -> (r: Self)
        ensures
            r@ == self@,
            r.name() == self.name(),
    ;
}

/// The slot that a byte string falls in when `start` was the slot before it.
pub open spec fn bytes_slot(bytes: Seq<u8>, start: int) -> int
    decreases bytes.len(),
{
    if bytes.len() == 0 {
        start
    } else {
        (bytes_slot(bytes.drop_last(), start) * 131 + bytes.last()) % (SLOTS as int)
    }
}

pub(crate) proof fn lemma_bytes_slot_in_range(bytes: Seq<u8>, start: int)
    requires
        0 <= start < SLOTS,
    ensures
        0 <= bytes_slot(bytes, start) < SLOTS,
    decreases bytes.len(),
{
    if bytes.len() > 0 {
        lemma_bytes_slot_in_range(bytes.drop_last(), start);
    }
}

/// Computes [`bytes_slot`].
pub(crate) fn hash_bytes(bytes: &[u8], start: usize) -> (r: usize)
    requires
        start < SLOTS,
    ensures
        r == bytes_slot(bytes@, start as int),
        r < SLOTS,
{
    let mut h: usize = start;
    let mut i: usize = 0;
    while i < bytes.len()
        invariant
            i <= bytes.len(),
            h < SLOTS,
            start < SLOTS,
            h == bytes_slot(bytes@.take(i as int), start as int),
        decreases bytes.len() - i,
    {
        assert(bytes@.take(i + 1).drop_last() =~= bytes@.take(i as int));
        assert(bytes@.take(i + 1).last() == bytes@[i as int]);
        h = (h * 131 + bytes[i] as usize) % SLOTS;
        i += 1;
    }
    assert(bytes@.take(bytes@.len() as int) =~= bytes@);
    h
}

/// The slot of a list of byte strings.
pub open spec fn parts_slot(parts: Seq<Seq<u8>>) -> int
    decreases parts.len(),
{
    if parts.len() == 0 {
        0
    } else {
        bytes_slot(parts.last(), parts_slot(parts.drop_last()))
    }
}

pub(crate) proof fn lemma_parts_slot_in_range(parts: Seq<Seq<u8>>)
    ensures
        0 <= parts_slot(parts) < SLOTS,
    decreases parts.len(),
{
    if parts.len() > 0 {
        lemma_parts_slot_in_range(parts.drop_last());
        lemma_bytes_slot_in_range(parts.last(), parts_slot(parts.drop_last()));
    }
}

impl MapKey for FsPath {
    type Name = SpelledView;

    open spec fn name(&self) -> SpelledView {
        self.named()
    }

    open spec fn slot(key: PathView) -> int {
        parts_slot(key.parts)
    }

    proof fn slot_in_range(key: PathView) {
        lemma_parts_slot_in_range(key.parts);
    }

    fn slot_index(&self) -> (s: usize) {
        self.hash_slot()
    }

    fn same_key(&self, other: &Self) -> (r: bool) {
        self.same(other)
    }

    fn copy_key(&self) -> (r: Self) {
        self.clone()
    }
}

impl MapKey for String {
    type Name = Seq<char>;

    open spec fn name(&self) -> Seq<char> {
        self@
    }

    open spec fn slot(key: Seq<char>) -> int {
        bytes_slot(vstd::utf8::encode_utf8(key), 0)
    }

    proof fn slot_in_range(key: Seq<char>) {
        lemma_bytes_slot_in_range(vstd::utf8::encode_utf8(key), 0);
    }

    fn slot_index(&self) -> (s: usize) {
        hash_bytes(self.as_str().as_bytes(), 0)
    }

    fn same_key(&self, other: &Self) -> (r: bool) {
        *self == *other
    }

    fn copy_key(&self) -> (r: Self) {
        self.clone()
    }
}

/// Whether `slots` holds the key `k` at place `i` of its slot.
pub open spec fn held_at<K: MapKey, V>(slots: Seq<Vec<(K, V)>>, k: K::V, i: int) -> bool {
    &&& slots.len() == SLOTS
    &&& 0 <= i < slots[K::slot(k)]@.len()
    &&& slots[K::slot(k)]@[i].0@ == k
}

/// Every entry stands in its key's slot, and no key stands there twice.
pub open spec fn slots_ok<K: MapKey, V>(slots: Seq<Vec<(K, V)>>) -> bool {
    &&& slots.len() == 0 || slots.len() == SLOTS
    &&& forall|s: int, i: int|
        0 <= s < slots.len() && 0 <= i < slots[s]@.len() ==> K::slot(
            (#[trigger] slots[s]@[i]).0@,
        ) == s
    &&& forall|s: int, i: int, j: int|
        0 <= s < slots.len() && 0 <= i < j < slots[s]@.len() ==> (#[trigger] slots[s]@[i]).0@ != (
        #[trigger] slots[s]@[j]).0@
}

/// The map that `slots` holds.
pub open spec fn slots_map<K: MapKey, V>(slots: Seq<Vec<(K, V)>>) -> Map<K::V, V> {
    Map::new(
        |k: K::V| exists|i: int| held_at(slots, k, i),
        |k: K::V| slots[K::slot(k)]@[choose|i: int| held_at(slots, k, i)].1,
    )
}

/// The names of the keys that `slots` holds.
pub open spec fn slots_names<K: MapKey, V>(slots: Seq<Vec<(K, V)>>) -> Map<K::V, K::Name> {
    Map::new(
        |k: K::V| exists|i: int| held_at(slots, k, i),
        |k: K::V| slots[K::slot(k)]@[choose|i: int| held_at(slots, k, i)].0.name(),
    )
}

/// Whether every key of `list` has its name in `names`.
pub open spec fn lists_names<K: MapKey, V>(
    list: Seq<(K, V)>,
    names: Map<K::V, K::Name>,
) -> bool {
    forall|i: int|
        0 <= i < list.len() ==> names.contains_key((#[trigger] list[i]).0@)
            && names[list[i].0@] == list[i].0.name()
}

/// Whether `list` holds each pair of `map` once and nothing else.
pub open spec fn lists_map<K: MapKey, V>(list: Seq<(K, V)>, map: Map<K::V, V>) -> bool {
    &&& forall|i: int|
        0 <= i < list.len() ==> map.contains_key((#[trigger] list[i]).0@) && map[list[i].0@]
            == list[i].1
    &&& forall|i: int, j: int|
        0 <= i < j < list.len() ==> (#[trigger] list[i]).0@ != (#[trigger] list[j]).0@
    &&& forall|k: K::V| #[trigger]
        map.contains_key(k) ==> exists|i: int| 0 <= i < list.len() && (#[trigger] list[i]).0@ == k
}

/// A map from keys to values.
pub struct KeyMap<K: MapKey, V: Copy> {
    slots: Vec<Vec<(K, V)>>,
}

impl<K: MapKey, V: Copy> View for KeyMap<K, V> {
    type V = Map<K::V, V>;

    closed spec fn view(&self) -> Map<K::V, V> {
        slots_map(self.slots@)
    }
}

impl<K: MapKey, V: Copy> KeyMap<K, V> {
    /// The names of the keys.
    pub closed spec fn names(&self) -> Map<K::V, K::Name> {
        slots_names(self.slots@)
    }

    #[verifier::type_invariant]
    spec fn inv(self) -> bool {
        slots_ok(self.slots@) && slots_map(self.slots@).dom().finite()
    }

    /// The empty map.
    pub fn new() -> (r: Self)
        ensures
            r@ == Map::<K::V, V>::empty(),
            r.names() == Map::<K::V, K::Name>::empty(),
    {
        let slots: Vec<Vec<(K, V)>> = Vec::new();
        assert(slots_map(slots@) =~= Map::<K::V, V>::empty());
        assert(slots_names(slots@) =~= Map::<K::V, K::Name>::empty());
        KeyMap { slots }
    }

    /// The place of `key` in its slot.
    fn place(&self, key: &K) -> (r: Option<(usize, usize)>)
        ensures
            match r {
                Some((s, i)) => s == K::slot(key@) && held_at(self.slots@, key@, i as int) && s
                    < self.slots.len() && self@.contains_key(key@) && self@[key@]
                    == self.slots@[s as int]@[i as int].1,
                None => !self@.contains_key(key@),
            },
    {
        proof {
            use_type_invariant(self);
            K::slot_in_range(key@);
        }
        if self.slots.len() == 0 {
            return None;
        }
        let s: usize = key.slot_index();
        let n: usize = self.slots[s].len();
        let mut i: usize = 0;
        while i < n
            invariant
                i <= n,
                s == K::slot(key@),
                s < self.slots.len(),
                self.slots.len() == SLOTS,
                n == self.slots@[s as int]@.len(),
                slots_ok(self.slots@),
                forall|j: int| 0 <= j < i ==> (#[trigger] self.slots@[s as int]@[j]).0@ != key@,
            decreases n - i,
        {
            if self.slots[s][i].0.same_key(key) {
                proof {
                    assert(held_at(self.slots@, key@, i as int));
                    let c = choose|c: int| held_at(self.slots@, key@, c);
                    assert(held_at(self.slots@, key@, c));
                    assert(c == i) by {
                        if c < i {
                            assert(self.slots@[s as int]@[c].0@ != key@);
                        } else if c > i {
                            assert(self.slots@[s as int]@[i as int].0@
                                != self.slots@[s as int]@[c].0@);
                        }
                    }
                }
                return Some((s, i));
            }
            i += 1;
        }
        None
    }

    /// The value of `key`.
    pub fn get(&self, key: &K) -> (r: Option<V>)
        ensures
            match r {
                Some(v) => self@.contains_key(key@) && self@[key@] == v,
                None => !self@.contains_key(key@),
            },
            self@.dom().finite(),
            self.names().dom() == self@.dom(),
    {
        proof {
            use_type_invariant(self);
            assert(self.names().dom() =~= self@.dom());
        }
        match self.place(key) {
            Some((s, i)) => Some(self.slots[s][i].1),
            None => None,
        }
    }

    /// Whether `key` has a value.
    pub fn contains(&self, key: &K) -> (r: bool)
        ensures
            r == self@.contains_key(key@),
    {
        match self.place(key) {
            Some(_) => true,
            None => false,
        }
    }

    /// Gives `key` the value `value`. A key that is in the map stays as it is.
    pub fn insert(&mut self, key: K, value: V)
        ensures
            final(self)@ == old(self)@.insert(key@, value),
            final(self).names() == if old(self).names().contains_key(key@) {
                old(self).names()
            } else {
                old(self).names().insert(key@, key.name())
            },
    {
        let found: Option<(usize, usize)> = self.place(&key);
        proof {
            use_type_invariant(&*self);
            K::slot_in_range(key@);
            assert(self.names().contains_key(key@) == self@.contains_key(key@));
        }
        let ghost before = self.slots@;
        let mut slots: Vec<Vec<(K, V)>> = Vec::new();
        assert(slots_map(slots@) =~= Map::<K::V, V>::empty());
        std::mem::swap(&mut slots, &mut self.slots);
        match found {
            Some((s, i)) => {
                let ghost k = key@;
                let kept: K = slots[s][i].0.copy_key();
                slots[s][i] = (kept, value);
                proof {
                    lemma_replaced(before, slots@, k, value, i as int);
                }
            },
            None => {
                if slots.len() == 0 {
                    slots = empty_slots::<K, V>();
                    assert(slots_map(slots@) =~= slots_map(before));
                    assert(slots_names(slots@) =~= slots_names(before));
                }
                let ghost full = slots@;
                let s: usize = key.slot_index();
                let ghost k = key@;
                let ghost name = key.name();
                slots[s].push((key, value));
                proof {
                    lemma_pushed(full, slots@, k, value, name);
                }
            },
        }
        self.slots = slots;
    }

    /// Takes `key` and its value out.
    pub fn remove(&mut self, key: &K)
        ensures
            final(self)@ == old(self)@.remove(key@),
            final(self).names() == old(self).names().remove(key@),
    {
        let found: Option<(usize, usize)> = self.place(key);
        proof {
            use_type_invariant(&*self);
            K::slot_in_range(key@);
        }
        let ghost before = self.slots@;
        match found {
            Some((s, i)) => {
                let mut slots: Vec<Vec<(K, V)>> = Vec::new();
                assert(slots_map(slots@) =~= Map::<K::V, V>::empty());
                std::mem::swap(&mut slots, &mut self.slots);
                slots[s].remove(i);
                proof {
                    lemma_removed(before, slots@, key@, i as int);
                }
                self.slots = slots;
            },
            None => {
                assert(self@ =~= self@.remove(key@));
                assert(self.names() =~= self.names().remove(key@));
            },
        }
    }

    /// Takes everything out.
    pub fn clear(&mut self)
        ensures
            final(self)@ == Map::<K::V, V>::empty(),
            final(self).names() == Map::<K::V, K::Name>::empty(),
    {
        let slots: Vec<Vec<(K, V)>> = Vec::new();
        assert(slots_map(slots@) =~= Map::<K::V, V>::empty());
        assert(slots_names(slots@) =~= Map::<K::V, K::Name>::empty());
        self.slots = slots;
    }

    /// Whether nothing is in the map.
    pub fn is_empty(&self) -> (r: bool)
        ensures
            r == (self@ == Map::<K::V, V>::empty()),
    {
        proof {
            use_type_invariant(self);
        }
        let mut s: usize = 0;
        while s < self.slots.len()
            invariant
                s <= self.slots.len(),
                slots_ok(self.slots@),
                forall|t: int| 0 <= t < s ==> (#[trigger] self.slots@[t])@.len() == 0,
            decreases self.slots.len() - s,
        {
            if self.slots[s].len() > 0 {
                proof {
                    let k = self.slots@[s as int]@[0].0@;
                    assert(held_at(self.slots@, k, 0));
                    assert(self@.contains_key(k));
                }
                return false;
            }
            s += 1;
        }
        proof {
            assert forall|k: K::V| !self@.contains_key(k) by {
                K::slot_in_range(k);
                if self@.contains_key(k) {
                    let i = choose|i: int| held_at(self.slots@, k, i);
                    assert(held_at(self.slots@, k, i));
                }
            }
            assert(self@ =~= Map::<K::V, V>::empty());
        }
        true
    }

    /// The keys and values, each once.
    pub fn entries(&self) -> (r: Vec<(K, V)>)
        ensures
            lists_map(r@, self@),
            lists_names(r@, self.names()),
            self.names().dom() == self@.dom(),
    {
        proof {
            use_type_invariant(self);
        }
        let mut out: Vec<(K, V)> = Vec::new();
        let mut s: usize = 0;
        while s < self.slots.len()
            invariant
                s <= self.slots.len(),
                slots_ok(self.slots@),
                listed(self.slots@, out@, s as int, 0),
                lists_names(out@, slots_names(self.slots@)),
            decreases self.slots.len() - s,
        {
            let mut i: usize = 0;
            while i < self.slots[s].len()
                invariant
                    s < self.slots.len(),
                    i <= self.slots@[s as int]@.len(),
                    slots_ok(self.slots@),
                    listed(self.slots@, out@, s as int, i as int),
                    lists_names(out@, slots_names(self.slots@)),
                decreases self.slots@[s as int]@.len() - i,
            {
                let key: K = self.slots[s][i].0.copy_key();
                let value: V = self.slots[s][i].1;
                let ghost earlier = out@;
                out.push((key, value));
                proof {
                    lemma_listed_push(self.slots@, earlier, s as int, i as int, (key, value));
                    assert(K::slot(self.slots@[s as int]@[i as int].0@) == s);
                    assert(held_at(self.slots@, key@, i as int));
                    lemma_one_place(self.slots@, key@, i as int);
                    assert forall|n: int| 0 <= n < out@.len() implies slots_names(
                        self.slots@,
                    ).contains_key((#[trigger] out@[n]).0@) && slots_names(
                        self.slots@,
                    )[out@[n].0@] == out@[n].0.name() by {
                        if n < earlier.len() {
                            assert(out@[n] == earlier[n]);
                        }
                    }
                }
                i += 1;
            }
            proof {
                lemma_listed_slot_done(self.slots@, out@, s as int);
            }
            s += 1;
        }
        proof {
            lemma_listed_all(self.slots@, out@);
            assert(self.names().dom() =~= self@.dom());
        }
        out
    }
}

/// A map that a list lists has finitely many keys.
pub proof fn lemma_listed_map_is_finite<K: MapKey, V>(list: Seq<(K, V)>, map: Map<K::V, V>)
    requires
        lists_map(list, map),
    ensures
        map.dom().finite(),
        map.dom().len() == list.len(),
{
    let keys = Seq::new(list.len(), |i: int| list[i].0@);
    assert(keys.no_duplicates());
    keys.unique_seq_to_set();
    assert forall|k: K::V| map.dom().contains(k) implies keys.to_set().contains(k) by {
        assert(map.contains_key(k));
        let i = choose|i: int| 0 <= i < list.len() && (#[trigger] list[i]).0@ == k;
        assert(keys[i] == k);
    }
    assert forall|k: K::V| keys.to_set().contains(k) implies map.dom().contains(k) by {
        let i = choose|i: int| 0 <= i < keys.len() && keys[i] == k;
        assert(map.contains_key(list[i].0@));
    }
    assert(map.dom() =~= keys.to_set());
}

/// Whether the pair `(k, v)` stands before place `i` of slot `s`.
spec fn stands_before<K: MapKey, V>(
    slots: Seq<Vec<(K, V)>>,
    k: K::V,
    v: V,
    s: int,
    i: int,
) -> bool {
    exists|t: int, j: int| #[trigger]
        at_place(slots, t, j, k, v) && (t < s || (t == s && j < i))
}

spec fn at_place<K: MapKey, V>(slots: Seq<Vec<(K, V)>>, t: int, j: int, k: K::V, v: V) -> bool {
    0 <= t < slots.len() && 0 <= j < slots[t]@.len() && slots[t]@[j].0@ == k && slots[t]@[j].1 == v
}

/// Whether `list` holds the key `k`.
spec fn list_has<K: MapKey, V>(list: Seq<(K, V)>, k: K::V) -> bool {
    exists|n: int| 0 <= n < list.len() && (#[trigger] list[n]).0@ == k
}

/// `list` holds the entries of the slots before `s` and the first `i` entries
/// of slot `s`.
spec fn listed<K: MapKey, V>(slots: Seq<Vec<(K, V)>>, list: Seq<(K, V)>, s: int, i: int) -> bool {
    &&& forall|n: int|
        0 <= n < list.len() ==> stands_before(slots, (#[trigger] list[n]).0@, list[n].1, s, i)
    &&& forall|m: int, n: int|
        0 <= m < n < list.len() ==> (#[trigger] list[m]).0@ != (#[trigger] list[n]).0@
    &&& forall|t: int, j: int|
        0 <= t < slots.len() && 0 <= j < slots[t]@.len() && (t < s || (t == s && j < i))
            ==> list_has(list, (#[trigger] slots[t]@[j]).0@)
}

proof fn lemma_listed_push<K: MapKey, V>(
    slots: Seq<Vec<(K, V)>>,
    list: Seq<(K, V)>,
    s: int,
    i: int,
    entry: (K, V),
)
    requires
        slots_ok(slots),
        0 <= s < slots.len(),
        0 <= i < slots[s]@.len(),
        entry.0@ == slots[s]@[i].0@,
        entry.1 == slots[s]@[i].1,
        listed(slots, list, s, i),
    ensures
        listed(slots, list.push(entry), s, i + 1),
{
    let after = list.push(entry);
    let key = entry.0@;
    assert(at_place(slots, s, i, key, entry.1));
    assert(K::slot(slots[s]@[i].0@) == s);
    assert forall|n: int| 0 <= n < after.len() implies stands_before(
        slots,
        (#[trigger] after[n]).0@,
        after[n].1,
        s,
        i + 1,
    ) by {
        if n < list.len() {
            assert(after[n] == list[n]);
            let (t, j) = choose|t: int, j: int| #[trigger]
                at_place(slots, t, j, list[n].0@, list[n].1) && (t < s || (t == s && j < i));
            assert(at_place(slots, t, j, after[n].0@, after[n].1));
        } else {
            assert(at_place(slots, s, i, after[n].0@, after[n].1));
        }
    }
    assert forall|m: int, n: int| 0 <= m < n < after.len() implies (#[trigger] after[m]).0@ != (
    #[trigger] after[n]).0@ by {
        assert(after[m] == list[m]);
        if n < list.len() {
            assert(after[n] == list[n]);
        } else {
            let k = list[m].0@;
            assert(stands_before(slots, k, list[m].1, s, i));
            let (t, j) = choose|t: int, j: int| #[trigger]
                at_place(slots, t, j, k, list[m].1) && (t < s || (t == s && j < i));
            assert(K::slot(slots[t]@[j].0@) == t);
            if k == key {
                assert(t == s);
                assert(slots[s]@[j].0@ != slots[s]@[i].0@);
            }
        }
    }
    assert forall|t: int, j: int|
        0 <= t < slots.len() && 0 <= j < slots[t]@.len() && (t < s || (t == s && j < i
            + 1)) implies list_has(after, (#[trigger] slots[t]@[j]).0@) by {
        let k = slots[t]@[j].0@;
        if t == s && j == i {
            assert(after[list.len() as int].0@ == k);
        } else {
            assert(list_has(list, k));
            let n = choose|n: int| 0 <= n < list.len() && (#[trigger] list[n]).0@ == k;
            assert(after[n].0@ == k);
        }
    }
}

proof fn lemma_listed_slot_done<K: MapKey, V>(
    slots: Seq<Vec<(K, V)>>,
    list: Seq<(K, V)>,
    s: int,
)
    requires
        0 <= s < slots.len(),
        listed(slots, list, s, slots[s]@.len() as int),
    ensures
        listed(slots, list, s + 1, 0),
{
    assert forall|n: int| 0 <= n < list.len() implies stands_before(
        slots,
        (#[trigger] list[n]).0@,
        list[n].1,
        s + 1,
        0,
    ) by {
        assert(stands_before(slots, list[n].0@, list[n].1, s, slots[s]@.len() as int));
        let (t, j) = choose|t: int, j: int| #[trigger]
            at_place(slots, t, j, list[n].0@, list[n].1) && (t < s || (t == s && j
                < slots[s]@.len()));
        assert(at_place(slots, t, j, list[n].0@, list[n].1));
    }
}

proof fn lemma_listed_all<K: MapKey, V>(slots: Seq<Vec<(K, V)>>, list: Seq<(K, V)>)
    requires
        slots_ok(slots),
        listed(slots, list, slots.len() as int, 0),
    ensures
        lists_map(list, slots_map(slots)),
{
    let map = slots_map(slots);
    assert forall|n: int| 0 <= n < list.len() implies map.contains_key((#[trigger] list[n]).0@)
        && map[list[n].0@] == list[n].1 by {
        let k = list[n].0@;
        assert(stands_before(slots, k, list[n].1, slots.len() as int, 0));
        let (t, j) = choose|t: int, j: int| #[trigger]
            at_place(slots, t, j, k, list[n].1) && (t < slots.len() || (t == slots.len() && j < 0));
        assert(at_place(slots, t, j, k, list[n].1));
        assert(K::slot(slots[t]@[j].0@) == t);
        assert(held_at(slots, k, j));
        let c = choose|c: int| held_at(slots, k, c);
        assert(held_at(slots, k, c));
        if c < j {
            assert(slots[t]@[c].0@ != slots[t]@[j].0@);
        } else if j < c {
            assert(slots[t]@[j].0@ != slots[t]@[c].0@);
        }
    }
    assert forall|k: K::V| #[trigger] map.contains_key(k) implies exists|n: int|
        0 <= n < list.len() && (#[trigger] list[n]).0@ == k by {
        K::slot_in_range(k);
        let i = choose|i: int| held_at(slots, k, i);
        assert(held_at(slots, k, i));
        assert(list_has(list, slots[K::slot(k)]@[i].0@));
    }
}

/// As many empty slots as there are.
fn empty_slots<K: MapKey, V: Copy>() -> (r: Vec<Vec<(K, V)>>)
    ensures
        r@.len() == SLOTS,
        forall|s: int| 0 <= s < SLOTS ==> (#[trigger] r@[s])@.len() == 0,
        slots_ok(r@),
        slots_map(r@) == Map::<K::V, V>::empty(),
        slots_names(r@) == Map::<K::V, K::Name>::empty(),
{
    let mut out: Vec<Vec<(K, V)>> = Vec::new();
    let mut s: usize = 0;
    while s < SLOTS
        invariant
            s <= SLOTS,
            out@.len() == s,
            forall|t: int| 0 <= t < s ==> (#[trigger] out@[t])@.len() == 0,
        decreases SLOTS - s,
    {
        out.push(Vec::new());
        s += 1;
    }
    proof {
        assert forall|k: K::V| !slots_map(out@).contains_key(k) by {
            K::slot_in_range(k);
        }
        assert(slots_map(out@) =~= Map::<K::V, V>::empty());
        assert forall|k: K::V| !slots_names(out@).contains_key(k) by {
            K::slot_in_range(k);
        }
        assert(slots_names(out@) =~= Map::<K::V, K::Name>::empty());
    }
    out
}

/// In ordered slots a key stands at one place only.
proof fn lemma_one_place<K: MapKey, V>(slots: Seq<Vec<(K, V)>>, k: K::V, i: int)
    requires
        slots_ok(slots),
        held_at(slots, k, i),
    ensures
        slots_map(slots).contains_key(k),
        slots_map(slots)[k] == slots[K::slot(k)]@[i].1,
        slots_names(slots).contains_key(k),
        slots_names(slots)[k] == slots[K::slot(k)]@[i].0.name(),
        forall|c: int| held_at(slots, k, c) ==> c == i,
{
    K::slot_in_range(k);
    assert forall|c: int| held_at(slots, k, c) implies c == i by {
        if c < i {
            assert(slots[K::slot(k)]@[c].0@ != slots[K::slot(k)]@[i].0@);
        } else if i < c {
            assert(slots[K::slot(k)]@[i].0@ != slots[K::slot(k)]@[c].0@);
        }
    }
}

proof fn lemma_replaced<K: MapKey, V>(
    before: Seq<Vec<(K, V)>>,
    after: Seq<Vec<(K, V)>>,
    k: K::V,
    v: V,
    i: int,
)
    requires
        slots_ok(before),
        held_at(before, k, i),
        after.len() == before.len(),
        after[K::slot(k)]@.len() == before[K::slot(k)]@.len(),
        after[K::slot(k)]@[i].0@ == k,
        after[K::slot(k)]@[i].0.name() == before[K::slot(k)]@[i].0.name(),
        after[K::slot(k)]@[i].1 == v,
        forall|j: int|
            0 <= j < before[K::slot(k)]@.len() && j != i ==> after[K::slot(k)]@[j]
                == before[K::slot(k)]@[j],
        forall|t: int| 0 <= t < before.len() && t != K::slot(k) ==> after[t] == before[t],
    ensures
        slots_ok(after),
        slots_map(after) == slots_map(before).insert(k, v),
        slots_names(after) == slots_names(before),
{
    let s = K::slot(k);
    K::slot_in_range(k);
    assert forall|t: int, j: int| 0 <= t < after.len() && 0 <= j < after[t]@.len() implies (
    #[trigger] after[t]@[j]).0@ == before[t]@[j].0@ && after[t]@[j].0.name()
        == before[t]@[j].0.name() by {}
    assert forall|t: int, j: int| 0 <= t < after.len() && 0 <= j < after[t]@.len() implies K::slot(
        (#[trigger] after[t]@[j]).0@,
    ) == t by {
        assert(K::slot(before[t]@[j].0@) == t);
    }
    assert forall|t: int, j: int, m: int|
        0 <= t < after.len() && 0 <= j < m < after[t]@.len() implies (#[trigger] after[t]@[j]).0@
        != (#[trigger] after[t]@[m]).0@ by {
        assert(before[t]@[j].0@ != before[t]@[m].0@);
    }
    assert forall|x: K::V, j: int| held_at(after, x, j) == held_at(before, x, j) by {
        K::slot_in_range(x);
    }
    let target = slots_map(before).insert(k, v);
    assert forall|x: K::V| #[trigger]
        slots_map(after).contains_key(x) == target.contains_key(x) by {
        if slots_map(after).contains_key(x) {
            let j = choose|j: int| held_at(after, x, j);
            assert(held_at(before, x, j));
        }
        if slots_map(before).contains_key(x) {
            let j = choose|j: int| held_at(before, x, j);
            assert(held_at(after, x, j));
        }
        assert(held_at(after, k, i));
    }
    assert forall|x: K::V| slots_map(after).contains_key(x) implies #[trigger] slots_map(after)[x]
        == target[x] by {
        let j = choose|j: int| held_at(after, x, j);
        assert(held_at(after, x, j));
        lemma_one_place(after, x, j);
        assert(held_at(before, x, j));
        lemma_one_place(before, x, j);
        K::slot_in_range(x);
        if x == k {
            assert(held_at(after, k, i));
        }
    }
    assert(slots_map(after) =~= target);
    let names = slots_names(before);
    assert forall|x: K::V| #[trigger]
        slots_names(after).contains_key(x) == names.contains_key(x) by {
        assert(slots_map(after).contains_key(x) == target.contains_key(x));
        lemma_one_place(before, k, i);
    }
    assert forall|x: K::V| slots_names(after).contains_key(x) implies #[trigger] slots_names(
        after,
    )[x] == names[x] by {
        K::slot_in_range(x);
        let j = choose|j: int| held_at(after, x, j);
        assert(held_at(after, x, j));
        lemma_one_place(after, x, j);
        assert(held_at(before, x, j));
        lemma_one_place(before, x, j);
    }
    assert(slots_names(after) =~= names);
}

proof fn lemma_pushed<K: MapKey, V>(
    before: Seq<Vec<(K, V)>>,
    after: Seq<Vec<(K, V)>>,
    k: K::V,
    v: V,
    name: K::Name,
)
    requires
        slots_ok(before),
        before.len() == SLOTS,
        !slots_map(before).contains_key(k),
        after.len() == before.len(),
        after[K::slot(k)]@.len() == before[K::slot(k)]@.len() + 1,
        after[K::slot(k)]@.last().0@ == k,
        after[K::slot(k)]@.last().0.name() == name,
        after[K::slot(k)]@.last().1 == v,
        forall|j: int|
            0 <= j < before[K::slot(k)]@.len() ==> after[K::slot(k)]@[j] == before[K::slot(k)]@[j],
        forall|t: int| 0 <= t < before.len() && t != K::slot(k) ==> after[t] == before[t],
    ensures
        slots_ok(after),
        slots_map(after) == slots_map(before).insert(k, v),
        slots_names(after) == slots_names(before).insert(k, name),
{
    let s = K::slot(k);
    K::slot_in_range(k);
    let n = before[s]@.len() as int;
    assert forall|t: int, j: int|
        0 <= t < after.len() && 0 <= j < after[t]@.len() && !(t == s && j == n) implies 0 <= j
        < before[t]@.len() && #[trigger] after[t]@[j] == before[t]@[j] by {}
    assert forall|t: int, j: int| 0 <= t < after.len() && 0 <= j < after[t]@.len() implies K::slot(
        (#[trigger] after[t]@[j]).0@,
    ) == t by {
        if !(t == s && j == n) {
            assert(K::slot(before[t]@[j].0@) == t);
        }
    }
    assert forall|t: int, j: int, m: int|
        0 <= t < after.len() && 0 <= j < m < after[t]@.len() implies (#[trigger] after[t]@[j]).0@
        != (#[trigger] after[t]@[m]).0@ by {
        if t == s && m == n {
            if before[s]@[j].0@ == k {
                assert(held_at(before, k, j));
            }
        } else {
            assert(before[t]@[j].0@ != before[t]@[m].0@);
        }
    }
    let target = slots_map(before).insert(k, v);
    assert(held_at(after, k, n));
    assert forall|x: K::V| #[trigger]
        slots_map(after).contains_key(x) == target.contains_key(x) by {
        K::slot_in_range(x);
        if slots_map(after).contains_key(x) {
            let j = choose|j: int| held_at(after, x, j);
            assert(held_at(after, x, j));
            if x != k {
                assert(held_at(before, x, j));
            }
        }
        if slots_map(before).contains_key(x) {
            let j = choose|j: int| held_at(before, x, j);
            assert(held_at(after, x, j));
        }
    }
    assert forall|x: K::V| slots_map(after).contains_key(x) implies #[trigger] slots_map(after)[x]
        == target[x] by {
        K::slot_in_range(x);
        let j = choose|j: int| held_at(after, x, j);
        assert(held_at(after, x, j));
        lemma_one_place(after, x, j);
        if x != k {
            assert(held_at(before, x, j));
            lemma_one_place(before, x, j);
        }
    }
    assert(slots_map(after) =~= target);
    let names = slots_names(before).insert(k, name);
    assert forall|x: K::V| #[trigger]
        slots_names(after).contains_key(x) == names.contains_key(x) by {
        assert(slots_map(after).contains_key(x) == target.contains_key(x));
    }
    assert forall|x: K::V| slots_names(after).contains_key(x) implies #[trigger] slots_names(
        after,
    )[x] == names[x] by {
        K::slot_in_range(x);
        let j = choose|j: int| held_at(after, x, j);
        assert(held_at(after, x, j));
        lemma_one_place(after, x, j);
        if x != k {
            assert(held_at(before, x, j));
            lemma_one_place(before, x, j);
        } else {
            assert(j == n);
        }
    }
    assert(slots_names(after) =~= names);
}

proof fn lemma_removed<K: MapKey, V>(
    before: Seq<Vec<(K, V)>>,
    after: Seq<Vec<(K, V)>>,
    k: K::V,
    i: int,
)
    requires
        slots_ok(before),
        held_at(before, k, i),
        after.len() == before.len(),
        after[K::slot(k)]@ == before[K::slot(k)]@.remove(i),
        forall|t: int| 0 <= t < before.len() && t != K::slot(k) ==> after[t] == before[t],
    ensures
        slots_ok(after),
        slots_map(after) == slots_map(before).remove(k),
        slots_names(after) == slots_names(before).remove(k),
{
    let s = K::slot(k);
    K::slot_in_range(k);
    assert forall|t: int, j: int| 0 <= t < after.len() && 0 <= j < after[t]@.len() implies (
    #[trigger] after[t]@[j]) == before[t]@[if t == s && j >= i {
        j + 1
    } else {
        j
    }] by {}
    assert forall|t: int, j: int| 0 <= t < after.len() && 0 <= j < after[t]@.len() implies K::slot(
        (#[trigger] after[t]@[j]).0@,
    ) == t by {
        let b = if t == s && j >= i {
            j + 1
        } else {
            j
        };
        assert(K::slot(before[t]@[b].0@) == t);
    }
    assert forall|t: int, j: int, m: int|
        0 <= t < after.len() && 0 <= j < m < after[t]@.len() implies (#[trigger] after[t]@[j]).0@
        != (#[trigger] after[t]@[m]).0@ by {
        let b = if t == s && j >= i {
            j + 1
        } else {
            j
        };
        let c = if t == s && m >= i {
            m + 1
        } else {
            m
        };
        assert(before[t]@[b].0@ != before[t]@[c].0@);
    }
    let target = slots_map(before).remove(k);
    assert forall|x: K::V| #[trigger]
        slots_map(after).contains_key(x) == target.contains_key(x) by {
        K::slot_in_range(x);
        if slots_map(after).contains_key(x) {
            let j = choose|j: int| held_at(after, x, j);
            assert(held_at(after, x, j));
            let b = if K::slot(x) == s && j >= i {
                j + 1
            } else {
                j
            };
            assert(held_at(before, x, b));
            if x == k {
                lemma_one_place(before, k, i);
                assert(b == i);
            }
        }
        if target.contains_key(x) {
            let j = choose|j: int| held_at(before, x, j);
            assert(held_at(before, x, j));
            let b = if K::slot(x) == s && j > i {
                j - 1
            } else {
                j
            };
            assert(held_at(after, x, b));
        }
    }
    assert forall|x: K::V| slots_map(after).contains_key(x) implies #[trigger] slots_map(after)[x]
        == target[x] by {
        K::slot_in_range(x);
        let j = choose|j: int| held_at(after, x, j);
        assert(held_at(after, x, j));
        lemma_one_place(after, x, j);
        let b = if K::slot(x) == s && j >= i {
            j + 1
        } else {
            j
        };
        assert(held_at(before, x, b));
        lemma_one_place(before, x, b);
    }
    assert(slots_map(after) =~= target);
    let names = slots_names(before).remove(k);
    assert forall|x: K::V| #[trigger]
        slots_names(after).contains_key(x) == names.contains_key(x) by {
        assert(slots_map(after).contains_key(x) == target.contains_key(x));
    }
    assert forall|x: K::V| slots_names(after).contains_key(x) implies #[trigger] slots_names(
        after,
    )[x] == names[x] by {
        K::slot_in_range(x);
        let j = choose|j: int| held_at(after, x, j);
        assert(held_at(after, x, j));
        lemma_one_place(after, x, j);
        let b = if K::slot(x) == s && j >= i {
            j + 1
        } else {
            j
        };
        assert(held_at(before, x, b));
        lemma_one_place(before, x, b);
    }
    assert(slots_names(after) =~= names);
}

} // verus!
