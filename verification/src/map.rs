//! A map for finite key domains backed by an array, the cursors that walk
//! it, and the walk that checks the bijection of a domain.

use core::marker::PhantomData;
use vstd::prelude::*;
use vstd::std_specs::cmp::{PartialEqSpec, PartialEqSpecImpl};
use vstd::std_specs::convert::FromSpecImpl;

use crate::positions::{
    lemma_selected_agree, lemma_selected_first, lemma_selected_none, occupied, selected_from,
};
use crate::Enum;

verus! {

/// A map from the values of a finite domain to payloads, backed by an array
/// with one optional slot per position of the domain.
#[derive(Copy, Eq, Debug)]
pub struct EnumMap<const LENGTH: usize, E: Enum<LENGTH>, V> {
    data: [Option<V>; LENGTH],
    _enum: PhantomData<E>,
}

impl<const LENGTH: usize, E: Enum<LENGTH>, V> View for EnumMap<LENGTH, E, V> {
    type V = Seq<Option<V>>;

    /// The slots of the map, by position.
    closed spec fn view(&self) -> Seq<Option<V>> {
        self.data@
    }
}

/// The content of a slot that holds no payload.
fn empty_slot<V>(position: usize) -> (slot: Option<V>)
    ensures
        slot is None,
{
    None
}

/// Moves the elements of an array into a vector with `Vec::from`, which keeps
/// their number and their order.
#[verifier::external_body]
pub(crate) fn vec_from_array<T, const N: usize>(array: [T; N]) -> (items: Vec<T>)
    ensures
        items@ == array@,
{
    Vec::from(array)
}

/// Builds an array of `LENGTH` empty slots with `core::array::from_fn`, which
/// calls the given function once per position, in order, and stores what it
/// returns at that position. The function handed over returns `None` for
/// every position, so every slot of the array is `None`.
#[verifier::external_body]
fn empty_slots<V, const LENGTH: usize>() -> (slots: [Option<V>; LENGTH])
    ensures
        forall|position: int| 0 <= position < LENGTH ==> slots@[position] is None,
{
    core::array::from_fn(empty_slot)
}

impl<const LENGTH: usize, E: Enum<LENGTH>, V: PartialEq> PartialEq
    for EnumMap<LENGTH, E, V> {
    /// Two maps are equal if they are occupied at the same positions and
    /// hold equal payloads there.
    fn eq(&self, other: &Self) -> (equal: bool) {
        let mut index: usize = 0;
        while index < LENGTH
            invariant
                index <= LENGTH,
                V::obeys_eq_spec() ==> forall|position: int|
                    0 <= position < index ==> PartialEqSpec::eq_spec(
                        &(#[trigger] self@[position]),
                        &other@[position],
                    ),
            decreases LENGTH - index,
        {
            let same = self.data[index] == other.data[index];
            if !same {
                assert(V::obeys_eq_spec() ==> !PartialEqSpec::eq_spec(
                    &self@[index as int],
                    &other@[index as int],
                ));
                return false;
            }
            index += 1;
        }
        true
    }
}

impl<const LENGTH: usize, E: Enum<LENGTH>, V: PartialEq> PartialEqSpecImpl
    for EnumMap<LENGTH, E, V> {
    open spec fn obeys_eq_spec() -> bool {
        V::obeys_eq_spec()
    }

    open spec fn eq_spec(&self, other: &Self) -> bool {
        forall|position: int|
            0 <= position < LENGTH ==> PartialEqSpec::eq_spec(
                &(#[trigger] self@[position]),
                &other@[position],
            )
    }
}

impl<const LENGTH: usize, E: Enum<LENGTH>, V: Clone> Clone for EnumMap<LENGTH, E, V> {
    /// Copies the map slot by slot: the copy is occupied at the same
    /// positions, and each payload is a clone of the one at its position.
    fn clone(&self) -> (copy: Self)
        ensures
            forall|position: int|
                0 <= position < LENGTH ==> match (#[trigger] self@[position]) {
                    Some(value) => copy@[position] is Some && cloned(
                        value,
                        copy@[position].unwrap(),
                    ),
                    None => copy@[position] is None,
                },
    {
        let mut data: [Option<V>; LENGTH] = empty_slots();
        let mut index: usize = 0;
        while index < LENGTH
            invariant
                index <= LENGTH,
                forall|position: int|
                    0 <= position < index ==> match (#[trigger] self.data@[position]) {
                        Some(value) => data@[position] is Some && cloned(
                            value,
                            data@[position].unwrap(),
                        ),
                        None => data@[position] is None,
                    },
            decreases LENGTH - index,
        {
            data[index] = self.data[index].clone();
            index += 1;
        }
        Self { data, _enum: PhantomData }
    }
}

impl<const LENGTH: usize, E: Enum<LENGTH>, V> Default for EnumMap<LENGTH, E, V> {
    /// Creates an empty map.
    fn default() -> (map: Self)
        ensures
            map@ == no_entries::<V>(LENGTH as nat),
    {
        Self::new()
    }
}

impl<const LENGTH: usize, E: Enum<LENGTH>, V, const N: usize> From<[(E, V); N]>
    for EnumMap<LENGTH, E, V> {
    /// Builds a map from the given pairs, inserted one after the other into
    /// an empty map.
    fn from(pairs: [(E, V); N]) -> (map: Self)
        ensures
            map@ == inserted_all::<LENGTH, E, V>(no_entries::<V>(LENGTH as nat), pairs@),
    {
        let map = Self::from_iter(vec_from_array(pairs));
        proof {
            let built = Self::built_from(pairs@);
            assert(map.data@ == map@);
            assert(built.data@ == built@);
            assert(map.data =~= built.data);
        }
        map
    }
}

impl<const LENGTH: usize, E: Enum<LENGTH>, V, const N: usize> FromSpecImpl<[(E, V); N]>
    for EnumMap<LENGTH, E, V> {
    open spec fn obeys_from_spec() -> bool {
        true
    }

    open spec fn from_spec(pairs: [(E, V); N]) -> Self {
        Self::built_from(pairs@)
    }
}

impl<const LENGTH: usize, E: Enum<LENGTH>, V> EnumMap<LENGTH, E, V> {
    /// Creates an empty map.
    pub fn new() -> (map: Self)
        ensures
            map@ == no_entries::<V>(LENGTH as nat),
    {
        let map = Self { data: empty_slots(), _enum: PhantomData };
        assert(map@ =~= no_entries::<V>(LENGTH as nat));
        map
    }

    /// Empties every slot of the map.
    pub fn clear(&mut self)
        ensures
            final(self)@ == no_entries::<V>(LENGTH as nat),
    {
        self.data = empty_slots();
        assert(self@ =~= no_entries::<V>(LENGTH as nat));
    }

    /// A map has exactly one slot per position of the domain.
    pub broadcast proof fn lemma_view_len(&self)
        ensures
            #[trigger] self@.len() == LENGTH,
    {
    }

    /// The map that results from an empty map when the given pairs are
    /// inserted one after the other.
    pub open spec fn built_from(pairs: Seq<(E, V)>) -> Self {
        choose|map: Self|
            map@ == inserted_all::<LENGTH, E, V>(no_entries::<V>(LENGTH as nat), pairs)
    }

    /// Two maps with the same slots are the same map.
    pub proof fn lemma_view_injective(&self, other: &Self)
        requires
            self@ == other@,
        ensures
            *self == *other,
    {
        assert(self.data =~= other.data);
    }

    /// The payload that the map holds for `key`, if it holds one: the content
    /// of the slot at the position of `key`.
    pub open spec fn payload(&self, key: E) -> Option<V> {
        self@[E::spec_to_index(key) as int]
    }

    /// The occupied positions of the map, in ascending order.
    pub open spec fn positions(&self) -> Seq<int> {
        selected_from(occupied(self@), 0, LENGTH as int)
    }

    /// The entries of the map in ascending order of position: each occupied
    /// position with the value of the domain that stands there and the
    /// payload stored in its slot.
    pub open spec fn entries(&self) -> Seq<(E, V)> {
        entries_at::<LENGTH, E, V>(self@, self.positions())
    }

    /// Returns `true` if the map holds a payload for `key`.
    pub fn contains_key(&self, key: E) -> (present: bool)
        ensures
            present == (self.payload(key) is Some),
    {
        self.get(key).is_some()
    }

    /// Returns a reference to the payload stored for `key`.
    pub fn get(&self, key: E) -> (value: Option<&V>)
        ensures
            value == match self.payload(key) {
                Some(v) => Some(&v),
                None => None,
            },
    {
        proof {
            E::lemma_bijection();
        }
        self.data[E::to_index(key)].as_ref()
    }

    /// Returns a mutable reference to the payload stored for `key`. What is
    /// written through the reference is what the slot of `key` holds
    /// afterwards; no other slot changes.
    pub fn get_mut(&mut self, key: E) -> (value: Option<&mut V>)
        ensures
            match value {
                Some(payload) => {
                    &&& old(self).payload(key) == Some(*payload)
                    &&& final(self)@ == old(self)@.update(
                        E::spec_to_index(key) as int,
                        Some(*final(payload)),
                    )
                },
                None => {
                    &&& old(self).payload(key) is None
                    &&& final(self)@ == old(self)@
                },
            },
    {
        proof {
            E::lemma_bijection();
        }
        let index: usize = E::to_index(key);
        let value = self.data[index].as_mut();
        proof {
            assert(old(self)@.update(index as int, old(self)@[index as int]) =~= old(self)@);
        }
        value
    }

    /// Returns a reference to the payload stored for `key`, which the map
    /// must hold.
    pub fn index(&self, key: E) -> (value: &V)
        requires
            self.payload(key) is Some,
        ensures
            self.payload(key) == Some(*value),
    {
        proof {
            E::lemma_bijection();
        }
        self.data[E::to_index(key)].as_ref().unwrap()
    }

    /// Returns `true` if no slot of the map is occupied.
    pub fn is_empty(&self) -> (empty: bool)
        ensures
            empty == (self.positions().len() == 0),
            empty == (forall|position: int| 0 <= position < LENGTH ==> self@[position] is None),
    {
        let mut index: usize = 0;
        while index < LENGTH
            invariant
                index <= LENGTH,
                forall|position: int| 0 <= position < index ==> self@[position] is None,
            decreases LENGTH - index,
        {
            if self.data[index].is_some() {
                proof {
                    lemma_selected_first(occupied(self@), 0, index as int, LENGTH as int);
                }
                return false;
            }
            index += 1;
        }
        proof {
            lemma_selected_none(occupied(self@), 0, LENGTH as int);
        }
        true
    }

    /// Returns the number of occupied slots.
    pub fn len(&self) -> (count: usize)
        ensures
            count == self.positions().len(),
    {
        let mut count: usize = 0;
        let mut index: usize = LENGTH;
        while index > 0
            invariant
                index <= LENGTH,
                count == selected_from(occupied(self@), index as int, LENGTH as int).len(),
                count <= LENGTH - index,
            decreases index,
        {
            index -= 1;
            if self.data[index].is_some() {
                count += 1;
            }
        }
        count
    }

    /// Inserts the given pairs one after the other, so that of two pairs
    /// with the same key the later one stays.
    pub fn extend(&mut self, pairs: Vec<(E, V)>)
        ensures
            final(self)@ == inserted_all::<LENGTH, E, V>(old(self)@, pairs@),
    {
        let ghost all = pairs@;
        for pair in cursor: pairs
            invariant
                cursor.seq() == all,
                self@ == inserted_all::<LENGTH, E, V>(old(self)@, all.take(cursor.index() as int)),
        {
            proof {
                let done = all.take(cursor.index() as int);
                let more = all.take(cursor.index() + 1);
                assert(more.drop_last() =~= done);
                assert(more.last() == pair);
            }
            let (key, value) = pair;
            self.insert(key, value);
        }
        proof {
            assert(all.take(all.len() as int) =~= all);
        }
    }

    /// Builds a map from the given pairs, inserted one after the other into
    /// an empty map.
    pub fn from_iter(pairs: Vec<(E, V)>) -> (map: Self)
        ensures
            map@ == inserted_all::<LENGTH, E, V>(no_entries::<V>(LENGTH as nat), pairs@),
    {
        let mut map = Self::new();
        map.extend(pairs);
        map
    }

    /// The slots of the map, by position.
    pub(crate) fn as_slots(&self) -> (slots: &[Option<V>; LENGTH])
        ensures
            slots@ == self@,
    {
        &self.data
    }

    /// Returns a cursor over the entries of the map, which starts at the
    /// first position.
    pub fn iter(&self) -> (cursor: Iter<'_, LENGTH, E, V>)
        ensures
            cursor.slots() == self@,
            cursor.position() == 0,
            cursor.remaining() == self.positions(),
    {
        Iter { index: 0, map: self }
    }

    /// Returns a cursor over the keys of the map, which starts at the first
    /// position.
    pub fn keys(&self) -> (cursor: Keys<'_, LENGTH, E, V>)
        ensures
            cursor.slots() == self@,
            cursor.position() == 0,
            cursor.remaining() == self.positions(),
    {
        Keys { inner: self.iter() }
    }

    /// Returns a cursor over the payloads of the map, which starts at the
    /// first position.
    pub fn values(&self) -> (cursor: Values<'_, LENGTH, E, V>)
        ensures
            cursor.slots() == self@,
            cursor.position() == 0,
            cursor.remaining() == self.positions(),
    {
        Values { inner: self.iter() }
    }

    /// Returns a cursor over the entries of the map that lends out each
    /// payload for writing, starting at the first position. The map holds
    /// afterwards what the cursor's map holds when the cursor is dropped.
    pub fn iter_mut(&mut self) -> (cursor: IterMut<'_, LENGTH, E, V>)
        ensures
            cursor.map@ == old(self)@,
            cursor.index == 0,
            cursor.remaining() == old(self).positions(),
            final(cursor.map)@ == final(self)@,
    {
        IterMut { index: 0, map: self }
    }

    /// Returns a cursor over the payloads of the map that lends out each
    /// payload for writing, starting at the first position. The map holds
    /// afterwards what the cursor's map holds when the cursor is dropped.
    pub fn values_mut(&mut self) -> (cursor: ValuesMut<'_, LENGTH, E, V>)
        ensures
            cursor.inner.map@ == old(self)@,
            cursor.inner.index == 0,
            cursor.remaining() == old(self).positions(),
            final(cursor.inner.map)@ == final(self)@,
    {
        ValuesMut { inner: self.iter_mut() }
    }

    /// Turns the map into a cursor that hands out its entries, starting at
    /// the first position.
    pub fn into_iter(self) -> (cursor: IntoIter<LENGTH, E, V>)
        ensures
            cursor.slots() == self@,
            cursor.position() == 0,
            cursor.remaining() == self.positions(),
    {
        IntoIter::<LENGTH, E, V>::new(self)
    }

    /// Turns the map into a cursor that hands out its payloads, starting at
    /// the first position.
    pub fn into_values(self) -> (cursor: IntoValues<LENGTH, E, V>)
        ensures
            cursor.slots() == self@,
            cursor.position() == 0,
            cursor.remaining() == self.positions(),
    {
        IntoValues { inner: self.into_iter() }
    }

    /// Stores `value` for `key` and returns the payload that was stored
    /// for it before.
    pub fn insert(&mut self, key: E, value: V) -> (previous: Option<V>)
        ensures
            final(self)@ == old(self)@.update(E::spec_to_index(key) as int, Some(value)),
            previous == old(self).payload(key),
    {
        proof {
            E::lemma_bijection();
        }
        let index: usize = E::to_index(key);
        let mut slot: Option<V> = Some(value);
        core::mem::swap(&mut self.data[index], &mut slot);
        slot
    }

    /// Removes `key` from the map and returns the payload that was stored
    /// for it.
    pub fn remove(&mut self, key: E) -> (previous: Option<V>)
        ensures
            final(self)@ == old(self)@.update(E::spec_to_index(key) as int, None),
            previous == old(self).payload(key),
    {
        proof {
            E::lemma_bijection();
        }
        let index: usize = E::to_index(key);
        self.data[index].take()
    }
}

/// A cursor over the entries of a map, in ascending order of position.
pub struct Iter<'a, const LENGTH: usize, E: Enum<LENGTH>, V> {
    index: usize,
    map: &'a EnumMap<LENGTH, E, V>,
}

impl<'a, const LENGTH: usize, E: Enum<LENGTH>, V> Iter<'a, LENGTH, E, V> {
    /// The slots of the map that the cursor walks.
    pub closed spec fn slots(&self) -> Seq<Option<V>> {
        self.map@
    }

    /// A cursor walks exactly one slot per position of the domain.
    pub broadcast proof fn lemma_slots_len(&self)
        ensures
            #[trigger] self.slots().len() == LENGTH,
    {
        self.map.lemma_view_len();
    }

    /// The position from which the cursor goes on.
    pub closed spec fn position(&self) -> int {
        self.index as int
    }

    /// The positions whose entries the cursor has yet to yield, in the order
    /// in which it yields them.
    pub open spec fn remaining(&self) -> Seq<int> {
        selected_from(occupied(self.slots()), self.position(), LENGTH as int)
    }

    /// Yields the entry at the lowest occupied position that the cursor has
    /// not passed, or `None` once no such position is left.
    pub fn next(&mut self) -> (item: Option<(E, &'a V)>)
        ensures
            final(self).slots() == old(self).slots(),
            match item {
                Some((key, value)) => {
                    &&& old(self).remaining().len() > 0
                    &&& E::spec_from_index(old(self).remaining()[0] as usize) == Some(key)
                    &&& old(self).slots()[old(self).remaining()[0]] == Some(*value)
                    &&& final(self).remaining() == old(self).remaining().drop_first()
                    &&& final(self).position() == old(self).remaining()[0] + 1
                },
                None => {
                    &&& old(self).remaining().len() == 0
                    &&& final(self).remaining().len() == 0
                    &&& final(self).position() == if old(self).position() < LENGTH {
                        LENGTH as int
                    } else {
                        old(self).position()
                    }
                },
            },
    {
        proof {
            E::lemma_bijection();
            self.map.lemma_view_len();
        }
        let map: &'a EnumMap<LENGTH, E, V> = self.map;
        while self.index < LENGTH
            invariant
                self.map == map,
                old(self).map == map,
                map@.len() == LENGTH,
                old(self).index <= self.index,
                old(self).index < LENGTH ==> self.index <= LENGTH,
                old(self).index >= LENGTH ==> self.index == old(self).index,
                forall|position: int|
                    old(self).index <= position < self.index ==> !(#[trigger] occupied(map@)(
                        position,
                    )),
            decreases LENGTH - self.index,
        {
            let index: usize = self.index;
            self.index += 1;
            if let Some(value) = &map.data[index] {
                proof {
                    E::lemma_bijection();
                    lemma_selected_first(
                        occupied(map@),
                        old(self).index as int,
                        index as int,
                        LENGTH as int,
                    );
                }
                return match E::from_index(index) {
                    Some(key) => Some((key, value)),
                    None => None,
                };
            }
        }
        proof {
            lemma_selected_none(occupied(map@), old(self).index as int, LENGTH as int);
        }
        None
    }
}

/// A cursor over the keys of a map, in ascending order of position.
pub struct Keys<'a, const LENGTH: usize, E: Enum<LENGTH>, V> {
    inner: Iter<'a, LENGTH, E, V>,
}

impl<'a, const LENGTH: usize, E: Enum<LENGTH>, V> Keys<'a, LENGTH, E, V> {
    /// The slots of the map that the cursor walks.
    pub closed spec fn slots(&self) -> Seq<Option<V>> {
        self.inner.slots()
    }

    /// A cursor walks exactly one slot per position of the domain.
    pub broadcast proof fn lemma_slots_len(&self)
        ensures
            #[trigger] self.slots().len() == LENGTH,
    {
        self.inner.lemma_slots_len();
    }

    /// The position from which the cursor goes on.
    pub closed spec fn position(&self) -> int {
        self.inner.position()
    }

    /// The positions whose keys the cursor has yet to yield, in the order in
    /// which it yields them.
    pub open spec fn remaining(&self) -> Seq<int> {
        selected_from(occupied(self.slots()), self.position(), LENGTH as int)
    }

    /// Yields the key at the lowest occupied position that the cursor has
    /// not passed, or `None` once no such position is left.
    pub fn next(&mut self) -> (item: Option<E>)
        ensures
            final(self).slots() == old(self).slots(),
            match item {
                Some(key) => {
                    &&& old(self).remaining().len() > 0
                    &&& E::spec_from_index(old(self).remaining()[0] as usize) == Some(key)
                    &&& final(self).remaining() == old(self).remaining().drop_first()
                    &&& final(self).position() == old(self).remaining()[0] + 1
                },
                None => {
                    &&& old(self).remaining().len() == 0
                    &&& final(self).remaining().len() == 0
                    &&& final(self).position() == if old(self).position() < LENGTH {
                        LENGTH as int
                    } else {
                        old(self).position()
                    }
                },
            },
    {
        match self.inner.next() {
            Some((key, _)) => Some(key),
            None => None,
        }
    }
}

/// A cursor over the payloads of a map, in ascending order of position.
pub struct Values<'a, const LENGTH: usize, E: Enum<LENGTH>, V> {
    inner: Iter<'a, LENGTH, E, V>,
}

impl<'a, const LENGTH: usize, E: Enum<LENGTH>, V> Values<'a, LENGTH, E, V> {
    /// The slots of the map that the cursor walks.
    pub closed spec fn slots(&self) -> Seq<Option<V>> {
        self.inner.slots()
    }

    /// A cursor walks exactly one slot per position of the domain.
    pub broadcast proof fn lemma_slots_len(&self)
        ensures
            #[trigger] self.slots().len() == LENGTH,
    {
        self.inner.lemma_slots_len();
    }

    /// The position from which the cursor goes on.
    pub closed spec fn position(&self) -> int {
        self.inner.position()
    }

    /// The positions whose payloads the cursor has yet to yield, in the
    /// order in which it yields them.
    pub open spec fn remaining(&self) -> Seq<int> {
        selected_from(occupied(self.slots()), self.position(), LENGTH as int)
    }

    /// Yields the payload at the lowest occupied position that the cursor
    /// has not passed, or `None` once no such position is left.
    pub fn next(&mut self) -> (item: Option<&'a V>)
        ensures
            final(self).slots() == old(self).slots(),
            match item {
                Some(value) => {
                    &&& old(self).remaining().len() > 0
                    &&& old(self).slots()[old(self).remaining()[0]] == Some(*value)
                    &&& final(self).remaining() == old(self).remaining().drop_first()
                    &&& final(self).position() == old(self).remaining()[0] + 1
                },
                None => {
                    &&& old(self).remaining().len() == 0
                    &&& final(self).remaining().len() == 0
                    &&& final(self).position() == if old(self).position() < LENGTH {
                        LENGTH as int
                    } else {
                        old(self).position()
                    }
                },
            },
    {
        match self.inner.next() {
            Some((_, value)) => Some(value),
            None => None,
        }
    }
}

/// A cursor over the entries of a map that lends out each payload for
/// writing, in ascending order of position.
///
/// The cursor holds the map borrowed mutably: what `map` holds when the
/// cursor is dropped is what the map holds afterwards.
pub struct IterMut<'a, const LENGTH: usize, E: Enum<LENGTH>, V> {
    /// The position from which the cursor goes on.
    pub index: usize,
    /// The map that the cursor walks.
    pub map: &'a mut EnumMap<LENGTH, E, V>,
}

impl<'a, const LENGTH: usize, E: Enum<LENGTH>, V> IterMut<'a, LENGTH, E, V> {
    /// The positions whose entries the cursor has yet to yield, in the order
    /// in which it yields them.
    pub open spec fn remaining(&self) -> Seq<int> {
        selected_from(occupied(self.map@), self.index as int, LENGTH as int)
    }

    /// Yields the key at the lowest occupied position that the cursor has
    /// not passed, with a mutable reference to the payload there, or `None`
    /// once no such position is left. What is written through the reference
    /// is what that slot holds afterwards; no other slot changes.
    pub fn next(&mut self) -> (item: Option<(E, &mut V)>)
        ensures
            final(final(self).map)@ == final(old(self).map)@,
            match item {
                Some((key, value)) => {
                    &&& old(self).remaining().len() > 0
                    &&& E::spec_from_index(old(self).remaining()[0] as usize) == Some(key)
                    &&& old(self).map@[old(self).remaining()[0]] == Some(*value)
                    &&& final(self).map@ == old(self).map@.update(
                        old(self).remaining()[0],
                        Some(*final(value)),
                    )
                    &&& final(self).remaining() == old(self).remaining().drop_first()
                    &&& final(self).index == old(self).remaining()[0] + 1
                },
                None => {
                    &&& old(self).remaining().len() == 0
                    &&& final(self).map@ == old(self).map@
                    &&& final(self).remaining().len() == 0
                    &&& final(self).index == if old(self).index < LENGTH {
                        LENGTH as int
                    } else {
                        old(self).index as int
                    }
                },
            },
    {
        proof {
            self.map.lemma_view_len();
        }
        while self.index < LENGTH
            invariant
                self.map@ == old(self).map@,
                final(self.map)@ == final(old(self).map)@,
                self.map@.len() == LENGTH,
                old(self).index <= self.index,
                old(self).index < LENGTH ==> self.index <= LENGTH,
                old(self).index >= LENGTH ==> self.index == old(self).index,
                forall|position: int|
                    old(self).index <= position < self.index ==> !(#[trigger] occupied(
                        self.map@,
                    )(position)),
            decreases LENGTH - self.index,
        {
            let index: usize = self.index;
            self.index += 1;
            if self.map.data[index].is_some() {
                proof {
                    E::lemma_bijection();
                    lemma_selected_first(
                        occupied(old(self).map@),
                        old(self).index as int,
                        index as int,
                        LENGTH as int,
                    );
                }
                let key: Option<E> = E::from_index(index);
                let value: Option<&mut V> = self.map.data[index].as_mut();
                proof {
                    let written = old(self).map@.update(
                        index as int,
                        Some(*final(value.unwrap())),
                    );
                    lemma_selected_agree(
                        occupied(old(self).map@),
                        occupied(written),
                        index + 1,
                        LENGTH as int,
                    );
                }
                return match (key, value) {
                    (Some(key), Some(value)) => Some((key, value)),
                    _ => None,
                };
            }
        }
        proof {
            lemma_selected_none(occupied(self.map@), old(self).index as int, LENGTH as int);
        }
        None
    }
}

/// A cursor over the payloads of a map that lends out each payload for
/// writing, in ascending order of position.
pub struct ValuesMut<'a, const LENGTH: usize, E: Enum<LENGTH>, V> {
    /// The cursor over the entries from which the payloads are taken.
    pub inner: IterMut<'a, LENGTH, E, V>,
}

impl<'a, const LENGTH: usize, E: Enum<LENGTH>, V> ValuesMut<'a, LENGTH, E, V> {
    /// The positions whose payloads the cursor has yet to yield, in the
    /// order in which it yields them.
    pub open spec fn remaining(&self) -> Seq<int> {
        self.inner.remaining()
    }

    /// Yields a mutable reference to the payload at the lowest occupied
    /// position that the cursor has not passed, or `None` once no such
    /// position is left. What is written through the reference is what that
    /// slot holds afterwards; no other slot changes.
    pub fn next(&mut self) -> (item: Option<&mut V>)
        ensures
            final(final(self).inner.map)@ == final(old(self).inner.map)@,
            match item {
                Some(value) => {
                    &&& old(self).remaining().len() > 0
                    &&& old(self).inner.map@[old(self).remaining()[0]] == Some(*value)
                    &&& final(self).inner.map@ == old(self).inner.map@.update(
                        old(self).remaining()[0],
                        Some(*final(value)),
                    )
                    &&& final(self).remaining() == old(self).remaining().drop_first()
                    &&& final(self).inner.index == old(self).remaining()[0] + 1
                },
                None => {
                    &&& old(self).remaining().len() == 0
                    &&& final(self).inner.map@ == old(self).inner.map@
                    &&& final(self).remaining().len() == 0
                    &&& final(self).inner.index == if old(self).inner.index < LENGTH {
                        LENGTH as int
                    } else {
                        old(self).inner.index as int
                    }
                },
            },
    {
        match self.inner.next() {
            Some((_, value)) => Some(value),
            None => None,
        }
    }
}

/// A cursor that owns a map and hands out its entries, in ascending order of
/// position, emptying each slot that it passes.
pub struct IntoIter<const LENGTH: usize, E: Enum<LENGTH>, V> {
    index: usize,
    map: EnumMap<LENGTH, E, V>,
}

impl<const LENGTH: usize, E: Enum<LENGTH>, V> IntoIter<LENGTH, E, V> {
    /// The slots of the map that the cursor owns.
    pub closed spec fn slots(&self) -> Seq<Option<V>> {
        self.map@
    }

    /// A cursor walks exactly one slot per position of the domain.
    pub broadcast proof fn lemma_slots_len(&self)
        ensures
            #[trigger] self.slots().len() == LENGTH,
    {
        self.map.lemma_view_len();
    }

    /// The position from which the cursor goes on.
    pub closed spec fn position(&self) -> int {
        self.index as int
    }

    /// The positions whose entries the cursor has yet to yield, in the order
    /// in which it yields them.
    pub open spec fn remaining(&self) -> Seq<int> {
        selected_from(occupied(self.slots()), self.position(), LENGTH as int)
    }

    fn new(map: EnumMap<LENGTH, E, V>) -> (cursor: Self)
        ensures
            cursor.slots() == map@,
            cursor.position() == 0,
    {
        Self { index: 0, map }
    }

    /// Takes the entry at the lowest occupied position that the cursor has
    /// not passed out of the map and yields it, or yields `None` once no
    /// such position is left.
    pub fn next(&mut self) -> (item: Option<(E, V)>)
        ensures
            match item {
                Some((key, value)) => {
                    &&& old(self).remaining().len() > 0
                    &&& E::spec_from_index(old(self).remaining()[0] as usize) == Some(key)
                    &&& old(self).slots()[old(self).remaining()[0]] == Some(value)
                    &&& final(self).slots() == old(self).slots().update(
                        old(self).remaining()[0],
                        None,
                    )
                    &&& final(self).remaining() == old(self).remaining().drop_first()
                    &&& final(self).position() == old(self).remaining()[0] + 1
                },
                None => {
                    &&& old(self).remaining().len() == 0
                    &&& final(self).slots() == old(self).slots()
                    &&& final(self).remaining().len() == 0
                    &&& final(self).position() == if old(self).position() < LENGTH {
                        LENGTH as int
                    } else {
                        old(self).position()
                    }
                },
            },
    {
        proof {
            E::lemma_bijection();
            self.map.lemma_view_len();
        }
        while self.index < LENGTH
            invariant
                self.map@ == old(self).map@,
                self.map@.len() == LENGTH,
                old(self).index <= self.index,
                old(self).index < LENGTH ==> self.index <= LENGTH,
                old(self).index >= LENGTH ==> self.index == old(self).index,
                forall|position: int|
                    old(self).index <= position < self.index ==> !(#[trigger] occupied(
                        self.map@,
                    )(position)),
            decreases LENGTH - self.index,
        {
            let index: usize = self.index;
            self.index += 1;
            let value: Option<V> = self.map.data[index].take();
            if let Some(value) = value {
                proof {
                    E::lemma_bijection();
                    lemma_selected_first(
                        occupied(old(self).map@),
                        old(self).index as int,
                        index as int,
                        LENGTH as int,
                    );
                    lemma_selected_agree(
                        occupied(old(self).map@),
                        occupied(self.map@),
                        index + 1,
                        LENGTH as int,
                    );
                }
                return match E::from_index(index) {
                    Some(key) => Some((key, value)),
                    None => None,
                };
            }
            assert(self.map@ =~= old(self).map@);
        }
        proof {
            lemma_selected_none(occupied(self.map@), old(self).index as int, LENGTH as int);
        }
        None
    }
}

/// A cursor that owns a map and hands out its payloads, in ascending order
/// of position, emptying each slot that it passes.
pub struct IntoValues<const LENGTH: usize, E: Enum<LENGTH>, V> {
    inner: IntoIter<LENGTH, E, V>,
}

impl<const LENGTH: usize, E: Enum<LENGTH>, V> IntoValues<LENGTH, E, V> {
    /// The slots of the map that the cursor owns.
    pub closed spec fn slots(&self) -> Seq<Option<V>> {
        self.inner.slots()
    }

    /// A cursor walks exactly one slot per position of the domain.
    pub broadcast proof fn lemma_slots_len(&self)
        ensures
            #[trigger] self.slots().len() == LENGTH,
    {
        self.inner.lemma_slots_len();
    }

    /// The position from which the cursor goes on.
    pub closed spec fn position(&self) -> int {
        self.inner.position()
    }

    /// The positions whose payloads the cursor has yet to yield, in the
    /// order in which it yields them.
    pub open spec fn remaining(&self) -> Seq<int> {
        selected_from(occupied(self.slots()), self.position(), LENGTH as int)
    }

    /// Takes the payload at the lowest occupied position that the cursor has
    /// not passed out of the map and yields it, or yields `None` once no
    /// such position is left.
    pub fn next(&mut self) -> (item: Option<V>)
        ensures
            match item {
                Some(value) => {
                    &&& old(self).remaining().len() > 0
                    &&& old(self).slots()[old(self).remaining()[0]] == Some(value)
                    &&& final(self).slots() == old(self).slots().update(
                        old(self).remaining()[0],
                        None,
                    )
                    &&& final(self).remaining() == old(self).remaining().drop_first()
                    &&& final(self).position() == old(self).remaining()[0] + 1
                },
                None => {
                    &&& old(self).remaining().len() == 0
                    &&& final(self).slots() == old(self).slots()
                    &&& final(self).remaining().len() == 0
                    &&& final(self).position() == if old(self).position() < LENGTH {
                        LENGTH as int
                    } else {
                        old(self).position()
                    }
                },
            },
    {
        match self.inner.next() {
            Some((_, value)) => Some(value),
            None => None,
        }
    }
}

/// A fault that a walk over the positions of a domain has found in the
/// domain's bijection.
#[derive(Clone, Copy, Debug, PartialEq, Eq, Structural)]
pub enum EnumImplError {
    /// No value stands at a position below the length of the domain.
    MissingVariant { index: usize },
    /// The value that stands at a position has another position.
    IndexMismatch { index: usize, found: usize },
    /// A value stands at the position that is the length of the domain, so
    /// that the domain has more values than its length says.
    ExtraVariant,
}

/// What a probe of one position shows of a domain of the given length, where
/// `found` is the position of the value that stands at `index`, if one does.
pub open spec fn probe_outcome(length: usize, index: usize, found: Option<usize>) -> Result<
    (),
    EnumImplError,
> {
    if index < length {
        match found {
            None => Err(EnumImplError::MissingVariant { index }),
            Some(position) => if position == index {
                Ok(())
            } else {
                Err(EnumImplError::IndexMismatch { index, found: position })
            },
        }
    } else {
        match found {
            None => Ok(()),
            Some(_) => Err(EnumImplError::ExtraVariant),
        }
    }
}

/// Judges the probe of one position of a domain of the given length:
/// `found` is the position of the value that stands at `index`, if one does.
/// Below the length a value must stand whose position is `index`; from the
/// length on no value may stand.
pub fn check_position(length: usize, index: usize, found: Option<usize>) -> (outcome: Result<
    (),
    EnumImplError,
>)
    ensures
        outcome == probe_outcome(length, index, found),
{
    if index < length {
        match found {
            None => Err(EnumImplError::MissingVariant { index }),
            Some(position) => if position == index {
                Ok(())
            } else {
                Err(EnumImplError::IndexMismatch { index, found: position })
            },
        }
    } else {
        match found {
            None => Ok(()),
            Some(_) => Err(EnumImplError::ExtraVariant),
        }
    }
}

/// The position of the value that stands at `index` in a domain, if one
/// stands there.
pub open spec fn found_at<const LENGTH: usize, E: Enum<LENGTH>>(index: usize) -> Option<usize> {
    match E::spec_from_index(index) {
        Some(value) => Some(E::spec_to_index(value)),
        None => None,
    }
}

/// Asks a domain for the value at `index` and, if one stands there, for the
/// position of that value.
fn probe<const LENGTH: usize, E: Enum<LENGTH>>(index: usize) -> (found: Option<usize>)
    ensures
        found == found_at::<LENGTH, E>(index),
{
    proof {
        E::lemma_bijection();
    }
    match E::from_index(index) {
        Some(value) => Some(E::to_index(value)),
        None => None,
    }
}

/// Walks the positions `0..=LENGTH` of a domain and judges each with
/// [`check_position`], stopping at the first fault. A domain whose bijection
/// has been proved has none, so the walk ends well; the walk is there for
/// domains that were compiled without being verified.
pub fn assert_enum_impl<const LENGTH: usize, E: Enum<LENGTH>>() -> (outcome: Result<
    (),
    EnumImplError,
>)
    ensures
        outcome is Ok,
        forall|index: usize|
            index <= LENGTH ==> probe_outcome(
                LENGTH,
                index,
                #[trigger] found_at::<LENGTH, E>(index),
            ) is Ok,
{
    proof {
        E::lemma_bijection();
    }
    let mut index: usize = 0;
    while index < LENGTH
        invariant
            index <= LENGTH,
        decreases LENGTH - index,
    {
        proof {
            E::lemma_bijection();
        }
        let checked = check_position(LENGTH, index, probe::<LENGTH, E>(index));
        if checked.is_err() {
            return checked;
        }
        index += 1;
    }
    check_position(LENGTH, LENGTH, probe::<LENGTH, E>(LENGTH))
}

/// The slots of a map over a domain of the given length that holds no
/// entries.
pub open spec fn no_entries<V>(length: nat) -> Seq<Option<V>> {
    Seq::new(length, |position: int| None::<V>)
}

/// The slots that result from `slots` when the given pairs are inserted one
/// after the other: each pair puts its payload into the slot at the position
/// of its key.
pub open spec fn inserted_all<const LENGTH: usize, E: Enum<LENGTH>, V>(
    slots: Seq<Option<V>>,
    pairs: Seq<(E, V)>,
) -> Seq<Option<V>>
    decreases pairs.len(),
{
    if pairs.len() == 0 {
        slots
    } else {
        inserted_all::<LENGTH, E, V>(slots, pairs.drop_last()).update(
            E::spec_to_index(pairs.last().0) as int,
            Some(pairs.last().1),
        )
    }
}

/// The entries that stand at the given positions of `slots`, in the order of
/// the positions.
pub open spec fn entries_at<const LENGTH: usize, E: Enum<LENGTH>, V>(
    slots: Seq<Option<V>>,
    positions: Seq<int>,
) -> Seq<(E, V)> {
    positions.map_values(
        |position: int| (E::spec_from_index(position as usize).unwrap(), slots[position].unwrap()),
    )
}

} // verus!
