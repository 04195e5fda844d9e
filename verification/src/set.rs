//! A set of values of a finite domain, kept as a map with empty payloads.

use core::marker::PhantomData;
use vstd::prelude::*;
use vstd::std_specs::cmp::PartialEqSpecImpl;
use vstd::std_specs::convert::FromSpecImpl;
use vstd::std_specs::ops::{BitAndSpecImpl, BitOrSpecImpl, BitXorSpecImpl, SubSpecImpl};

use crate::map::{vec_from_array, EnumMap};
use crate::positions::{
    lemma_selected_agree, lemma_selected_empty, lemma_selected_first, lemma_selected_least,
    lemma_selected_none, occupied, selected_from,
};
use crate::Enum;

verus! {

/// A set of values of a finite domain: a map in which the slot of a value is
/// occupied exactly if the value belongs to the set.
#[derive(Copy, Eq, Debug)]
pub struct EnumSet<const LENGTH: usize, E: Enum<LENGTH>>(EnumMap<LENGTH, E, ()>);

impl<const LENGTH: usize, E: Enum<LENGTH>> View for EnumSet<LENGTH, E> {
    type V = Seq<bool>;

    /// For each position of the domain, whether the value that stands there
    /// belongs to the set.
    closed spec fn view(&self) -> Seq<bool> {
        membership(self.0@)
    }
}

/// For each slot, whether it is occupied.
pub open spec fn membership(slots: Seq<Option<()>>) -> Seq<bool> {
    Seq::new(slots.len(), |position: int| slots[position] is Some)
}

/// The predicate that holds of the positions that belong to a set.
pub open spec fn member(set: Seq<bool>) -> spec_fn(int) -> bool {
    |position: int| 0 <= position < set.len() && set[position]
}

/// The set that results from `members` when the given values are added.
pub open spec fn added_all<const LENGTH: usize, E: Enum<LENGTH>>(
    members: Seq<bool>,
    values: Seq<E>,
) -> Seq<bool> {
    Seq::new(
        members.len(),
        |position: int|
            members[position] || exists|i: int|
                0 <= i < values.len() && E::spec_to_index(#[trigger] values[i]) as int == position,
    )
}

/// The values that stand at the given positions, in the order of the
/// positions.
pub open spec fn values_at<const LENGTH: usize, E: Enum<LENGTH>>(positions: Seq<int>) -> Seq<E> {
    positions.map_values(|position: int| E::spec_from_index(position as usize).unwrap())
}

/// The set with no members over a domain of the given length.
pub open spec fn no_members(length: nat) -> Seq<bool> {
    Seq::new(length, |position: int| false)
}

impl<const LENGTH: usize, E: Enum<LENGTH>> PartialEq for EnumSet<LENGTH, E> {
    /// Two sets are equal if they have the same members.
    fn eq(&self, other: &Self) -> (equal: bool) {
        let this = self.0.as_slots();
        let that = other.0.as_slots();
        let mut index: usize = 0;
        while index < LENGTH
            invariant
                index <= LENGTH,
                this@ == self.0@,
                that@ == other.0@,
                forall|position: int|
                    0 <= position < index ==> self@[position] == other@[position],
            decreases LENGTH - index,
        {
            if this[index].is_some() != that[index].is_some() {
                assert(self@[index as int] != other@[index as int]);
                return false;
            }
            index += 1;
        }
        assert(self@ =~= other@);
        true
    }
}

impl<const LENGTH: usize, E: Enum<LENGTH>> PartialEqSpecImpl for EnumSet<LENGTH, E> {
    open spec fn obeys_eq_spec() -> bool {
        true
    }

    open spec fn eq_spec(&self, other: &Self) -> bool {
        self@ == other@
    }
}

impl<const LENGTH: usize, E: Enum<LENGTH>> Clone for EnumSet<LENGTH, E> {
    /// Copies the set.
    fn clone(&self) -> (copy: Self)
        ensures
            copy@ == self@,
    {
        let copy = Self(self.0.clone());
        proof {
            self.0.lemma_view_len();
            copy.0.lemma_view_len();
            assert(copy@ =~= self@);
        }
        copy
    }
}

impl<const LENGTH: usize, E: Enum<LENGTH>> Default for EnumSet<LENGTH, E> {
    /// Creates an empty set.
    fn default() -> (set: Self)
        ensures
            set@ == no_members(LENGTH as nat),
    {
        Self::new()
    }
}

impl<'a, const LENGTH: usize, E: Enum<LENGTH>> core::ops::BitAnd<&'a EnumSet<LENGTH, E>>
    for &'a EnumSet<LENGTH, E> {
    type Output = EnumSet<LENGTH, E>;

    /// Returns the set of the values that belong to both sets.
    fn bitand(self, rhs: &'a EnumSet<LENGTH, E>) -> (set: EnumSet<LENGTH, E>)
        ensures
            set@ == Seq::new(LENGTH as nat, in_intersection(self@, rhs@)),
    {
        let ghost selected = in_intersection(self@, rhs@);
        let ghost wanted = Seq::new(LENGTH as nat, in_intersection(self@, rhs@));
        let mut set: EnumSet<LENGTH, E> = EnumSet::new();
        let mut cursor = self.intersection(rhs);
        proof {
            self.lemma_view_len();
            rhs.lemma_view_len();
        }
        loop
            invariant
                cursor.left() == self@,
                cursor.right() == rhs@,
                selected == in_intersection(self@, rhs@),
                self@.len() == LENGTH,
                rhs@.len() == LENGTH,
                0 <= cursor.position(),
                set@.len() == LENGTH,
                forall|position: int|
                    0 <= position < LENGTH ==> (#[trigger] set@[position]) == (position
                        < cursor.position() && selected(position)),
            ensures
                cursor.position() >= LENGTH,
            decreases cursor.remaining().len(),
        {
            proof {
                E::lemma_bijection();
                if cursor.remaining().len() > 0 {
                    lemma_selected_least(selected, cursor.position(), LENGTH as int);
                } else {
                    lemma_selected_empty(selected, cursor.position(), LENGTH as int);
                }
            }
            match cursor.next() {
                Some(value) => {
                    set.insert(value);
                },
                None => {
                    break ;
                },
            }
        }
        proof {
            assert(set@ =~= wanted);
            set.lemma_view_injective(&EnumSet::with_members(wanted));
        }
        set
    }
}

impl<'a, const LENGTH: usize, E: Enum<LENGTH>> BitAndSpecImpl<&'a EnumSet<LENGTH, E>>
    for &'a EnumSet<LENGTH, E> {
    open spec fn obeys_bitand_spec() -> bool {
        true
    }

    open spec fn bitand_req(self, rhs: &'a EnumSet<LENGTH, E>) -> bool {
        true
    }

    open spec fn bitand_spec(self, rhs: &'a EnumSet<LENGTH, E>) -> EnumSet<LENGTH, E> {
        EnumSet::with_members(Seq::new(LENGTH as nat, in_intersection(self@, rhs@)))
    }
}

impl<const LENGTH: usize, E: Enum<LENGTH>> core::ops::BitAnd<E> for EnumSet<LENGTH, E> {
    type Output = EnumSet<LENGTH, E>;

    /// Returns the set that holds `rhs` if `rhs` belongs to this set, and
    /// nothing else.
    fn bitand(self, rhs: E) -> (set: EnumSet<LENGTH, E>)
        ensures
            set@ == no_members(LENGTH as nat).update(
                E::spec_to_index(rhs) as int,
                self.has(rhs),
            ),
    {
        proof {
            E::lemma_bijection();
            self.lemma_view_len();
        }
        let mut set: EnumSet<LENGTH, E> = self;
        if set.contains(rhs) {
            set.clear();
            set.insert(rhs);
        } else {
            set.clear();
        }
        proof {
            let wanted = no_members(LENGTH as nat).update(
                E::spec_to_index(rhs) as int,
                self.has(rhs),
            );
            assert(set@ =~= wanted);
            set.lemma_view_injective(&EnumSet::with_members(wanted));
        }
        set
    }
}

impl<const LENGTH: usize, E: Enum<LENGTH>> BitAndSpecImpl<E> for EnumSet<LENGTH, E> {
    open spec fn obeys_bitand_spec() -> bool {
        true
    }

    open spec fn bitand_req(self, rhs: E) -> bool {
        true
    }

    open spec fn bitand_spec(self, rhs: E) -> EnumSet<LENGTH, E> {
        EnumSet::with_members(
            no_members(LENGTH as nat).update(E::spec_to_index(rhs) as int, self.has(rhs)),
        )
    }
}

impl<'a, const LENGTH: usize, E: Enum<LENGTH>> core::ops::BitOr<&'a EnumSet<LENGTH, E>>
    for &'a EnumSet<LENGTH, E> {
    type Output = EnumSet<LENGTH, E>;

    /// Returns the set of the values that belong to at least one of the two sets.
    fn bitor(self, rhs: &'a EnumSet<LENGTH, E>) -> (set: EnumSet<LENGTH, E>)
        ensures
            set@ == Seq::new(LENGTH as nat, in_union(self@, rhs@)),
    {
        let ghost selected = in_union(self@, rhs@);
        let ghost wanted = Seq::new(LENGTH as nat, in_union(self@, rhs@));
        let mut set: EnumSet<LENGTH, E> = EnumSet::new();
        let mut cursor = self.union(rhs);
        proof {
            self.lemma_view_len();
            rhs.lemma_view_len();
        }
        loop
            invariant
                cursor.left() == self@,
                cursor.right() == rhs@,
                selected == in_union(self@, rhs@),
                self@.len() == LENGTH,
                rhs@.len() == LENGTH,
                0 <= cursor.position(),
                set@.len() == LENGTH,
                forall|position: int|
                    0 <= position < LENGTH ==> (#[trigger] set@[position]) == (position
                        < cursor.position() && selected(position)),
            ensures
                cursor.position() >= LENGTH,
            decreases cursor.remaining().len(),
        {
            proof {
                E::lemma_bijection();
                if cursor.remaining().len() > 0 {
                    lemma_selected_least(selected, cursor.position(), LENGTH as int);
                } else {
                    lemma_selected_empty(selected, cursor.position(), LENGTH as int);
                }
            }
            match cursor.next() {
                Some(value) => {
                    set.insert(value);
                },
                None => {
                    break ;
                },
            }
        }
        proof {
            assert(set@ =~= wanted);
            set.lemma_view_injective(&EnumSet::with_members(wanted));
        }
        set
    }
}

impl<'a, const LENGTH: usize, E: Enum<LENGTH>> BitOrSpecImpl<&'a EnumSet<LENGTH, E>>
    for &'a EnumSet<LENGTH, E> {
    open spec fn obeys_bitor_spec() -> bool {
        true
    }

    open spec fn bitor_req(self, rhs: &'a EnumSet<LENGTH, E>) -> bool {
        true
    }

    open spec fn bitor_spec(self, rhs: &'a EnumSet<LENGTH, E>) -> EnumSet<LENGTH, E> {
        EnumSet::with_members(Seq::new(LENGTH as nat, in_union(self@, rhs@)))
    }
}

impl<const LENGTH: usize, E: Enum<LENGTH>> core::ops::BitOr<E> for EnumSet<LENGTH, E> {
    type Output = EnumSet<LENGTH, E>;

    /// Returns this set with `rhs` added.
    fn bitor(self, rhs: E) -> (set: EnumSet<LENGTH, E>)
        ensures
            set@ == self@.update(E::spec_to_index(rhs) as int, true),
    {
        proof {
            E::lemma_bijection();
            self.lemma_view_len();
        }
        let mut set: EnumSet<LENGTH, E> = self;
        set.insert(rhs);
        proof {
            let wanted = self@.update(E::spec_to_index(rhs) as int, true);
            assert(set@ =~= wanted);
            set.lemma_view_injective(&EnumSet::with_members(wanted));
        }
        set
    }
}

impl<const LENGTH: usize, E: Enum<LENGTH>> BitOrSpecImpl<E> for EnumSet<LENGTH, E> {
    open spec fn obeys_bitor_spec() -> bool {
        true
    }

    open spec fn bitor_req(self, rhs: E) -> bool {
        true
    }

    open spec fn bitor_spec(self, rhs: E) -> EnumSet<LENGTH, E> {
        EnumSet::with_members(self@.update(E::spec_to_index(rhs) as int, true))
    }
}

impl<'a, const LENGTH: usize, E: Enum<LENGTH>> core::ops::BitXor<&'a EnumSet<LENGTH, E>>
    for &'a EnumSet<LENGTH, E> {
    type Output = EnumSet<LENGTH, E>;

    /// Returns the set of the values that belong to exactly one of the two sets.
    fn bitxor(self, rhs: &'a EnumSet<LENGTH, E>) -> (set: EnumSet<LENGTH, E>)
        ensures
            set@ == Seq::new(LENGTH as nat, in_symmetric_difference(self@, rhs@)),
    {
        let ghost selected = in_symmetric_difference(self@, rhs@);
        let ghost wanted = Seq::new(LENGTH as nat, in_symmetric_difference(self@, rhs@));
        let mut set: EnumSet<LENGTH, E> = EnumSet::new();
        let mut cursor = self.symmetric_difference(rhs);
        proof {
            self.lemma_view_len();
            rhs.lemma_view_len();
        }
        loop
            invariant
                cursor.left() == self@,
                cursor.right() == rhs@,
                selected == in_symmetric_difference(self@, rhs@),
                self@.len() == LENGTH,
                rhs@.len() == LENGTH,
                0 <= cursor.position(),
                set@.len() == LENGTH,
                forall|position: int|
                    0 <= position < LENGTH ==> (#[trigger] set@[position]) == (position
                        < cursor.position() && selected(position)),
            ensures
                cursor.position() >= LENGTH,
            decreases cursor.remaining().len(),
        {
            proof {
                E::lemma_bijection();
                if cursor.remaining().len() > 0 {
                    lemma_selected_least(selected, cursor.position(), LENGTH as int);
                } else {
                    lemma_selected_empty(selected, cursor.position(), LENGTH as int);
                }
            }
            match cursor.next() {
                Some(value) => {
                    set.insert(value);
                },
                None => {
                    break ;
                },
            }
        }
        proof {
            assert(set@ =~= wanted);
            set.lemma_view_injective(&EnumSet::with_members(wanted));
        }
        set
    }
}

impl<'a, const LENGTH: usize, E: Enum<LENGTH>> BitXorSpecImpl<&'a EnumSet<LENGTH, E>>
    for &'a EnumSet<LENGTH, E> {
    open spec fn obeys_bitxor_spec() -> bool {
        true
    }

    open spec fn bitxor_req(self, rhs: &'a EnumSet<LENGTH, E>) -> bool {
        true
    }

    open spec fn bitxor_spec(self, rhs: &'a EnumSet<LENGTH, E>) -> EnumSet<LENGTH, E> {
        EnumSet::with_members(Seq::new(LENGTH as nat, in_symmetric_difference(self@, rhs@)))
    }
}

impl<const LENGTH: usize, E: Enum<LENGTH>> core::ops::BitXor<E> for EnumSet<LENGTH, E> {
    type Output = EnumSet<LENGTH, E>;

    /// Returns this set with `rhs` toggled: removed if it belongs to the set,
    /// added if it does not.
    fn bitxor(self, rhs: E) -> (set: EnumSet<LENGTH, E>)
        ensures
            set@ == self@.update(E::spec_to_index(rhs) as int, !self.has(rhs)),
    {
        proof {
            E::lemma_bijection();
            self.lemma_view_len();
        }
        let mut set: EnumSet<LENGTH, E> = self;
        if !set.remove(rhs) {
            set.insert(rhs);
        }
        proof {
            let wanted = self@.update(E::spec_to_index(rhs) as int, !self.has(rhs));
            assert(set@ =~= wanted);
            set.lemma_view_injective(&EnumSet::with_members(wanted));
        }
        set
    }
}

impl<const LENGTH: usize, E: Enum<LENGTH>> BitXorSpecImpl<E> for EnumSet<LENGTH, E> {
    open spec fn obeys_bitxor_spec() -> bool {
        true
    }

    open spec fn bitxor_req(self, rhs: E) -> bool {
        true
    }

    open spec fn bitxor_spec(self, rhs: E) -> EnumSet<LENGTH, E> {
        EnumSet::with_members(self@.update(E::spec_to_index(rhs) as int, !self.has(rhs)))
    }
}

impl<'a, const LENGTH: usize, E: Enum<LENGTH>> core::ops::Sub<&'a EnumSet<LENGTH, E>>
    for &'a EnumSet<LENGTH, E> {
    type Output = EnumSet<LENGTH, E>;

    /// Returns the set of the values that belong to the first set and not to the second.
    fn sub(self, rhs: &'a EnumSet<LENGTH, E>) -> (set: EnumSet<LENGTH, E>)
        ensures
            set@ == Seq::new(LENGTH as nat, in_difference(self@, rhs@)),
    {
        let ghost selected = in_difference(self@, rhs@);
        let ghost wanted = Seq::new(LENGTH as nat, in_difference(self@, rhs@));
        let mut set: EnumSet<LENGTH, E> = EnumSet::new();
        let mut cursor = self.difference(rhs);
        proof {
            self.lemma_view_len();
            rhs.lemma_view_len();
        }
        loop
            invariant
                cursor.left() == self@,
                cursor.right() == rhs@,
                selected == in_difference(self@, rhs@),
                self@.len() == LENGTH,
                rhs@.len() == LENGTH,
                0 <= cursor.position(),
                set@.len() == LENGTH,
                forall|position: int|
                    0 <= position < LENGTH ==> (#[trigger] set@[position]) == (position
                        < cursor.position() && selected(position)),
            ensures
                cursor.position() >= LENGTH,
            decreases cursor.remaining().len(),
        {
            proof {
                E::lemma_bijection();
                if cursor.remaining().len() > 0 {
                    lemma_selected_least(selected, cursor.position(), LENGTH as int);
                } else {
                    lemma_selected_empty(selected, cursor.position(), LENGTH as int);
                }
            }
            match cursor.next() {
                Some(value) => {
                    set.insert(value);
                },
                None => {
                    break ;
                },
            }
        }
        proof {
            assert(set@ =~= wanted);
            set.lemma_view_injective(&EnumSet::with_members(wanted));
        }
        set
    }
}

impl<'a, const LENGTH: usize, E: Enum<LENGTH>> SubSpecImpl<&'a EnumSet<LENGTH, E>>
    for &'a EnumSet<LENGTH, E> {
    open spec fn obeys_sub_spec() -> bool {
        true
    }

    open spec fn sub_req(self, rhs: &'a EnumSet<LENGTH, E>) -> bool {
        true
    }

    open spec fn sub_spec(self, rhs: &'a EnumSet<LENGTH, E>) -> EnumSet<LENGTH, E> {
        EnumSet::with_members(Seq::new(LENGTH as nat, in_difference(self@, rhs@)))
    }
}

impl<const LENGTH: usize, E: Enum<LENGTH>, const N: usize> From<[E; N]>
    for EnumSet<LENGTH, E> {
    /// Builds the set of the given values.
    fn from(values: [E; N]) -> (set: Self)
        ensures
            set@ == added_all::<LENGTH, E>(no_members(LENGTH as nat), values@),
    {
        let set = Self::from_iter(vec_from_array(values));
        proof {
            set.lemma_view_injective(
                &EnumSet::with_members(
                    added_all::<LENGTH, E>(no_members(LENGTH as nat), values@),
                ),
            );
        }
        set
    }
}

impl<const LENGTH: usize, E: Enum<LENGTH>, const N: usize> FromSpecImpl<[E; N]>
    for EnumSet<LENGTH, E> {
    open spec fn obeys_from_spec() -> bool {
        true
    }

    open spec fn from_spec(values: [E; N]) -> Self {
        EnumSet::with_members(added_all::<LENGTH, E>(no_members(LENGTH as nat), values@))
    }
}

impl<const LENGTH: usize, E: Enum<LENGTH>, V> From<EnumMap<LENGTH, E, V>>
    for EnumSet<LENGTH, E> {
    /// Builds the set of the keys of a map: a value belongs to the set
    /// exactly if its slot in the map is occupied.
    fn from(map: EnumMap<LENGTH, E, V>) -> (set: Self)
        ensures
            set@ == Seq::new(LENGTH as nat, |position: int| map@[position] is Some),
    {
        let ghost wanted = Seq::new(LENGTH as nat, |position: int| map@[position] is Some);
        let mut set: EnumSet<LENGTH, E> = EnumSet::new();
        let slots = map.as_slots();
        let mut index: usize = 0;
        while index < LENGTH
            invariant
                index <= LENGTH,
                slots@ == map@,
                set@.len() == LENGTH,
                forall|position: int|
                    0 <= position < LENGTH ==> (#[trigger] set@[position]) == (position < index
                        && map@[position] is Some),
            decreases LENGTH - index,
        {
            proof {
                E::lemma_bijection();
            }
            if slots[index].is_some() {
                if let Some(value) = E::from_index(index) {
                    set.insert(value);
                }
            }
            index += 1;
        }
        proof {
            assert(set@ =~= wanted);
            set.lemma_view_injective(&EnumSet::with_members(wanted));
        }
        set
    }
}

impl<const LENGTH: usize, E: Enum<LENGTH>, V> FromSpecImpl<EnumMap<LENGTH, E, V>>
    for EnumSet<LENGTH, E> {
    open spec fn obeys_from_spec() -> bool {
        true
    }

    open spec fn from_spec(map: EnumMap<LENGTH, E, V>) -> Self {
        EnumSet::with_members(Seq::new(LENGTH as nat, |position: int| map@[position] is Some))
    }
}

impl<const LENGTH: usize, E: Enum<LENGTH>> EnumSet<LENGTH, E> {
    /// Adds the given values to the set.
    pub fn extend(&mut self, values: Vec<E>)
        ensures
            final(self)@ == added_all::<LENGTH, E>(old(self)@, values@),
    {
        let ghost all = values@;
        proof {
            self.lemma_view_len();
            assert(self@ =~= added_all::<LENGTH, E>(old(self)@, all.take(0)));
        }
        for value in cursor: values
            invariant
                cursor.seq() == all,
                old(self)@.len() == LENGTH,
                self@ == added_all::<LENGTH, E>(old(self)@, all.take(cursor.index() as int)),
        {
            let ghost before = self@;
            self.insert(value);
            proof {
                E::lemma_bijection();
                let done = all.take(cursor.index() as int);
                let more = all.take(cursor.index() + 1);
                let target = added_all::<LENGTH, E>(old(self)@, more);
                assert(more[cursor.index() as int] == value);
                assert forall|position: int| 0 <= position < LENGTH implies self@[position]
                    == target[position] by {
                    if position == E::spec_to_index(value) as int {
                        assert(E::spec_to_index(more[cursor.index() as int]) as int == position);
                    } else if before[position] && !old(self)@[position] {
                        let i = choose|i: int|
                            0 <= i < done.len() && E::spec_to_index(#[trigger] done[i]) as int
                                == position;
                        assert(more[i] == done[i]);
                    } else if target[position] && !old(self)@[position] {
                        let i = choose|i: int|
                            0 <= i < more.len() && E::spec_to_index(#[trigger] more[i]) as int
                                == position;
                        assert(done[i] == more[i]);
                    }
                }
                assert(self@ =~= target);
            }
        }
        proof {
            assert(all.take(all.len() as int) =~= all);
        }
    }

    /// Builds the set of the given values.
    pub fn from_iter(values: Vec<E>) -> (set: Self)
        ensures
            set@ == added_all::<LENGTH, E>(no_members(LENGTH as nat), values@),
    {
        let mut set = Self::new();
        set.extend(values);
        set
    }

    /// The set with the given members.
    pub open spec fn with_members(members: Seq<bool>) -> Self {
        choose|set: Self| set@ == members
    }

    /// Two sets with the same members are the same set.
    pub proof fn lemma_view_injective(&self, other: &Self)
        requires
            self@ == other@,
        ensures
            *self == *other,
    {
        self.0.lemma_view_len();
        other.0.lemma_view_len();
        assert forall|position: int| 0 <= position < LENGTH implies self.0@[position]
            == other.0@[position] by {
            assert(self@[position] == (self.0@[position] is Some));
            assert(other@[position] == (other.0@[position] is Some));
            match (self.0@[position], other.0@[position]) {
                (Some(here), Some(there)) => {
                    assert(here == there);
                },
                _ => {},
            }
        }
        assert(self.0@ =~= other.0@);
        self.0.lemma_view_injective(&other.0);
    }

    /// A set has exactly one entry per position of the domain.
    pub broadcast proof fn lemma_view_len(&self)
        ensures
            #[trigger] self@.len() == LENGTH,
    {
        self.0.lemma_view_len();
    }

    /// Whether `value` belongs to the set: the entry at the position of
    /// `value`.
    pub open spec fn has(&self, value: E) -> bool {
        self@[E::spec_to_index(value) as int]
    }

    /// The members of the set, in ascending order of position.
    pub open spec fn members(&self) -> Seq<E> {
        values_at::<LENGTH, E>(self.positions())
    }

    /// The positions of the members of the set, in ascending order.
    pub open spec fn positions(&self) -> Seq<int> {
        selected_from(member(self@), 0, LENGTH as int)
    }

    /// Creates an empty set.
    pub fn new() -> (set: Self)
        ensures
            set@ == no_members(LENGTH as nat),
    {
        let set = Self(EnumMap::new());
        assert(set@ =~= no_members(LENGTH as nat));
        set
    }

    /// Removes every member from the set.
    pub fn clear(&mut self)
        ensures
            final(self)@ == no_members(LENGTH as nat),
    {
        self.0.clear();
        assert(self@ =~= no_members(LENGTH as nat));
    }

    /// Returns `true` if `value` belongs to the set.
    pub fn contains(&self, value: E) -> (present: bool)
        ensures
            present == self.has(value),
    {
        proof {
            E::lemma_bijection();
            self.0.lemma_view_len();
        }
        self.0.contains_key(value)
    }

    /// Adds `value` to the set and returns `true` if it did not belong to
    /// the set before.
    pub fn insert(&mut self, value: E) -> (added: bool)
        ensures
            final(self)@ == old(self)@.update(E::spec_to_index(value) as int, true),
            added == !old(self).has(value),
    {
        proof {
            E::lemma_bijection();
            self.0.lemma_view_len();
        }
        let added = self.0.insert(value, ()).is_none();
        assert(self@ =~= old(self)@.update(E::spec_to_index(value) as int, true));
        added
    }

    /// Removes `value` from the set and returns `true` if it belonged to the
    /// set before.
    pub fn remove(&mut self, value: E) -> (removed: bool)
        ensures
            final(self)@ == old(self)@.update(E::spec_to_index(value) as int, false),
            removed == old(self).has(value),
    {
        proof {
            E::lemma_bijection();
            self.0.lemma_view_len();
        }
        let removed = self.0.remove(value).is_some();
        assert(self@ =~= old(self)@.update(E::spec_to_index(value) as int, false));
        removed
    }

    /// Returns a cursor over the members of the set, which starts at the
    /// first position.
    pub fn iter(&self) -> (cursor: Iter<'_, LENGTH, E>)
        ensures
            cursor.members() == self@,
            cursor.position() == 0,
            cursor.remaining() == self.positions(),
    {
        Iter { inner: self.0.keys() }
    }

    /// Turns the set into a cursor that hands out its members, starting at
    /// the first position.
    pub fn into_iter(self) -> (cursor: IntoIter<LENGTH, E>)
        ensures
            cursor.members() == self@,
            cursor.position() == 0,
            cursor.remaining() == self.positions(),
    {
        IntoIter { inner: self.0.into_iter() }
    }

    /// Returns a cursor over the values that belong to this set and
    /// not to `other`, which starts at the first position.
    pub fn difference<'a>(
        &'a self,
        other: &'a EnumSet<LENGTH, E>,
    ) -> (cursor: Difference<'a, LENGTH, E>)
        ensures
            cursor.left() == self@,
            cursor.right() == other@,
            cursor.position() == 0,
    {
        Difference {
            this: self.0.as_slots(),
            other: other.0.as_slots(),
            index: 0,
            _enum: PhantomData,
        }
    }

    /// Returns a cursor over the values that belong to this set and
    /// to `other`, which starts at the first position.
    pub fn intersection<'a>(
        &'a self,
        other: &'a EnumSet<LENGTH, E>,
    ) -> (cursor: Intersection<'a, LENGTH, E>)
        ensures
            cursor.left() == self@,
            cursor.right() == other@,
            cursor.position() == 0,
    {
        Intersection {
            this: self.0.as_slots(),
            other: other.0.as_slots(),
            index: 0,
            _enum: PhantomData,
        }
    }

    /// Returns a cursor over the values that belong to this set or to
    /// `other`, which starts at the first position.
    pub fn union<'a>(
        &'a self,
        other: &'a EnumSet<LENGTH, E>,
    ) -> (cursor: Union<'a, LENGTH, E>)
        ensures
            cursor.left() == self@,
            cursor.right() == other@,
            cursor.position() == 0,
    {
        Union {
            this: self.0.as_slots(),
            other: other.0.as_slots(),
            index: 0,
            _enum: PhantomData,
        }
    }

    /// Returns a cursor over the values that belong to exactly one
    /// of this set and `other`, which starts at the first position.
    pub fn symmetric_difference<'a>(
        &'a self,
        other: &'a EnumSet<LENGTH, E>,
    ) -> (cursor: SymmetricDifference<'a, LENGTH, E>)
        ensures
            cursor.left() == self@,
            cursor.right() == other@,
            cursor.position() == 0,
    {
        SymmetricDifference {
            this: self.0.as_slots(),
            other: other.0.as_slots(),
            index: 0,
            _enum: PhantomData,
        }
    }

    /// Returns `true` if no value belongs to both sets, which is the case
    /// exactly if the cursor over their intersection yields nothing.
    pub fn is_disjoint(&self, other: &EnumSet<LENGTH, E>) -> (disjoint: bool)
        ensures
            disjoint == (forall|position: int|
                0 <= position < LENGTH ==> !(self@[position] && other@[position])),
            disjoint == (selected_from(in_intersection(self@, other@), 0, LENGTH as int).len()
                == 0),
    {
        let ghost selected = in_intersection(self@, other@);
        proof {
            self.lemma_view_len();
            other.lemma_view_len();
        }
        let disjoint = self.intersection(other).next().is_none();
        proof {
            if disjoint {
                lemma_selected_empty(selected, 0, LENGTH as int);
                assert forall|position: int| 0 <= position < LENGTH implies !(self@[position]
                    && other@[position]) by {
                    assert(!selected(position));
                }
            } else {
                lemma_selected_least(selected, 0, LENGTH as int);
            }
        }
        disjoint
    }

    /// Returns `true` if every member of this set belongs to `other`, which
    /// is the case exactly if the cursor over the difference of this set and
    /// `other` yields nothing.
    pub fn is_subset(&self, other: &EnumSet<LENGTH, E>) -> (subset: bool)
        ensures
            subset == (forall|position: int|
                0 <= position < LENGTH ==> (self@[position] ==> other@[position])),
            subset == (selected_from(in_difference(self@, other@), 0, LENGTH as int).len() == 0),
    {
        let ghost selected = in_difference(self@, other@);
        proof {
            self.lemma_view_len();
            other.lemma_view_len();
        }
        let subset = self.difference(other).next().is_none();
        proof {
            if subset {
                lemma_selected_empty(selected, 0, LENGTH as int);
                assert forall|position: int|
                    0 <= position < LENGTH && self@[position] implies other@[position] by {
                    assert(!selected(position));
                }
            } else {
                lemma_selected_least(selected, 0, LENGTH as int);
            }
        }
        subset
    }

    /// Returns `true` if every member of `other` belongs to this set, which
    /// is the case exactly if the cursor over the difference of `other` and
    /// this set yields nothing.
    pub fn is_superset(&self, other: &EnumSet<LENGTH, E>) -> (superset: bool)
        ensures
            superset == (forall|position: int|
                0 <= position < LENGTH ==> (other@[position] ==> self@[position])),
            superset == (selected_from(in_difference(other@, self@), 0, LENGTH as int).len()
                == 0),
    {
        let ghost selected = in_difference(other@, self@);
        proof {
            self.lemma_view_len();
            other.lemma_view_len();
        }
        let superset = other.difference(self).next().is_none();
        proof {
            if superset {
                lemma_selected_empty(selected, 0, LENGTH as int);
                assert forall|position: int|
                    0 <= position < LENGTH && other@[position] implies self@[position] by {
                    assert(!selected(position));
                }
            } else {
                lemma_selected_least(selected, 0, LENGTH as int);
            }
        }
        superset
    }

    /// Returns the number of members.
    pub fn len(&self) -> (count: usize)
        ensures
            count == self.positions().len(),
    {
        proof {
            self.0.lemma_view_len();
            lemma_selected_agree(
                occupied(self.0@),
                member(self@),
                0,
                LENGTH as int,
            );
        }
        self.0.len()
    }

    /// Returns `true` if the set has no members.
    pub fn is_empty(&self) -> (empty: bool)
        ensures
            empty == (self.positions().len() == 0),
            empty == (forall|position: int| 0 <= position < LENGTH ==> !self@[position]),
    {
        proof {
            self.0.lemma_view_len();
            lemma_selected_agree(
                occupied(self.0@),
                member(self@),
                0,
                LENGTH as int,
            );
        }
        let empty = self.0.is_empty();
        proof {
            if empty {
                assert forall|position: int| 0 <= position < LENGTH implies !self@[position] by {
                    assert(self.0@[position] is None);
                }
            } else {
                let position = choose|position: int|
                    0 <= position < LENGTH && !(self.0@[position] is None);
                assert(self@[position]);
            }
        }
        empty
    }
}

/// The predicate that holds of the positions that belong to `left` and not
/// to `right`.
pub open spec fn in_difference(left: Seq<bool>, right: Seq<bool>) -> spec_fn(int) -> bool {
    |position: int| member(left)(position) && !member(right)(position)
}

/// The predicate that holds of the positions that belong to both sets.
pub open spec fn in_intersection(left: Seq<bool>, right: Seq<bool>) -> spec_fn(int) -> bool {
    |position: int| member(left)(position) && member(right)(position)
}

/// The predicate that holds of the positions that belong to at least one of
/// the two sets.
pub open spec fn in_union(left: Seq<bool>, right: Seq<bool>) -> spec_fn(int) -> bool {
    |position: int| member(left)(position) || member(right)(position)
}

/// The predicate that holds of the positions that belong to exactly one of
/// the two sets.
pub open spec fn in_symmetric_difference(left: Seq<bool>, right: Seq<bool>) -> spec_fn(
    int,
) -> bool {
    |position: int| member(left)(position) != member(right)(position)
}

/// A cursor over the members of a set, in ascending order of position.
pub struct Iter<'a, const LENGTH: usize, E: Enum<LENGTH>> {
    inner: crate::map::Keys<'a, LENGTH, E, ()>,
}

impl<'a, const LENGTH: usize, E: Enum<LENGTH>> Iter<'a, LENGTH, E> {
    /// The set that the cursor walks.
    pub closed spec fn members(&self) -> Seq<bool> {
        membership(self.inner.slots())
    }

    /// The position from which the cursor goes on.
    pub closed spec fn position(&self) -> int {
        self.inner.position()
    }

    /// The positions of the members that the cursor has yet to yield, in the
    /// order in which it yields them.
    pub open spec fn remaining(&self) -> Seq<int> {
        selected_from(member(self.members()), self.position(), LENGTH as int)
    }

    /// Yields the member at the lowest position that the cursor has not
    /// passed, or `None` once no member is left.
    pub fn next(&mut self) -> (item: Option<E>)
        ensures
            final(self).members() == old(self).members(),
            match item {
                Some(value) => {
                    &&& old(self).remaining().len() > 0
                    &&& E::spec_from_index(old(self).remaining()[0] as usize) == Some(value)
                    &&& final(self).remaining() == old(self).remaining().drop_first()
                    &&& final(self).position() == old(self).remaining()[0] + 1
                },
                None => {
                    &&& old(self).remaining().len() == 0
                    &&& final(self).remaining().len() == 0
                    &&& final(self).position() == if old(self).position() < LENGTH {
                        LENGTH as int
                    } else {
                        old(self).position()
                    }
                },
            },
    {
        proof {
            lemma_selected_agree(
                occupied(self.inner.slots()),
                member(self.members()),
                self.inner.position(),
                LENGTH as int,
            );
        }
        let item = self.inner.next();
        proof {
            lemma_selected_agree(
                occupied(self.inner.slots()),
                member(self.members()),
                self.inner.position(),
                LENGTH as int,
            );
        }
        item
    }
}

/// A cursor that owns a set and hands out its members, in ascending order of
/// position, removing each member that it passes.
pub struct IntoIter<const LENGTH: usize, E: Enum<LENGTH>> {
    inner: crate::map::IntoIter<LENGTH, E, ()>,
}

impl<const LENGTH: usize, E: Enum<LENGTH>> IntoIter<LENGTH, E> {
    /// The set that the cursor owns.
    pub closed spec fn members(&self) -> Seq<bool> {
        membership(self.inner.slots())
    }

    /// The position from which the cursor goes on.
    pub closed spec fn position(&self) -> int {
        self.inner.position()
    }

    /// The positions of the members that the cursor has yet to yield, in the
    /// order in which it yields them.
    pub open spec fn remaining(&self) -> Seq<int> {
        selected_from(member(self.members()), self.position(), LENGTH as int)
    }

    /// Takes the member at the lowest position that the cursor has not
    /// passed out of the set and yields it, or yields `None` once no member
    /// is left.
    pub fn next(&mut self) -> (item: Option<E>)
        ensures
            match item {
                Some(value) => {
                    &&& old(self).remaining().len() > 0
                    &&& E::spec_from_index(old(self).remaining()[0] as usize) == Some(value)
                    &&& final(self).members() == old(self).members().update(
                        old(self).remaining()[0],
                        false,
                    )
                    &&& final(self).remaining() == old(self).remaining().drop_first()
                    &&& final(self).position() == old(self).remaining()[0] + 1
                },
                None => {
                    &&& old(self).remaining().len() == 0
                    &&& final(self).members() == old(self).members()
                    &&& final(self).remaining().len() == 0
                    &&& final(self).position() == if old(self).position() < LENGTH {
                        LENGTH as int
                    } else {
                        old(self).position()
                    }
                },
            },
    {
        proof {
            lemma_selected_agree(
                occupied(self.inner.slots()),
                member(self.members()),
                self.inner.position(),
                LENGTH as int,
            );
        }
        let item = self.inner.next();
        proof {
            lemma_selected_agree(
                occupied(self.inner.slots()),
                member(self.members()),
                self.inner.position(),
                LENGTH as int,
            );
            if item is Some {
                old(self).inner.lemma_slots_len();
                crate::positions::lemma_selected_members(
                    member(old(self).members()),
                    old(self).position(),
                    LENGTH as int,
                );
                assert(old(self).remaining().contains(old(self).remaining()[0]));
                assert(self.members() =~= old(self).members().update(
                    old(self).remaining()[0],
                    false,
                ));
            }
        }
        match item {
            Some((value, _)) => Some(value),
            None => None,
        }
    }
}

/// A cursor over the values that belong to one set and not to another, in
/// ascending order of position.
pub struct Difference<'a, const LENGTH: usize, E: Enum<LENGTH>> {
    this: &'a [Option<()>; LENGTH],
    other: &'a [Option<()>; LENGTH],
    index: usize,
    _enum: PhantomData<E>,
}

impl<'a, const LENGTH: usize, E: Enum<LENGTH>> Difference<'a, LENGTH, E> {
    /// The first of the two sets that the cursor walks.
    pub closed spec fn left(&self) -> Seq<bool> {
        membership(self.this@)
    }

    /// The second of the two sets that the cursor walks.
    pub closed spec fn right(&self) -> Seq<bool> {
        membership(self.other@)
    }

    /// The position from which the cursor goes on.
    pub closed spec fn position(&self) -> int {
        self.index as int
    }

    /// Both sets have exactly one entry per position of the domain.
    pub broadcast proof fn lemma_sides_len(&self)
        ensures
            #[trigger] self.left().len() == LENGTH,
            #[trigger] self.right().len() == LENGTH,
    {
    }

    /// The positions that the cursor has yet to yield, in the order in which
    /// it yields them.
    pub open spec fn remaining(&self) -> Seq<int> {
        selected_from(in_difference(self.left(), self.right()), self.position(), LENGTH as int)
    }

    /// Yields the value at the lowest position that the cursor has not
    /// passed and that belongs to the first set and not to the second,
    /// or `None` once no such position is left.
    pub fn next(&mut self) -> (item: Option<E>)
        ensures
            final(self).left() == old(self).left(),
            final(self).right() == old(self).right(),
            match item {
                Some(value) => {
                    &&& old(self).remaining().len() > 0
                    &&& E::spec_from_index(old(self).remaining()[0] as usize) == Some(value)
                    &&& final(self).remaining() == old(self).remaining().drop_first()
                    &&& final(self).position() == old(self).remaining()[0] + 1
                },
                None => {
                    &&& old(self).remaining().len() == 0
                    &&& final(self).remaining().len() == 0
                    &&& final(self).position() == if old(self).position() < LENGTH {
                        LENGTH as int
                    } else {
                        old(self).position()
                    }
                },
            },
    {
        let ghost selected = in_difference(self.left(), self.right());
        while self.index < LENGTH
            invariant
                self.this == old(self).this,
                self.other == old(self).other,
                selected == in_difference(self.left(), self.right()),
                old(self).index <= self.index,
                old(self).index < LENGTH ==> self.index <= LENGTH,
                old(self).index >= LENGTH ==> self.index == old(self).index,
                forall|position: int|
                    old(self).index <= position < self.index ==> !(#[trigger] selected(position)),
            decreases LENGTH - self.index,
        {
            let index: usize = self.index;
            self.index += 1;
            if self.this[index].is_some() && self.other[index].is_none() {
                proof {
                    E::lemma_bijection();
                    lemma_selected_first(
                        selected,
                        old(self).index as int,
                        index as int,
                        LENGTH as int,
                    );
                }
                return E::from_index(index);
            }
        }
        proof {
            lemma_selected_none(selected, old(self).index as int, LENGTH as int);
        }
        None
    }
}

/// A cursor over the values that belong to both of two sets, in ascending
/// order of position.
pub struct Intersection<'a, const LENGTH: usize, E: Enum<LENGTH>> {
    this: &'a [Option<()>; LENGTH],
    other: &'a [Option<()>; LENGTH],
    index: usize,
    _enum: PhantomData<E>,
}

impl<'a, const LENGTH: usize, E: Enum<LENGTH>> Intersection<'a, LENGTH, E> {
    /// The first of the two sets that the cursor walks.
    pub closed spec fn left(&self) -> Seq<bool> {
        membership(self.this@)
    }

    /// The second of the two sets that the cursor walks.
    pub closed spec fn right(&self) -> Seq<bool> {
        membership(self.other@)
    }

    /// The position from which the cursor goes on.
    pub closed spec fn position(&self) -> int {
        self.index as int
    }

    /// Both sets have exactly one entry per position of the domain.
    pub broadcast proof fn lemma_sides_len(&self)
        ensures
            #[trigger] self.left().len() == LENGTH,
            #[trigger] self.right().len() == LENGTH,
    {
    }

    /// The positions that the cursor has yet to yield, in the order in which
    /// it yields them.
    pub open spec fn remaining(&self) -> Seq<int> {
        selected_from(in_intersection(self.left(), self.right()), self.position(), LENGTH as int)
    }

    /// Yields the value at the lowest position that the cursor has not
    /// passed and that belongs to both sets,
    /// or `None` once no such position is left.
    pub fn next(&mut self) -> (item: Option<E>)
        ensures
            final(self).left() == old(self).left(),
            final(self).right() == old(self).right(),
            match item {
                Some(value) => {
                    &&& old(self).remaining().len() > 0
                    &&& E::spec_from_index(old(self).remaining()[0] as usize) == Some(value)
                    &&& final(self).remaining() == old(self).remaining().drop_first()
                    &&& final(self).position() == old(self).remaining()[0] + 1
                },
                None => {
                    &&& old(self).remaining().len() == 0
                    &&& final(self).remaining().len() == 0
                    &&& final(self).position() == if old(self).position() < LENGTH {
                        LENGTH as int
                    } else {
                        old(self).position()
                    }
                },
            },
    {
        let ghost selected = in_intersection(self.left(), self.right());
        while self.index < LENGTH
            invariant
                self.this == old(self).this,
                self.other == old(self).other,
                selected == in_intersection(self.left(), self.right()),
                old(self).index <= self.index,
                old(self).index < LENGTH ==> self.index <= LENGTH,
                old(self).index >= LENGTH ==> self.index == old(self).index,
                forall|position: int|
                    old(self).index <= position < self.index ==> !(#[trigger] selected(position)),
            decreases LENGTH - self.index,
        {
            let index: usize = self.index;
            self.index += 1;
            if self.this[index].is_some() && self.other[index].is_some() {
                proof {
                    E::lemma_bijection();
                    lemma_selected_first(
                        selected,
                        old(self).index as int,
                        index as int,
                        LENGTH as int,
                    );
                }
                return E::from_index(index);
            }
        }
        proof {
            lemma_selected_none(selected, old(self).index as int, LENGTH as int);
        }
        None
    }
}

/// A cursor over the values that belong to at least one of two sets, in
/// ascending order of position.
pub struct Union<'a, const LENGTH: usize, E: Enum<LENGTH>> {
    this: &'a [Option<()>; LENGTH],
    other: &'a [Option<()>; LENGTH],
    index: usize,
    _enum: PhantomData<E>,
}

impl<'a, const LENGTH: usize, E: Enum<LENGTH>> Union<'a, LENGTH, E> {
    /// The first of the two sets that the cursor walks.
    pub closed spec fn left(&self) -> Seq<bool> {
        membership(self.this@)
    }

    /// The second of the two sets that the cursor walks.
    pub closed spec fn right(&self) -> Seq<bool> {
        membership(self.other@)
    }

    /// The position from which the cursor goes on.
    pub closed spec fn position(&self) -> int {
        self.index as int
    }

    /// Both sets have exactly one entry per position of the domain.
    pub broadcast proof fn lemma_sides_len(&self)
        ensures
            #[trigger] self.left().len() == LENGTH,
            #[trigger] self.right().len() == LENGTH,
    {
    }

    /// The positions that the cursor has yet to yield, in the order in which
    /// it yields them.
    pub open spec fn remaining(&self) -> Seq<int> {
        selected_from(in_union(self.left(), self.right()), self.position(), LENGTH as int)
    }

    /// Yields the value at the lowest position that the cursor has not
    /// passed and that belongs to at least one of the two sets,
    /// or `None` once no such position is left.
    pub fn next(&mut self) -> (item: Option<E>)
        ensures
            final(self).left() == old(self).left(),
            final(self).right() == old(self).right(),
            match item {
                Some(value) => {
                    &&& old(self).remaining().len() > 0
                    &&& E::spec_from_index(old(self).remaining()[0] as usize) == Some(value)
                    &&& final(self).remaining() == old(self).remaining().drop_first()
                    &&& final(self).position() == old(self).remaining()[0] + 1
                },
                None => {
                    &&& old(self).remaining().len() == 0
                    &&& final(self).remaining().len() == 0
                    &&& final(self).position() == if old(self).position() < LENGTH {
                        LENGTH as int
                    } else {
                        old(self).position()
                    }
                },
            },
    {
        let ghost selected = in_union(self.left(), self.right());
        while self.index < LENGTH
            invariant
                self.this == old(self).this,
                self.other == old(self).other,
                selected == in_union(self.left(), self.right()),
                old(self).index <= self.index,
                old(self).index < LENGTH ==> self.index <= LENGTH,
                old(self).index >= LENGTH ==> self.index == old(self).index,
                forall|position: int|
                    old(self).index <= position < self.index ==> !(#[trigger] selected(position)),
            decreases LENGTH - self.index,
        {
            let index: usize = self.index;
            self.index += 1;
            if self.this[index].is_some() || self.other[index].is_some() {
                proof {
                    E::lemma_bijection();
                    lemma_selected_first(
                        selected,
                        old(self).index as int,
                        index as int,
                        LENGTH as int,
                    );
                }
                return E::from_index(index);
            }
        }
        proof {
            lemma_selected_none(selected, old(self).index as int, LENGTH as int);
        }
        None
    }
}

/// A cursor over the values that belong to exactly one of two sets, in
/// ascending order of position.
pub struct SymmetricDifference<'a, const LENGTH: usize, E: Enum<LENGTH>> {
    this: &'a [Option<()>; LENGTH],
    other: &'a [Option<()>; LENGTH],
    index: usize,
    _enum: PhantomData<E>,
}

impl<'a, const LENGTH: usize, E: Enum<LENGTH>> SymmetricDifference<'a, LENGTH, E> {
    /// The first of the two sets that the cursor walks.
    pub closed spec fn left(&self) -> Seq<bool> {
        membership(self.this@)
    }

    /// The second of the two sets that the cursor walks.
    pub closed spec fn right(&self) -> Seq<bool> {
        membership(self.other@)
    }

    /// The position from which the cursor goes on.
    pub closed spec fn position(&self) -> int {
        self.index as int
    }

    /// Both sets have exactly one entry per position of the domain.
    pub broadcast proof fn lemma_sides_len(&self)
        ensures
            #[trigger] self.left().len() == LENGTH,
            #[trigger] self.right().len() == LENGTH,
    {
    }

    /// The positions that the cursor has yet to yield, in the order in which
    /// it yields them.
    pub open spec fn remaining(&self) -> Seq<int> {
        selected_from(
            in_symmetric_difference(self.left(), self.right()),
            self.position(),
            LENGTH as int,
        )
    }

    /// Yields the value at the lowest position that the cursor has not
    /// passed and that belongs to exactly one of the two sets,
    /// or `None` once no such position is left.
    pub fn next(&mut self) -> (item: Option<E>)
        ensures
            final(self).left() == old(self).left(),
            final(self).right() == old(self).right(),
            match item {
                Some(value) => {
                    &&& old(self).remaining().len() > 0
                    &&& E::spec_from_index(old(self).remaining()[0] as usize) == Some(value)
                    &&& final(self).remaining() == old(self).remaining().drop_first()
                    &&& final(self).position() == old(self).remaining()[0] + 1
                },
                None => {
                    &&& old(self).remaining().len() == 0
                    &&& final(self).remaining().len() == 0
                    &&& final(self).position() == if old(self).position() < LENGTH {
                        LENGTH as int
                    } else {
                        old(self).position()
                    }
                },
            },
    {
        let ghost selected = in_symmetric_difference(self.left(), self.right());
        while self.index < LENGTH
            invariant
                self.this == old(self).this,
                self.other == old(self).other,
                selected == in_symmetric_difference(self.left(), self.right()),
                old(self).index <= self.index,
                old(self).index < LENGTH ==> self.index <= LENGTH,
                old(self).index >= LENGTH ==> self.index == old(self).index,
                forall|position: int|
                    old(self).index <= position < self.index ==> !(#[trigger] selected(position)),
            decreases LENGTH - self.index,
        {
            let index: usize = self.index;
            self.index += 1;
            if self.this[index].is_some() != self.other[index].is_some() {
                proof {
                    E::lemma_bijection();
                    lemma_selected_first(
                        selected,
                        old(self).index as int,
                        index as int,
                        LENGTH as int,
                    );
                }
                return E::from_index(index);
            }
        }
        proof {
            lemma_selected_none(selected, old(self).index as int, LENGTH as int);
        }
        None
    }
}

} // verus!
