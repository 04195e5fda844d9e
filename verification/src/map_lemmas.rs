//! What holds of every map: how lookups follow insertions and removals, in
//! which order the entries are walked, how the count of entries relates to
//! the keys, and that a map can be rebuilt from its entries.

use vstd::prelude::*;

use crate::map::{entries_at, inserted_all, no_entries, EnumMap};
use crate::positions::{
    lemma_selected_ascending, lemma_selected_members, occupied, selected_from,
};
use crate::Enum;

verus! {

/// After a payload has been inserted for a key, a lookup of the key gives
/// that payload. A second insertion for the same key hands back the first
/// payload, and a lookup then gives the second. No other key is touched.
pub proof fn lemma_insert_then_get<const LENGTH: usize, E: Enum<LENGTH>, V>(
    before: EnumMap<LENGTH, E, V>,
    once: EnumMap<LENGTH, E, V>,
    twice: EnumMap<LENGTH, E, V>,
    key: E,
    first: V,
    second: V,
)
    requires
        once@ == before@.update(E::spec_to_index(key) as int, Some(first)),
        twice@ == once@.update(E::spec_to_index(key) as int, Some(second)),
    ensures
        once.payload(key) == Some(first),
        twice.payload(key) == Some(second),
        forall|other: E| other != key ==> #[trigger] once.payload(other) == before.payload(other),
{
    E::lemma_bijection();
    before.lemma_view_len();
    once.lemma_view_len();
    assert forall|other: E| other != key implies #[trigger] once.payload(other) == before.payload(
        other,
    ) by {
        lemma_positions_differ::<LENGTH, E>(key, other);
    }
}

/// Two values of a domain that differ stand at different positions.
pub proof fn lemma_positions_differ<const LENGTH: usize, E: Enum<LENGTH>>(first: E, second: E)
    requires
        first != second,
    ensures
        E::spec_to_index(first) != E::spec_to_index(second),
{
    E::lemma_bijection();
    if E::spec_to_index(first) == E::spec_to_index(second) {
        assert(E::spec_from_index(E::spec_to_index(first)) == Some(first));
        assert(E::spec_from_index(E::spec_to_index(second)) == Some(second));
    }
}

/// The removal of a key that the map does not hold leaves the map as it
/// was. The removal of a key that the map holds hands back its payload, and
/// the map does not hold the key afterwards.
pub proof fn lemma_remove<const LENGTH: usize, E: Enum<LENGTH>, V>(
    before: EnumMap<LENGTH, E, V>,
    after: EnumMap<LENGTH, E, V>,
    key: E,
)
    requires
        after@ == before@.update(E::spec_to_index(key) as int, None),
    ensures
        before.payload(key) is None ==> after == before,
        after.payload(key) is None,
        forall|other: E| other != key ==> #[trigger] after.payload(other) == before.payload(other),
{
    E::lemma_bijection();
    before.lemma_view_len();
    after.lemma_view_len();
    if before.payload(key) is None {
        assert(after@ =~= before@);
        after.lemma_view_injective(&before);
    }
    assert forall|other: E| other != key implies #[trigger] after.payload(other) == before.payload(
        other,
    ) by {
        lemma_positions_differ::<LENGTH, E>(key, other);
    }
}

/// Whatever was inserted and removed, and in whatever order, a walk over a
/// map meets exactly its occupied positions, each once, in strictly ascending
/// order, and the key of each entry that it yields stands at the position at
/// which the entry was met.
pub proof fn lemma_walk_ascending<const LENGTH: usize, E: Enum<LENGTH>, V>(
    map: EnumMap<LENGTH, E, V>,
)
    ensures
        map.entries().len() == map.positions().len(),
        forall|i: int, j: int|
            0 <= i < j < map.positions().len() ==> (#[trigger] map.positions()[i]) < (
            #[trigger] map.positions()[j]),
        forall|position: int| #[trigger]
            map.positions().contains(position) <==> 0 <= position < LENGTH
                && map@[position] is Some,
        forall|i: int|
            0 <= i < map.positions().len() ==> {
                &&& E::spec_to_index((#[trigger] map.entries()[i]).0) == map.positions()[i]
                &&& map.payload(map.entries()[i].0) == Some(map.entries()[i].1)
            },
        forall|i: int, j: int|
            0 <= i < j < map.entries().len() ==> E::spec_to_index((#[trigger] map.entries()[i]).0)
                < E::spec_to_index((#[trigger] map.entries()[j]).0),
{
    E::lemma_bijection();
    map.lemma_view_len();
    lemma_selected_ascending(occupied(map@), 0, LENGTH as int);
    lemma_selected_members(occupied(map@), 0, LENGTH as int);
    let positions = map.positions();
    let entries = map.entries();
    assert forall|i: int| 0 <= i < positions.len() implies {
        &&& E::spec_to_index((#[trigger] entries[i]).0) == positions[i]
        &&& map.payload(entries[i].0) == Some(entries[i].1)
    } by {
        assert(positions.contains(positions[i]));
        assert(E::spec_from_index(positions[i] as usize) is Some);
    }
    assert forall|i: int, j: int| 0 <= i < j < entries.len() implies E::spec_to_index(
        (#[trigger] entries[i]).0,
    ) < E::spec_to_index((#[trigger] entries[j]).0) by {
        assert(positions[i] < positions[j]);
    }
}

/// The keys that a map holds.
pub open spec fn keys_of<const LENGTH: usize, E: Enum<LENGTH>, V>(
    map: EnumMap<LENGTH, E, V>,
) -> Set<E> {
    Set::new(|key: E| map.payload(key) is Some)
}

/// The values of a domain whose positions a predicate selects are as many as
/// the positions that a walk over the whole domain yields for the predicate.
pub proof fn lemma_selected_values_count<const LENGTH: usize, E: Enum<LENGTH>>(
    selected: spec_fn(int) -> bool,
)
    ensures
        Set::new(|value: E| selected(E::spec_to_index(value) as int)).finite(),
        Set::new(|value: E| selected(E::spec_to_index(value) as int)).len() == selected_from(
            selected,
            0,
            LENGTH as int,
        ).len(),
{
    E::lemma_bijection();
    let values = Set::new(|value: E| selected(E::spec_to_index(value) as int));
    let positions = selected_from(selected, 0, LENGTH as int);
    lemma_selected_ascending(selected, 0, LENGTH as int);
    lemma_selected_members(selected, 0, LENGTH as int);
    assert(positions.no_duplicates());
    positions.unique_seq_to_set();
    let at = |position: int| E::spec_from_index(position as usize).unwrap();
    let met = positions.to_set();
    assert forall|first: int, second: int|
        met.contains(first) && met.contains(second) && #[trigger] at(first) == #[trigger] at(
            second,
        ) implies first == second by {
        assert(positions.contains(first));
        assert(positions.contains(second));
        assert(E::spec_to_index(at(first)) == first);
        assert(E::spec_to_index(at(second)) == second);
    }
    assert forall|value: E| #[trigger] met.map(at).contains(value) <==> values.contains(value) by {
        if met.map(at).contains(value) {
            let position = choose|position: int| met.contains(position) && at(position) == value;
            assert(positions.contains(position));
            assert(E::spec_to_index(at(position)) == position);
        }
        if values.contains(value) {
            let position = E::spec_to_index(value) as int;
            assert(positions.contains(position));
            assert(met.contains(position));
            assert(at(position) == value);
        }
    }
    assert(met.map(at) =~= values);
    vstd::set_lib::lemma_map_size(met, values, at);
}

/// The number of entries that a map reports is the number of keys that it
/// holds, and the map is empty exactly if that number is zero.
pub proof fn lemma_len_counts_keys<const LENGTH: usize, E: Enum<LENGTH>, V>(
    map: EnumMap<LENGTH, E, V>,
)
    ensures
        keys_of(map).finite(),
        keys_of(map).len() == map.positions().len(),
        (map.positions().len() == 0) == (forall|position: int|
            0 <= position < LENGTH ==> map@[position] is None),
{
    E::lemma_bijection();
    map.lemma_view_len();
    lemma_selected_values_count::<LENGTH, E>(occupied(map@));
    assert(keys_of(map) =~= Set::new(
        |value: E| occupied(map@)(E::spec_to_index(value) as int),
    ));
    let positions = map.positions();
    lemma_selected_members(occupied(map@), 0, LENGTH as int);
    if positions.len() == 0 {
        assert forall|position: int| 0 <= position < LENGTH implies map@[position] is None by {
            assert(!positions.contains(position));
        }
    } else {
        assert(positions.contains(positions[0]));
    }
}

/// A map is rebuilt from its entries: inserting the entries that a walk over
/// a map yields, one after the other, into an empty map gives the map that
/// was walked.
pub proof fn lemma_rebuilt_from_entries<const LENGTH: usize, E: Enum<LENGTH>, V>(
    map: EnumMap<LENGTH, E, V>,
)
    ensures
        inserted_all::<LENGTH, E, V>(no_entries::<V>(LENGTH as nat), map.entries()) == map@,
{
    E::lemma_bijection();
    map.lemma_view_len();
    lemma_selected_ascending(occupied(map@), 0, LENGTH as int);
    lemma_selected_members(occupied(map@), 0, LENGTH as int);
    let positions = map.positions();
    assert forall|i: int| 0 <= i < positions.len() implies 0 <= (#[trigger] positions[i]) < LENGTH
        && map@[positions[i]] is Some by {
        assert(positions.contains(positions[i]));
    }
    lemma_rebuilt_prefix::<LENGTH, E, V>(map@, positions, positions.len() as int);
    assert(positions.take(positions.len() as int) =~= positions);
    let empty = no_entries::<V>(LENGTH as nat);
    let rebuilt = inserted_all::<LENGTH, E, V>(empty, map.entries());
    assert(map.entries().take(positions.len() as int) =~= map.entries());
    assert forall|position: int| 0 <= position < LENGTH implies rebuilt[position]
        == map@[position] by {
        if map@[position] is Some {
            assert(positions.contains(position));
        } else {
            assert(!positions.contains(position));
        }
    }
    assert(rebuilt =~= map@);
}

/// Inserting the entries at the first `count` of the given positions into an
/// empty map fills exactly those positions, each with what `slots` holds
/// there.
proof fn lemma_rebuilt_prefix<const LENGTH: usize, E: Enum<LENGTH>, V>(
    slots: Seq<Option<V>>,
    positions: Seq<int>,
    count: int,
)
    requires
        slots.len() == LENGTH,
        0 <= count <= positions.len(),
        forall|i: int|
            0 <= i < positions.len() ==> 0 <= (#[trigger] positions[i]) < LENGTH
                && slots[positions[i]] is Some,
    ensures
        inserted_all::<LENGTH, E, V>(
            no_entries::<V>(LENGTH as nat),
            entries_at::<LENGTH, E, V>(slots, positions).take(count),
        ) == Seq::new(
            LENGTH as nat,
            |position: int|
                if positions.take(count).contains(position) {
                    slots[position]
                } else {
                    None
                },
        ),
    decreases count,
{
    E::lemma_bijection();
    let empty = no_entries::<V>(LENGTH as nat);
    let entries = entries_at::<LENGTH, E, V>(slots, positions);
    if count == 0 {
        assert(entries.take(0) =~= Seq::<(E, V)>::empty());
        assert(positions.take(0) =~= Seq::<int>::empty());
        assert(inserted_all::<LENGTH, E, V>(empty, entries.take(0)) =~= Seq::new(
            LENGTH as nat,
            |position: int|
                if positions.take(0).contains(position) {
                    slots[position]
                } else {
                    None
                },
        ));
    } else {
        lemma_rebuilt_prefix::<LENGTH, E, V>(slots, positions, count - 1);
        let shorter = entries.take(count - 1);
        let longer = entries.take(count);
        assert(longer.drop_last() =~= shorter);
        assert(longer.last() == entries[count - 1]);
        let last = positions[count - 1];
        assert(E::spec_to_index(entries[count - 1].0) == last);
        assert(Some(entries[count - 1].1) == slots[last]);
        let built = inserted_all::<LENGTH, E, V>(empty, longer);
        assert(built == inserted_all::<LENGTH, E, V>(empty, shorter).update(last, slots[last]));
        let wanted = Seq::new(
            LENGTH as nat,
            |position: int|
                if positions.take(count).contains(position) {
                    slots[position]
                } else {
                    None
                },
        );
        assert forall|position: int| 0 <= position < LENGTH implies (#[trigger] built[position])
            == wanted[position] by {
            let fewer = positions.take(count - 1);
            let more = positions.take(count);
            if position == last {
                assert(more[count - 1] == position);
            } else if fewer.contains(position) {
                let i = choose|i: int| 0 <= i < fewer.len() && fewer[i] == position;
                assert(more[i] == position);
            } else if more.contains(position) {
                let i = choose|i: int| 0 <= i < more.len() && more[i] == position;
                assert(fewer[i] == position);
            }
        }
        assert(built =~= wanted);
    }
}

} // verus!
