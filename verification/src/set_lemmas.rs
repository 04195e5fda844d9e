//! What holds of every set and of every two sets over one domain: how the
//! count of members relates to the values, how the walks over union,
//! intersection, difference and symmetric difference relate to each other,
//! and that a set can be rebuilt from its members.

use vstd::prelude::*;

use crate::map_lemmas::lemma_selected_values_count;
use crate::positions::{
    lemma_selected_agree, lemma_selected_ascending, lemma_selected_empty, lemma_selected_least,
    lemma_selected_members, lemma_selected_none, lemma_selected_split, selected_from,
};
use crate::set::{
    added_all, in_difference, in_intersection, in_symmetric_difference, in_union, member,
    no_members, EnumSet,
};
use crate::Enum;

verus! {

/// The values that belong to a set.
pub open spec fn values_of<const LENGTH: usize, E: Enum<LENGTH>>(set: EnumSet<LENGTH, E>) -> Set<
    E,
> {
    Set::new(|value: E| set.has(value))
}

/// The number of members that a set reports is the number of values that
/// belong to it, and the set is empty exactly if that number is zero.
pub proof fn lemma_len_counts_values<const LENGTH: usize, E: Enum<LENGTH>>(
    set: EnumSet<LENGTH, E>,
)
    ensures
        values_of(set).finite(),
        values_of(set).len() == set.positions().len(),
        (set.positions().len() == 0) == (forall|position: int|
            0 <= position < LENGTH ==> !set@[position]),
{
    E::lemma_bijection();
    set.lemma_view_len();
    lemma_selected_values_count::<LENGTH, E>(member(set@));
    assert(values_of(set) =~= Set::new(
        |value: E| member(set@)(E::spec_to_index(value) as int),
    ));
    let positions = set.positions();
    lemma_selected_members(member(set@), 0, LENGTH as int);
    if positions.len() == 0 {
        assert forall|position: int| 0 <= position < LENGTH implies !set@[position] by {
            assert(!positions.contains(position));
        }
    } else {
        assert(positions.contains(positions[0]));
    }
}

/// A walk over the union of two sets yields as many values as the walks over
/// the two differences and over the intersection yield together.
pub proof fn lemma_union_count(left: Seq<bool>, right: Seq<bool>, from: int, end: int)
    ensures
        selected_from(in_union(left, right), from, end).len() == selected_from(
            in_difference(left, right),
            from,
            end,
        ).len() + selected_from(in_difference(right, left), from, end).len() + selected_from(
            in_intersection(left, right),
            from,
            end,
        ).len(),
    decreases end - from,
{
    if from < end {
        lemma_union_count(left, right, from + 1, end);
    }
}

/// A set is a subset of another exactly if the walk over the difference of
/// the first and the second yields nothing.
pub proof fn lemma_subset_iff_no_difference(left: Seq<bool>, right: Seq<bool>, length: int)
    requires
        left.len() == length,
        right.len() == length,
    ensures
        (forall|position: int| 0 <= position < length && left[position] ==> right[position]) == (
        selected_from(in_difference(left, right), 0, length).len() == 0),
{
    let selected = in_difference(left, right);
    if selected_from(selected, 0, length).len() == 0 {
        lemma_selected_empty(selected, 0, length);
        assert forall|position: int|
            0 <= position < length && left[position] implies right[position] by {
            assert(!selected(position));
        }
    } else {
        lemma_selected_least(selected, 0, length);
    }
}

/// The walk over the symmetric difference of two sets yields the positions
/// that the walks over the two differences yield, each once: it is as long
/// as the two together and holds exactly their positions, in ascending
/// order.
pub proof fn lemma_symmetric_difference_members(left: Seq<bool>, right: Seq<bool>, length: int)
    ensures
        selected_from(in_symmetric_difference(left, right), 0, length).len() == selected_from(
            in_difference(left, right),
            0,
            length,
        ).len() + selected_from(in_difference(right, left), 0, length).len(),
        forall|position: int| #[trigger]
            selected_from(in_symmetric_difference(left, right), 0, length).contains(position)
                <==> (selected_from(in_difference(left, right), 0, length) + selected_from(
                in_difference(right, left),
                0,
                length,
            )).contains(position),
        (selected_from(in_difference(left, right), 0, length) + selected_from(
            in_difference(right, left),
            0,
            length,
        )).no_duplicates(),
        forall|i: int, j: int|
            0 <= i < j < selected_from(in_symmetric_difference(left, right), 0, length).len()
                ==> (#[trigger] selected_from(in_symmetric_difference(left, right), 0, length)[i])
                < (#[trigger] selected_from(in_symmetric_difference(left, right), 0, length)[j]),
{
    let both = selected_from(in_symmetric_difference(left, right), 0, length);
    let first = selected_from(in_difference(left, right), 0, length);
    let second = selected_from(in_difference(right, left), 0, length);
    lemma_symmetric_difference_count(left, right, 0, length);
    lemma_selected_members(in_symmetric_difference(left, right), 0, length);
    lemma_selected_members(in_difference(left, right), 0, length);
    lemma_selected_members(in_difference(right, left), 0, length);
    lemma_selected_ascending(in_symmetric_difference(left, right), 0, length);
    lemma_selected_ascending(in_difference(left, right), 0, length);
    lemma_selected_ascending(in_difference(right, left), 0, length);
    let joined = first + second;
    assert forall|position: int| #[trigger] both.contains(position) <==> joined.contains(
        position,
    ) by {
        if joined.contains(position) {
            let i = choose|i: int| 0 <= i < joined.len() && joined[i] == position;
            if i < first.len() {
                assert(first[i] == position);
                assert(first.contains(position));
            } else {
                assert(second[i - first.len()] == position);
                assert(second.contains(position));
            }
        }
        if both.contains(position) {
            if first.contains(position) {
                let i = choose|i: int| 0 <= i < first.len() && first[i] == position;
                assert(joined[i] == position);
            } else {
                assert(second.contains(position));
                let i = choose|i: int| 0 <= i < second.len() && second[i] == position;
                assert(joined[first.len() + i] == position);
            }
        }
    }
    assert forall|i: int, j: int|
        0 <= i < joined.len() && 0 <= j < joined.len() && i != j implies joined[i]
        != joined[j] by {
        if i < first.len() && j >= first.len() {
            assert(first.contains(first[i]));
            assert(second.contains(second[j - first.len()]));
        } else if j < first.len() && i >= first.len() {
            assert(first.contains(first[j]));
            assert(second.contains(second[i - first.len()]));
        } else if i < first.len() {
            if i < j {
                assert(first[i] < first[j]);
            } else {
                assert(first[j] < first[i]);
            }
        } else {
            if i < j {
                assert(second[i - first.len()] < second[j - first.len()]);
            } else {
                assert(second[j - first.len()] < second[i - first.len()]);
            }
        }
    }
}

/// A walk over the symmetric difference of two sets yields as many values as
/// the walks over the two differences yield together.
pub proof fn lemma_symmetric_difference_count(
    left: Seq<bool>,
    right: Seq<bool>,
    from: int,
    end: int,
)
    ensures
        selected_from(in_symmetric_difference(left, right), from, end).len() == selected_from(
            in_difference(left, right),
            from,
            end,
        ).len() + selected_from(in_difference(right, left), from, end).len(),
    decreases end - from,
{
    if from < end {
        lemma_symmetric_difference_count(left, right, from + 1, end);
    }
}

/// Where every position that belongs to the first set alone lies below
/// every position that belongs to the second set alone, the walk over the
/// symmetric difference yields what the walk over the difference of the
/// first and the second yields, followed by what the walk over the
/// difference of the second and the first yields.
pub proof fn lemma_symmetric_difference_concat(left: Seq<bool>, right: Seq<bool>, length: int)
    requires
        0 <= length,
        forall|low: int, high: int|
            (#[trigger] in_difference(left, right)(low)) && (#[trigger] in_difference(
                right,
                left,
            )(high)) && 0 <= low < length && 0 <= high < length ==> low < high,
    ensures
        selected_from(in_symmetric_difference(left, right), 0, length) == selected_from(
            in_difference(left, right),
            0,
            length,
        ) + selected_from(in_difference(right, left), 0, length),
{
    let both = in_symmetric_difference(left, right);
    let first = in_difference(left, right);
    let second = in_difference(right, left);
    let later = selected_from(second, 0, length);
    let middle = if later.len() == 0 {
        length
    } else {
        later[0]
    };
    if later.len() == 0 {
        lemma_selected_empty(second, 0, length);
    } else {
        lemma_selected_least(second, 0, length);
    }
    assert(0 <= middle <= length);
    lemma_selected_split(both, 0, middle, length);
    lemma_selected_split(first, 0, middle, length);
    lemma_selected_split(second, 0, middle, length);
    assert forall|position: int| 0 <= position < middle implies (#[trigger] both(position))
        == first(position) by {
        assert(!second(position));
    }
    lemma_selected_agree(both, first, 0, middle);
    assert forall|position: int| middle <= position < length implies (#[trigger] both(position))
        == second(position) by {
        if first(position) {
            assert(second(middle));
        }
    }
    lemma_selected_agree(both, second, middle, length);
    assert forall|position: int| middle <= position < length implies !(#[trigger] first(
        position,
    )) by {
        if first(position) {
            assert(second(middle));
        }
    }
    lemma_selected_none(first, middle, length);
    lemma_selected_none(second, 0, middle);
    assert(selected_from(first, 0, middle) + selected_from(first, middle, length)
        =~= selected_from(first, 0, middle));
    assert(selected_from(second, 0, middle) + selected_from(second, middle, length)
        =~= selected_from(second, middle, length));
}

/// A set is rebuilt from its members: adding the values that a walk over a
/// set yields to an empty set gives the set that was walked.
pub proof fn lemma_rebuilt_from_members<const LENGTH: usize, E: Enum<LENGTH>>(
    set: EnumSet<LENGTH, E>,
)
    ensures
        added_all::<LENGTH, E>(no_members(LENGTH as nat), set.members()) == set@,
{
    E::lemma_bijection();
    set.lemma_view_len();
    lemma_selected_members(member(set@), 0, LENGTH as int);
    let positions = set.positions();
    let members = set.members();
    let rebuilt = added_all::<LENGTH, E>(no_members(LENGTH as nat), members);
    assert forall|position: int| 0 <= position < LENGTH implies rebuilt[position]
        == set@[position] by {
        if set@[position] {
            assert(positions.contains(position));
            let i = choose|i: int| 0 <= i < positions.len() && positions[i] == position;
            assert(E::spec_to_index(members[i]) as int == position);
        }
        if rebuilt[position] {
            let i = choose|i: int|
                0 <= i < members.len() && E::spec_to_index(#[trigger] members[i]) as int
                    == position;
            assert(positions.contains(positions[i]));
        }
    }
    assert(rebuilt =~= set@);
}

} // verus!
