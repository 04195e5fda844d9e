//! Ascending sequences of the positions that a predicate selects.
//!
//! Every iterator of this crate walks the positions of a domain from a
//! starting point upwards and yields those that a predicate selects. The
//! sequence of positions that such a walk yields is given here once, with the
//! facts about it that the containers rely on.

use vstd::prelude::*;

verus! {

/// The positions `p` with `from <= p < end` that `selected` holds of, in
/// ascending order.
pub open spec fn selected_from(selected: spec_fn(int) -> bool, from: int, end: int) -> Seq<int>
    decreases end - from,
{
    if from >= end {
        Seq::empty()
    } else if selected(from) {
        seq![from] + selected_from(selected, from + 1, end)
    } else {
        selected_from(selected, from + 1, end)
    }
}

/// The predicate that holds of the positions of `slots` that are occupied.
pub open spec fn occupied<V>(slots: Seq<Option<V>>) -> spec_fn(int) -> bool {
    |position: int| 0 <= position < slots.len() && slots[position] is Some
}

/// A position belongs to the sequence exactly if it lies in the range walked
/// and is selected.
pub proof fn lemma_selected_members(selected: spec_fn(int) -> bool, from: int, end: int)
    ensures
        forall|position: int| #[trigger]
            selected_from(selected, from, end).contains(position) <==> from <= position < end
                && selected(position),
    decreases end - from,
{
    let whole = selected_from(selected, from, end);
    if from >= end {
        assert forall|position: int| #[trigger] whole.contains(position) implies false by {
            let i = choose|i: int| 0 <= i < whole.len() && whole[i] == position;
        }
    } else {
        let rest = selected_from(selected, from + 1, end);
        lemma_selected_members(selected, from + 1, end);
        assert forall|position: int| #[trigger]
            whole.contains(position) <==> from <= position < end && selected(
                position,
            ) by {
            if selected(from) {
                assert(whole =~= seq![from] + rest);
                if whole.contains(position) {
                    let i = choose|i: int| 0 <= i < whole.len() && whole[i] == position;
                    if i > 0 {
                        assert(rest[i - 1] == position);
                        assert(rest.contains(position));
                    }
                }
                if from <= position < end && selected(position) {
                    if position == from {
                        assert(whole[0] == position);
                    } else {
                        assert(rest.contains(position));
                        let i = choose|i: int| 0 <= i < rest.len() && rest[i] == position;
                        assert(whole[i + 1] == position);
                    }
                }
            } else {
                assert(rest.contains(position) <==> from + 1 <= position < end && selected(
                    position,
                ));
            }
        }
    }
}

/// The sequence is strictly ascending and starts no lower than `from`.
pub proof fn lemma_selected_ascending(selected: spec_fn(int) -> bool, from: int, end: int)
    ensures
        forall|i: int|
            0 <= i < selected_from(selected, from, end).len() ==> from <= (
            #[trigger] selected_from(selected, from, end)[i]) < end,
        forall|i: int, j: int|
            0 <= i < j < selected_from(selected, from, end).len() ==> (#[trigger] selected_from(
                selected,
                from,
                end,
            )[i]) < (#[trigger] selected_from(selected, from, end)[j]),
    decreases end - from,
{
    if from < end {
        lemma_selected_ascending(selected, from + 1, end);
        let whole = selected_from(selected, from, end);
        let rest = selected_from(selected, from + 1, end);
        if selected(from) {
            assert(whole =~= seq![from] + rest);
            assert forall|i: int, j: int| 0 <= i < j < whole.len() implies (#[trigger] whole[i])
                < (#[trigger] whole[j]) by {
                assert(whole[j] == rest[j - 1]);
                if i > 0 {
                    assert(whole[i] == rest[i - 1]);
                }
            }
            assert forall|i: int| 0 <= i < whole.len() implies from <= (#[trigger] whole[i])
                < end by {
                if i > 0 {
                    assert(whole[i] == rest[i - 1]);
                }
            }
        }
    }
}

/// Two predicates that agree on the range walked select the same sequence.
pub proof fn lemma_selected_agree(
    first: spec_fn(int) -> bool,
    second: spec_fn(int) -> bool,
    from: int,
    end: int,
)
    requires
        forall|position: int|
            from <= position < end ==> (#[trigger] first(position)) == second(position),
    ensures
        selected_from(first, from, end) == selected_from(second, from, end),
    decreases end - from,
{
    if from < end {
        lemma_selected_agree(first, second, from + 1, end);
    }
}

/// A walk over `from..end` is a walk over `from..middle` followed by one
/// over `middle..end`.
pub proof fn lemma_selected_split(
    selected: spec_fn(int) -> bool,
    from: int,
    middle: int,
    end: int,
)
    requires
        from <= middle <= end,
    ensures
        selected_from(selected, from, end) == selected_from(selected, from, middle)
            + selected_from(selected, middle, end),
    decreases middle - from,
{
    if from < middle {
        lemma_selected_split(selected, from + 1, middle, end);
        let tail = selected_from(selected, from + 1, middle) + selected_from(
            selected,
            middle,
            end,
        );
        if selected(from) {
            assert(seq![from] + tail =~= (seq![from] + selected_from(selected, from + 1, middle))
                + selected_from(selected, middle, end));
        }
    } else {
        assert(selected_from(selected, from, middle) + selected_from(selected, middle, end)
            =~= selected_from(selected, middle, end));
    }
}

/// Where no position of `from..next` is selected and `next` is, the walk
/// from `from` yields `next` first and then what the walk from `next + 1`
/// yields.
pub proof fn lemma_selected_first(
    selected: spec_fn(int) -> bool,
    from: int,
    next: int,
    end: int,
)
    requires
        from <= next < end,
        forall|position: int| from <= position < next ==> !(#[trigger] selected(position)),
        selected(next),
    ensures
        selected_from(selected, from, end).len() > 0,
        selected_from(selected, from, end)[0] == next,
        selected_from(selected, from, end).drop_first() == selected_from(
            selected,
            next + 1,
            end,
        ),
    decreases next - from,
{
    if from < next {
        lemma_selected_first(selected, from + 1, next, end);
    } else {
        assert((seq![from] + selected_from(selected, from + 1, end)).drop_first()
            =~= selected_from(selected, from + 1, end));
    }
}

/// The first position that a walk yields is the lowest selected position of
/// the range walked.
pub proof fn lemma_selected_least(selected: spec_fn(int) -> bool, from: int, end: int)
    requires
        selected_from(selected, from, end).len() > 0,
    ensures
        from <= selected_from(selected, from, end)[0] < end,
        selected(selected_from(selected, from, end)[0]),
        forall|position: int|
            from <= position < selected_from(selected, from, end)[0] ==> !(#[trigger] selected(
                position,
            )),
        selected_from(selected, from, end).drop_first() == selected_from(
            selected,
            selected_from(selected, from, end)[0] + 1,
            end,
        ),
    decreases end - from,
{
    if from < end {
        if selected(from) {
            assert((seq![from] + selected_from(selected, from + 1, end)).drop_first()
                =~= selected_from(selected, from + 1, end));
        } else {
            lemma_selected_least(selected, from + 1, end);
        }
    }
}

/// A walk that yields nothing has no selected position in its range.
pub proof fn lemma_selected_empty(selected: spec_fn(int) -> bool, from: int, end: int)
    requires
        selected_from(selected, from, end).len() == 0,
    ensures
        forall|position: int| from <= position < end ==> !(#[trigger] selected(position)),
    decreases end - from,
{
    if from < end {
        lemma_selected_empty(selected, from + 1, end);
    }
}

/// Where no position of `from..end` is selected, the walk yields nothing.
pub proof fn lemma_selected_none(selected: spec_fn(int) -> bool, from: int, end: int)
    requires
        forall|position: int| from <= position < end ==> !(#[trigger] selected(position)),
    ensures
        selected_from(selected, from, end).len() == 0,
    decreases end - from,
{
    if from < end {
        lemma_selected_none(selected, from + 1, end);
    }
}

} // verus!
