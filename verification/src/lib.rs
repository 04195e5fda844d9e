//! Map and set containers for finite, densely indexable key domains, backed by
//! a fixed array of optional slots.
//!
//! A domain is a type with a bijection between its values and the positions
//! `0..LENGTH`, stated and proved in an implementation of [`Enum`]. An
//! [`EnumMap`] keeps one optional payload per position and an [`EnumSet`] one
//! membership flag per position; neither allocates. Every walk over a
//! container goes through its positions in ascending order, whatever the
//! order in which it was filled.
//!
//! The containers are modelled by their slots: the view of a map is the
//! sequence of its optional payloads by position, the view of a set the
//! sequence of its membership flags. The walks are modelled in
//! [`positions`]; what holds of every map and of every set is proved in
//! [`map_lemmas`] and [`set_lemmas`].

use vstd::prelude::*;

pub mod map;
pub mod map_lemmas;
pub mod positions;
pub mod set;
pub mod set_lemmas;

pub use self::map::EnumMap;
pub use self::set::EnumSet;

verus! {

/// A finite domain of `LENGTH` values together with a bijection between the
/// values and the positions `0..LENGTH`.
///
/// An implementation states the bijection as two spec functions and proves,
/// in [`Enum::lemma_bijection`], that they are inverse to each other on the
/// range of positions. The two executable functions compute what the spec
/// functions state.
///
/// The containers rely on the bijection: a lookup indexes the backing array
/// with the position of the key, and a walk turns each position that it
/// meets back into a value. An implementation that is compiled without being
/// verified has to give all five items a body, those of the three ghost
/// items being never run; nothing then holds it to the bijection, and
/// [`map::assert_enum_impl`] is there to walk such a domain once before it
/// is trusted.
pub trait Enum<const LENGTH: usize>: Copy + Sized {
    /// The position of a value.
    spec fn spec_to_index(value: Self) -> usize;

    /// The value at a position, if the position belongs to the domain.
    spec fn spec_from_index(index: usize) -> Option<Self>;

    /// The two spec functions form a bijection between the domain and the
    /// positions `0..LENGTH`: every value has a position below `LENGTH` at
    /// which it stands, every position below `LENGTH` has a value whose
    /// position it is, and no position from `LENGTH` on has a value.
    proof fn lemma_bijection()
        ensures
            forall|value: Self|
                (#[trigger] Self::spec_to_index(value)) < LENGTH && Self::spec_from_index(
                    Self::spec_to_index(value),
                ) == Some(value),
            forall|index: usize|
                index < LENGTH ==> (#[trigger] Self::spec_from_index(index)) is Some
                    && Self::spec_to_index(Self::spec_from_index(index).unwrap()) == index,
            forall|index: usize|
                index >= LENGTH ==> (#[trigger] Self::spec_from_index(index)) is None,
    ;

    /// Converts a position to the value that stands there.
    fn from_index(index: usize) -> (value: Option<Self>)
        ensures
            value == Self::spec_from_index(index),
    ;

    /// Converts a value to its position.
    fn to_index(value: Self) -> (index: usize)
        ensures
            index == Self::spec_to_index(value),
    ;
}

/// A position of a domain leads to a value that leads back to the position,
/// and a value of a domain leads to a position that leads back to the value.
pub proof fn lemma_round_trip<const LENGTH: usize, E: Enum<LENGTH>>(position: usize, value: E)
    requires
        position < LENGTH,
    ensures
        E::spec_from_index(position) is Some,
        E::spec_to_index(E::spec_from_index(position).unwrap()) == position,
        E::spec_to_index(value) < LENGTH,
        E::spec_from_index(E::spec_to_index(value)) == Some(value),
{
    E::lemma_bijection();
}

/// The two truth values as a domain: `false` stands at position 0 and `true`
/// at position 1.
impl Enum<2> for bool {
    open spec fn spec_to_index(value: Self) -> usize {
        if value {
            1
        } else {
            0
        }
    }

    open spec fn spec_from_index(index: usize) -> Option<Self> {
        if index == 0 {
            Some(false)
        } else if index == 1 {
            Some(true)
        } else {
            None
        }
    }

    proof fn lemma_bijection() {
    }

    fn from_index(index: usize) -> (value: Option<Self>) {
        if index == 0 {
            Some(false)
        } else if index == 1 {
            Some(true)
        } else {
            None
        }
    }

    fn to_index(value: Self) -> (index: usize) {
        if value {
            1
        } else {
            0
        }
    }
}

} // verus!
