use enumap::map::{assert_enum_impl, check_position, EnumImplError, EnumMap};
use enumap::Enum;

#[derive(Clone, Copy, Debug, PartialEq, Eq)]
enum Light {
    Red,
    Amber,
    Green,
}

impl Enum<3> for Light {
    fn spec_to_index(value: Self) -> usize {
        Self::to_index(value)
    }

    fn spec_from_index(index: usize) -> Option<Self> {
        Self::from_index(index)
    }

    fn lemma_bijection() {}

    fn from_index(index: usize) -> Option<Self> {
        match index {
            0 => Some(Light::Red),
            1 => Some(Light::Amber),
            2 => Some(Light::Green),
            _ => None,
        }
    }

    fn to_index(value: Self) -> usize {
        match value {
            Light::Red => 0,
            Light::Amber => 1,
            Light::Green => 2,
        }
    }
}

/// A domain that names no value for its last position.
#[derive(Clone, Copy, Debug, PartialEq, Eq)]
struct Short(usize);

impl Enum<3> for Short {
    fn spec_to_index(value: Self) -> usize {
        Self::to_index(value)
    }

    fn spec_from_index(index: usize) -> Option<Self> {
        Self::from_index(index)
    }

    fn lemma_bijection() {}

    fn from_index(index: usize) -> Option<Self> {
        if index < 2 {
            Some(Short(index))
        } else {
            None
        }
    }

    fn to_index(value: Self) -> usize {
        value.0
    }
}

/// A domain whose second value reports the position of the first.
#[derive(Clone, Copy, Debug, PartialEq, Eq)]
struct Crossed(usize);

impl Enum<3> for Crossed {
    fn spec_to_index(value: Self) -> usize {
        Self::to_index(value)
    }

    fn spec_from_index(index: usize) -> Option<Self> {
        Self::from_index(index)
    }

    fn lemma_bijection() {}

    fn from_index(index: usize) -> Option<Self> {
        if index < 3 {
            Some(Crossed(index))
        } else {
            None
        }
    }

    fn to_index(value: Self) -> usize {
        if value.0 == 1 {
            0
        } else {
            value.0
        }
    }
}

/// A domain that names a value for the position one past its length.
#[derive(Clone, Copy, Debug, PartialEq, Eq)]
struct Long(usize);

impl Enum<3> for Long {
    fn spec_to_index(value: Self) -> usize {
        Self::to_index(value)
    }

    fn spec_from_index(index: usize) -> Option<Self> {
        Self::from_index(index)
    }

    fn lemma_bijection() {}

    fn from_index(index: usize) -> Option<Self> {
        if index < 4 {
            Some(Long(index))
        } else {
            None
        }
    }

    fn to_index(value: Self) -> usize {
        value.0
    }
}

#[test]
fn check_position_accepts_a_matching_value() {
    assert_eq!(check_position(3, 0, Some(0)), Ok(()));
    assert_eq!(check_position(3, 2, Some(2)), Ok(()));
}

#[test]
fn check_position_reports_a_missing_value() {
    assert_eq!(
        check_position(3, 0, None),
        Err(EnumImplError::MissingVariant { index: 0 })
    );
    assert_eq!(
        check_position(3, 2, None),
        Err(EnumImplError::MissingVariant { index: 2 })
    );
}

#[test]
fn check_position_reports_a_mismatch() {
    assert_eq!(
        check_position(3, 1, Some(0)),
        Err(EnumImplError::IndexMismatch { index: 1, found: 0 })
    );
    assert_eq!(
        check_position(3, 1, Some(7)),
        Err(EnumImplError::IndexMismatch { index: 1, found: 7 })
    );
}

#[test]
fn check_position_wants_nothing_at_the_length() {
    assert_eq!(check_position(3, 3, None), Ok(()));
    assert_eq!(check_position(3, 3, Some(3)), Err(EnumImplError::ExtraVariant));
    assert_eq!(check_position(3, 3, Some(0)), Err(EnumImplError::ExtraVariant));
    assert_eq!(check_position(0, 0, None), Ok(()));
    assert_eq!(check_position(0, 0, Some(0)), Err(EnumImplError::ExtraVariant));
}

#[test]
fn a_sound_domain_passes() {
    assert_eq!(assert_enum_impl::<3, Light>(), Ok(()));
    assert_eq!(assert_enum_impl::<2, bool>(), Ok(()));
}

#[test]
fn a_domain_that_is_too_short_is_reported() {
    assert_eq!(
        assert_enum_impl::<3, Short>(),
        Err(EnumImplError::MissingVariant { index: 2 })
    );
}

#[test]
fn a_domain_with_crossed_positions_is_reported() {
    assert_eq!(
        assert_enum_impl::<3, Crossed>(),
        Err(EnumImplError::IndexMismatch { index: 1, found: 0 })
    );
}

#[test]
fn a_domain_that_is_too_long_is_reported() {
    assert_eq!(assert_enum_impl::<3, Long>(), Err(EnumImplError::ExtraVariant));
}

#[test]
fn bool_positions_round_trip() {
    assert_eq!(<bool as Enum<2>>::to_index(false), 0);
    assert_eq!(<bool as Enum<2>>::to_index(true), 1);
    assert_eq!(<bool as Enum<2>>::from_index(0), Some(false));
    assert_eq!(<bool as Enum<2>>::from_index(1), Some(true));
    assert_eq!(<bool as Enum<2>>::from_index(2), None);
    for position in 0..2 {
        let value = <bool as Enum<2>>::from_index(position).unwrap();
        assert_eq!(<bool as Enum<2>>::to_index(value), position);
    }
}

#[test]
fn a_map_over_bool() {
    let mut map: EnumMap<2, bool, &str> = EnumMap::new();
    map.insert(true, "yes");
    map.insert(false, "no");
    let mut cursor = map.iter();
    assert_eq!(cursor.next(), Some((false, &"no")));
    assert_eq!(cursor.next(), Some((true, &"yes")));
    assert_eq!(cursor.next(), None);
}
