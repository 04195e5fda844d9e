use enumap::map::EnumMap;
use enumap::set::EnumSet;
use enumap::Enum;

#[derive(Clone, Copy, Debug, PartialEq, Eq)]
enum Crop {
    Orange,
    Banana,
    Grape,
    Apple,
}

impl Enum<4> for Crop {
    fn spec_to_index(value: Self) -> usize {
        Self::to_index(value)
    }

    fn spec_from_index(index: usize) -> Option<Self> {
        Self::from_index(index)
    }

    fn lemma_bijection() {}

    fn from_index(index: usize) -> Option<Self> {
        match index {
            0 => Some(Crop::Orange),
            1 => Some(Crop::Banana),
            2 => Some(Crop::Grape),
            3 => Some(Crop::Apple),
            _ => None,
        }
    }

    fn to_index(value: Self) -> usize {
        match value {
            Crop::Orange => 0,
            Crop::Banana => 1,
            Crop::Grape => 2,
            Crop::Apple => 3,
        }
    }
}

fn members(set: &EnumSet<4, Crop>) -> Vec<Crop> {
    let mut cursor = set.iter();
    let mut seen = Vec::new();
    while let Some(value) = cursor.next() {
        seen.push(value);
    }
    seen
}

fn difference(left: &EnumSet<4, Crop>, right: &EnumSet<4, Crop>) -> Vec<Crop> {
    let mut cursor = left.difference(right);
    let mut seen = Vec::new();
    while let Some(value) = cursor.next() {
        seen.push(value);
    }
    seen
}

fn intersection(left: &EnumSet<4, Crop>, right: &EnumSet<4, Crop>) -> Vec<Crop> {
    let mut cursor = left.intersection(right);
    let mut seen = Vec::new();
    while let Some(value) = cursor.next() {
        seen.push(value);
    }
    seen
}

fn union(left: &EnumSet<4, Crop>, right: &EnumSet<4, Crop>) -> Vec<Crop> {
    let mut cursor = left.union(right);
    let mut seen = Vec::new();
    while let Some(value) = cursor.next() {
        seen.push(value);
    }
    seen
}

fn symmetric_difference(left: &EnumSet<4, Crop>, right: &EnumSet<4, Crop>) -> Vec<Crop> {
    let mut cursor = left.symmetric_difference(right);
    let mut seen = Vec::new();
    while let Some(value) = cursor.next() {
        seen.push(value);
    }
    seen
}

fn every_set() -> Vec<EnumSet<4, Crop>> {
    let all = [Crop::Orange, Crop::Banana, Crop::Grape, Crop::Apple];
    let mut sets = Vec::new();
    for bits in 0..16usize {
        let mut set = EnumSet::new();
        for value in all {
            if bits & (1 << Crop::to_index(value)) != 0 {
                set.insert(value);
            }
        }
        sets.push(set);
    }
    sets
}

#[test]
fn new_set_is_empty() {
    let set: EnumSet<4, Crop> = EnumSet::new();
    assert!(set.is_empty());
    assert_eq!(set.len(), 0);
    assert!(!set.contains(Crop::Orange));
    assert_eq!(members(&set), vec![]);
    let other: EnumSet<4, Crop> = Default::default();
    assert_eq!(set, other);
}

#[test]
fn set_insert_reports_new_members() {
    let mut set = EnumSet::new();
    assert_eq!(set.insert(Crop::Orange), true);
    assert_eq!(set.insert(Crop::Orange), false);
    assert_eq!(set.len(), 1);
    assert!(set.contains(Crop::Orange));
    assert!(!set.contains(Crop::Banana));
}

#[test]
fn set_remove_reports_former_members() {
    let mut set = EnumSet::new();
    set.insert(Crop::Orange);
    assert_eq!(set.remove(Crop::Orange), true);
    assert_eq!(set.remove(Crop::Orange), false);
    assert!(set.is_empty());
}

#[test]
fn set_clear_removes_all() {
    let mut set = EnumSet::from([Crop::Orange, Crop::Banana]);
    assert!(!set.is_empty());
    set.clear();
    assert!(set.is_empty());
    assert_eq!(set.len(), 0);
}

#[test]
fn set_contains_members_only() {
    let set = EnumSet::from([Crop::Orange, Crop::Banana]);
    assert!(set.contains(Crop::Orange));
    assert!(set.contains(Crop::Banana));
    assert!(!set.contains(Crop::Grape));
    assert!(!set.contains(Crop::Apple));
}

#[test]
fn set_iter_goes_by_position() {
    let set = EnumSet::from([Crop::Apple, Crop::Orange, Crop::Grape, Crop::Orange]);
    assert_eq!(members(&set), vec![Crop::Orange, Crop::Grape, Crop::Apple]);
    assert_eq!(set.len(), 3);
    let mut cursor = set.iter();
    assert_eq!(cursor.next(), Some(Crop::Orange));
    assert_eq!(cursor.next(), Some(Crop::Grape));
    assert_eq!(cursor.next(), Some(Crop::Apple));
    assert_eq!(cursor.next(), None);
    assert_eq!(cursor.next(), None);
}

#[test]
fn set_into_iter_hands_out_members_in_order() {
    let set = EnumSet::from([Crop::Grape, Crop::Banana]);
    let mut cursor = set.into_iter();
    assert_eq!(cursor.next(), Some(Crop::Banana));
    assert_eq!(cursor.next(), Some(Crop::Grape));
    assert_eq!(cursor.next(), None);
}

#[test]
fn set_algebra_on_two_sets() {
    let a = EnumSet::from([Crop::Orange, Crop::Banana, Crop::Apple]);
    let b = EnumSet::from([Crop::Orange, Crop::Banana, Crop::Grape]);
    assert_eq!(difference(&a, &b), vec![Crop::Apple]);
    assert_eq!(difference(&b, &a), vec![Crop::Grape]);
    assert_eq!(intersection(&a, &b), vec![Crop::Orange, Crop::Banana]);
    assert_eq!(
        union(&a, &b),
        vec![Crop::Orange, Crop::Banana, Crop::Grape, Crop::Apple]
    );
    assert_eq!(symmetric_difference(&a, &b), vec![Crop::Grape, Crop::Apple]);
    assert_eq!(symmetric_difference(&b, &a), vec![Crop::Grape, Crop::Apple]);
}

#[test]
fn union_length_is_the_sum_of_its_parts() {
    for a in every_set() {
        for b in every_set() {
            assert_eq!(
                union(&a, &b).len(),
                difference(&a, &b).len() + difference(&b, &a).len() + intersection(&a, &b).len()
            );
        }
    }
}

#[test]
fn subset_means_empty_difference() {
    for a in every_set() {
        for b in every_set() {
            assert_eq!(a.is_subset(&b), difference(&a, &b).is_empty());
            assert_eq!(a.is_superset(&b), difference(&b, &a).is_empty());
            assert_eq!(a.is_superset(&b), b.is_subset(&a));
            assert_eq!(a.is_disjoint(&b), intersection(&a, &b).is_empty());
        }
    }
}

#[test]
fn symmetric_difference_holds_both_differences() {
    for a in every_set() {
        for b in every_set() {
            let both = symmetric_difference(&a, &b);
            let mut joined = difference(&a, &b);
            joined.extend(difference(&b, &a));
            assert_eq!(both.len(), joined.len());
            for value in &joined {
                assert!(both.contains(value));
            }
            joined.sort_by_key(|value| Crop::to_index(*value));
            assert_eq!(both, joined);
        }
    }
}

#[test]
fn symmetric_difference_is_the_concatenation_when_the_first_part_lies_below() {
    let a = EnumSet::from([Crop::Orange, Crop::Banana]);
    let b = EnumSet::from([Crop::Banana, Crop::Apple]);
    let mut joined = difference(&a, &b);
    joined.extend(difference(&b, &a));
    assert_eq!(symmetric_difference(&a, &b), joined);
    assert_eq!(joined, vec![Crop::Orange, Crop::Apple]);
}

#[test]
fn symmetric_difference_is_ascending_where_the_concatenation_is_not() {
    let a = EnumSet::from([Crop::Orange, Crop::Banana, Crop::Apple]);
    let b = EnumSet::from([Crop::Orange, Crop::Banana, Crop::Grape]);
    let mut joined = difference(&a, &b);
    joined.extend(difference(&b, &a));
    assert_eq!(joined, vec![Crop::Apple, Crop::Grape]);
    assert_eq!(symmetric_difference(&a, &b), vec![Crop::Grape, Crop::Apple]);
}

#[test]
fn is_disjoint_follows_inserts() {
    let a = EnumSet::from([Crop::Orange, Crop::Banana]);
    let mut b = EnumSet::new();
    assert_eq!(a.is_disjoint(&b), true);
    b.insert(Crop::Grape);
    assert_eq!(a.is_disjoint(&b), true);
    b.insert(Crop::Orange);
    assert_eq!(a.is_disjoint(&b), false);
}

#[test]
fn is_subset_follows_inserts() {
    let sup = EnumSet::from([Crop::Orange, Crop::Banana]);
    let mut set = EnumSet::new();
    assert_eq!(set.is_subset(&sup), true);
    set.insert(Crop::Orange);
    assert_eq!(set.is_subset(&sup), true);
    set.insert(Crop::Grape);
    assert_eq!(set.is_subset(&sup), false);
}

#[test]
fn is_superset_follows_inserts() {
    let sub = EnumSet::from([Crop::Orange, Crop::Banana]);
    let mut set = EnumSet::new();
    assert_eq!(set.is_superset(&sub), false);
    set.insert(Crop::Orange);
    assert_eq!(set.is_superset(&sub), false);
    set.insert(Crop::Banana);
    assert_eq!(set.is_superset(&sub), true);
    set.insert(Crop::Grape);
    assert_eq!(set.is_superset(&sub), true);
}

#[test]
fn operators_between_sets() {
    let a = EnumSet::from([Crop::Orange, Crop::Banana, Crop::Apple]);
    let b = EnumSet::from([Crop::Orange, Crop::Banana, Crop::Grape]);
    assert_eq!(&a & &b, EnumSet::from([Crop::Orange, Crop::Banana]));
    assert_eq!(
        &a | &b,
        EnumSet::from([Crop::Orange, Crop::Banana, Crop::Grape, Crop::Apple])
    );
    assert_eq!(&a ^ &b, EnumSet::from([Crop::Grape, Crop::Apple]));
    assert_eq!(&a - &b, EnumSet::from([Crop::Apple]));
    assert_eq!(&b - &a, EnumSet::from([Crop::Grape]));
}

#[test]
fn operators_agree_with_the_cursors() {
    for a in every_set() {
        for b in every_set() {
            assert_eq!(members(&(&a & &b)), intersection(&a, &b));
            assert_eq!(members(&(&a | &b)), union(&a, &b));
            assert_eq!(members(&(&a ^ &b)), symmetric_difference(&a, &b));
            assert_eq!(members(&(&a - &b)), difference(&a, &b));
        }
    }
}

#[test]
fn and_with_a_value_keeps_only_that_value() {
    let set = EnumSet::from([Crop::Orange, Crop::Banana, Crop::Apple]);
    let set = set & Crop::Apple;
    assert_eq!(set, EnumSet::from([Crop::Apple]));
    let set = set & Crop::Grape;
    assert_eq!(set, EnumSet::new());
}

#[test]
fn or_with_a_value_adds_it() {
    let set = EnumSet::from([Crop::Orange, Crop::Apple]);
    let set = set | Crop::Banana | Crop::Orange;
    assert_eq!(set, EnumSet::from([Crop::Orange, Crop::Banana, Crop::Apple]));
}

#[test]
fn xor_with_a_value_toggles_it() {
    let set = EnumSet::from([Crop::Orange, Crop::Banana, Crop::Grape]);
    let set = set ^ Crop::Banana;
    assert_eq!(set, EnumSet::from([Crop::Orange, Crop::Grape]));
    let set = set ^ Crop::Banana;
    assert_eq!(set, EnumSet::from([Crop::Orange, Crop::Banana, Crop::Grape]));
    let single = EnumSet::<4, Crop>::new() ^ Crop::Apple;
    assert_eq!(single, EnumSet::from([Crop::Apple]));
}

#[test]
fn set_from_map_keeps_the_keys() {
    let map = EnumMap::from([(Crop::Banana, 100), (Crop::Grape, 200)]);
    let set = EnumSet::from(map);
    assert!(set.contains(Crop::Banana));
    assert!(set.contains(Crop::Grape));
    assert!(!set.contains(Crop::Orange));
    assert!(!set.contains(Crop::Apple));
    assert_eq!(set.len(), 2);
    let none: EnumMap<4, Crop, String> = EnumMap::new();
    assert!(EnumSet::from(none).is_empty());
}

#[test]
fn set_extend_adds_values() {
    let mut set = EnumSet::from([Crop::Banana]);
    set.extend(vec![Crop::Apple, Crop::Banana, Crop::Orange]);
    assert_eq!(members(&set), vec![Crop::Orange, Crop::Banana, Crop::Apple]);
    set.extend(Vec::new());
    assert_eq!(set.len(), 3);
}

#[test]
fn set_from_iter_builds_from_values() {
    let set: EnumSet<4, Crop> = EnumSet::from_iter(vec![Crop::Grape, Crop::Grape, Crop::Orange]);
    assert_eq!(members(&set), vec![Crop::Orange, Crop::Grape]);
    let empty: EnumSet<4, Crop> = EnumSet::from_iter(Vec::new());
    assert!(empty.is_empty());
}

#[test]
fn set_len_counts_values_that_are_contained() {
    for set in every_set() {
        let held = [Crop::Orange, Crop::Banana, Crop::Grape, Crop::Apple]
            .iter()
            .filter(|value| set.contains(**value))
            .count();
        assert_eq!(set.len(), held);
        assert_eq!(set.is_empty(), set.len() == 0);
        assert_eq!(members(&set).len(), held);
    }
}

#[test]
fn set_clone_and_copy_are_equal() {
    let set = EnumSet::from([Crop::Orange, Crop::Apple]);
    let copy = set;
    let clone = set.clone();
    assert_eq!(copy, set);
    assert_eq!(clone, set);
}

#[test]
fn rebuilding_from_members_gives_the_same_set() {
    for set in every_set() {
        let rebuilt: EnumSet<4, Crop> = EnumSet::from_iter(members(&set));
        assert_eq!(rebuilt, set);
    }
}
