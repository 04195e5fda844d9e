use enumap::map::EnumMap;
use enumap::Enum;

#[derive(Clone, Copy, Debug, PartialEq, Eq)]
enum Fruit {
    Orange,
    Banana,
    Grape,
}

impl Enum<3> for Fruit {
    fn spec_to_index(value: Self) -> usize {
        Self::to_index(value)
    }

    fn spec_from_index(index: usize) -> Option<Self> {
        Self::from_index(index)
    }

    fn lemma_bijection() {}

    fn from_index(index: usize) -> Option<Self> {
        match index {
            0 => Some(Fruit::Orange),
            1 => Some(Fruit::Banana),
            2 => Some(Fruit::Grape),
            _ => None,
        }
    }

    fn to_index(value: Self) -> usize {
        match value {
            Fruit::Orange => 0,
            Fruit::Banana => 1,
            Fruit::Grape => 2,
        }
    }
}

fn entries<V: Clone>(map: &EnumMap<3, Fruit, V>) -> Vec<(Fruit, V)> {
    let mut cursor = map.iter();
    let mut seen = Vec::new();
    while let Some((key, value)) = cursor.next() {
        seen.push((key, value.clone()));
    }
    seen
}

#[test]
fn new_map_is_empty() {
    let map: EnumMap<3, Fruit, i32> = EnumMap::new();
    assert!(map.is_empty());
    assert_eq!(map.len(), 0);
    assert_eq!(map.get(Fruit::Orange), None);
    assert_eq!(map.get(Fruit::Banana), None);
    assert_eq!(map.get(Fruit::Grape), None);
    assert_eq!(entries(&map), vec![]);
}

#[test]
fn default_map_is_empty() {
    let map: EnumMap<3, Fruit, i32> = Default::default();
    assert!(map.is_empty());
    assert_eq!(map, EnumMap::new());
}

#[test]
fn insert_returns_previous_payload() {
    let mut map: EnumMap<3, Fruit, i32> = EnumMap::new();
    assert_eq!(map.insert(Fruit::Orange, 3), None);
    assert_eq!(map.insert(Fruit::Orange, 5), Some(3));
    assert_eq!(map.get(Fruit::Orange), Some(&5));
    assert_eq!(map.get(Fruit::Banana), None);
    assert_eq!(map.len(), 1);
}

#[test]
fn insert_then_get_for_every_key() {
    for key in [Fruit::Orange, Fruit::Banana, Fruit::Grape] {
        let mut map: EnumMap<3, Fruit, &str> = EnumMap::new();
        assert_eq!(map.insert(key, "x"), None);
        assert_eq!(map.get(key), Some(&"x"));
        assert_eq!(map.insert(key, "y"), Some("x"));
        assert_eq!(map.get(key), Some(&"y"));
        assert_eq!(map.len(), 1);
    }
}

#[test]
fn contains_key_follows_insert() {
    let mut map = EnumMap::new();
    map.insert(Fruit::Orange, 3);
    assert!(map.contains_key(Fruit::Orange));
    assert!(!map.contains_key(Fruit::Banana));
}

#[test]
fn clear_empties_every_slot() {
    let mut map = EnumMap::new();
    map.insert(Fruit::Orange, 3);
    map.insert(Fruit::Grape, 4);
    assert!(map.contains_key(Fruit::Orange));
    map.clear();
    assert!(!map.contains_key(Fruit::Orange));
    assert!(!map.contains_key(Fruit::Grape));
    assert!(map.is_empty());
    assert_eq!(map.len(), 0);
}

#[test]
fn get_mut_writes_through() {
    let mut map = EnumMap::new();
    map.insert(Fruit::Orange, 3);
    if let Some(value) = map.get_mut(Fruit::Orange) {
        *value += 2;
    }
    assert_eq!(*map.index(Fruit::Orange), 5);
    assert!(map.get_mut(Fruit::Banana).is_none());
    assert_eq!(map.len(), 1);
}

#[test]
fn remove_present_key() {
    let mut map = EnumMap::new();
    map.insert(Fruit::Orange, "a");
    map.insert(Fruit::Banana, "b");
    assert_eq!(map.remove(Fruit::Orange), Some("a"));
    assert!(!map.contains_key(Fruit::Orange));
    assert_eq!(map.get(Fruit::Banana), Some(&"b"));
    assert_eq!(map.len(), 1);
}

#[test]
fn remove_absent_key_changes_nothing() {
    let mut map = EnumMap::new();
    map.insert(Fruit::Banana, "b");
    let before = map;
    assert_eq!(map.remove(Fruit::Orange), None);
    assert_eq!(map, before);
    assert_eq!(map.remove(Fruit::Orange), None);
    assert_eq!(map, before);
}

#[test]
fn len_counts_keys_that_are_contained() {
    let mut map = EnumMap::new();
    assert_eq!(map.len(), 0);
    assert!(map.is_empty());
    map.insert(Fruit::Grape, 'g');
    map.insert(Fruit::Orange, 'o');
    map.insert(Fruit::Grape, 'h');
    let held = [Fruit::Orange, Fruit::Banana, Fruit::Grape]
        .iter()
        .filter(|key| map.contains_key(**key))
        .count();
    assert_eq!(held, 2);
    assert_eq!(map.len(), held);
    assert_eq!(map.is_empty(), map.len() == 0);
}

#[test]
fn iteration_goes_by_position_not_by_insertion() {
    let mut shop = EnumMap::new();
    shop.insert(Fruit::Orange, 100);
    shop.insert(Fruit::Banana, 200);
    assert_eq!(entries(&shop), vec![(Fruit::Orange, 100), (Fruit::Banana, 200)]);
    shop.remove(Fruit::Orange);
    assert_eq!(entries(&shop), vec![(Fruit::Banana, 200)]);
}

#[test]
fn iteration_is_ascending_for_every_insertion_order() {
    let orders = [
        [Fruit::Orange, Fruit::Banana, Fruit::Grape],
        [Fruit::Orange, Fruit::Grape, Fruit::Banana],
        [Fruit::Banana, Fruit::Orange, Fruit::Grape],
        [Fruit::Banana, Fruit::Grape, Fruit::Orange],
        [Fruit::Grape, Fruit::Orange, Fruit::Banana],
        [Fruit::Grape, Fruit::Banana, Fruit::Orange],
    ];
    for order in orders {
        let mut map = EnumMap::new();
        for key in order {
            map.insert(key, Fruit::to_index(key) + 1);
        }
        assert_eq!(
            entries(&map),
            vec![(Fruit::Orange, 1), (Fruit::Banana, 2), (Fruit::Grape, 3)]
        );
    }
}

#[test]
fn exhausted_cursor_stays_exhausted() {
    let map = EnumMap::from([(Fruit::Banana, 2)]);
    let mut cursor = map.iter();
    assert_eq!(cursor.next(), Some((Fruit::Banana, &2)));
    assert_eq!(cursor.next(), None);
    assert_eq!(cursor.next(), None);
    let mut again = map.iter();
    assert_eq!(again.next(), Some((Fruit::Banana, &2)));
}

#[test]
fn keys_in_order() {
    let map = EnumMap::from([(Fruit::Grape, 2), (Fruit::Orange, 1)]);
    let mut cursor = map.keys();
    assert_eq!(cursor.next(), Some(Fruit::Orange));
    assert_eq!(cursor.next(), Some(Fruit::Grape));
    assert_eq!(cursor.next(), None);
}

#[test]
fn values_in_order() {
    let map = EnumMap::from([(Fruit::Grape, 2), (Fruit::Orange, 1)]);
    let mut cursor = map.values();
    assert_eq!(cursor.next(), Some(&1));
    assert_eq!(cursor.next(), Some(&2));
    assert_eq!(cursor.next(), None);
}

#[test]
fn iter_mut_doubles_every_payload() {
    let mut map = EnumMap::from([(Fruit::Orange, 1), (Fruit::Banana, 2), (Fruit::Grape, 3)]);
    let mut cursor = map.iter_mut();
    let mut met = Vec::new();
    while let Some((key, value)) = cursor.next() {
        *value *= 2;
        met.push(key);
    }
    assert_eq!(met, vec![Fruit::Orange, Fruit::Banana, Fruit::Grape]);
    assert_eq!(*map.index(Fruit::Orange), 2);
    assert_eq!(*map.index(Fruit::Banana), 4);
    assert_eq!(*map.index(Fruit::Grape), 6);
}

#[test]
fn values_mut_adds_to_every_payload() {
    let mut map = EnumMap::from([(Fruit::Orange, 1), (Fruit::Grape, 2)]);
    let mut cursor = map.values_mut();
    while let Some(value) = cursor.next() {
        *value += 10;
    }
    assert_eq!(*map.index(Fruit::Orange), 11);
    assert_eq!(*map.index(Fruit::Grape), 12);
    assert_eq!(map.get(Fruit::Banana), None);
    let mut cursor = map.values_mut();
    assert_eq!(cursor.next(), Some(&mut 11));
    assert_eq!(cursor.next(), Some(&mut 12));
    assert_eq!(cursor.next(), None);
}

#[test]
fn into_iter_hands_out_entries_in_order() {
    let mut shop = EnumMap::new();
    shop.insert(Fruit::Grape, 300);
    shop.insert(Fruit::Orange, 100);
    shop.insert(Fruit::Banana, 200);
    let mut cursor = shop.into_iter();
    assert_eq!(cursor.next(), Some((Fruit::Orange, 100)));
    assert_eq!(cursor.next(), Some((Fruit::Banana, 200)));
    assert_eq!(cursor.next(), Some((Fruit::Grape, 300)));
    assert_eq!(cursor.next(), None);
    assert_eq!(cursor.next(), None);
}

#[test]
fn into_values_hands_out_payloads_in_order() {
    let map = EnumMap::from([
        (Fruit::Grape, String::from("three")),
        (Fruit::Banana, String::from("two")),
        (Fruit::Orange, String::from("one")),
    ]);
    let mut cursor = map.into_values();
    let mut seen = Vec::new();
    while let Some(value) = cursor.next() {
        seen.push(value);
    }
    assert_eq!(seen, vec!["one", "two", "three"]);
}

#[test]
fn from_array_lets_the_later_pair_win() {
    let map = EnumMap::from([(Fruit::Banana, 1), (Fruit::Orange, 2), (Fruit::Banana, 3)]);
    assert_eq!(entries(&map), vec![(Fruit::Orange, 2), (Fruit::Banana, 3)]);
    assert_eq!(map.len(), 2);
}

#[test]
fn from_array_equals_inserts() {
    let built = EnumMap::from([(Fruit::Orange, 1), (Fruit::Banana, 2)]);
    let mut filled = EnumMap::new();
    filled.insert(Fruit::Banana, 2);
    filled.insert(Fruit::Orange, 1);
    assert_eq!(built, filled);
    let other: EnumMap<3, Fruit, i32> = [(Fruit::Orange, 1), (Fruit::Banana, 2)].into();
    assert_eq!(built, other);
}

#[test]
fn from_iter_builds_from_pairs() {
    let map: EnumMap<3, Fruit, i32> =
        EnumMap::from_iter(vec![(Fruit::Grape, 7), (Fruit::Grape, 8), (Fruit::Orange, 9)]);
    assert_eq!(entries(&map), vec![(Fruit::Orange, 9), (Fruit::Grape, 8)]);
    let empty: EnumMap<3, Fruit, i32> = EnumMap::from_iter(Vec::new());
    assert!(empty.is_empty());
}

#[test]
fn extend_overwrites_and_keeps() {
    let mut map = EnumMap::from([(Fruit::Orange, 1), (Fruit::Banana, 2)]);
    map.extend(vec![(Fruit::Banana, 20), (Fruit::Grape, 30), (Fruit::Banana, 21)]);
    assert_eq!(
        entries(&map),
        vec![(Fruit::Orange, 1), (Fruit::Banana, 21), (Fruit::Grape, 30)]
    );
    map.extend(Vec::new());
    assert_eq!(map.len(), 3);
}

#[test]
fn clone_copies_every_slot() {
    let map = EnumMap::from([(Fruit::Orange, String::from("o")), (Fruit::Grape, String::from("g"))]);
    let copy = map.clone();
    assert_eq!(copy, map);
    assert_eq!(copy.get(Fruit::Orange), Some(&String::from("o")));
    assert_eq!(copy.get(Fruit::Banana), None);
    assert_eq!(copy.get(Fruit::Grape), Some(&String::from("g")));
}

#[test]
fn index_gives_the_payload() {
    let map = EnumMap::from([(Fruit::Orange, "foo"), (Fruit::Grape, "bar")]);
    assert_eq!(*map.index(Fruit::Orange), "foo");
    assert_eq!(*map.index(Fruit::Grape), "bar");
    assert_eq!(map.get(Fruit::Banana), None);
}

#[test]
fn rebuilding_from_entries_gives_the_same_map() {
    let map = EnumMap::from([(Fruit::Grape, 3), (Fruit::Orange, 1)]);
    let rebuilt: EnumMap<3, Fruit, i32> = EnumMap::from_iter(entries(&map));
    assert_eq!(rebuilt, map);
}

#[test]
fn fruit_positions_round_trip() {
    for position in 0..3 {
        let value = Fruit::from_index(position).unwrap();
        assert_eq!(Fruit::to_index(value), position);
    }
    for value in [Fruit::Orange, Fruit::Banana, Fruit::Grape] {
        assert_eq!(Fruit::from_index(Fruit::to_index(value)), Some(value));
    }
    assert_eq!(Fruit::from_index(3), None);
}
