use snapper::sorted_map::SortedMap;
use snapper::sorted_set::SortedSet;

#[test]
fn map_keeps_keys_in_order() {
    let mut map: SortedMap<u32, u8> = SortedMap::new();
    assert_eq!(map.insert(5, 1), None);
    assert_eq!(map.insert(2, 2), None);
    assert_eq!(map.insert(5, 3), Some(1));
    assert_eq!(map.keys(), vec![2, 5]);
    assert_eq!(map.get(&5), Some(&3));
    assert!(!map.contains_key(&3));
    assert_eq!(map.len(), 2);
    assert_eq!(map.remove(&2), Some(2));
    assert_eq!(map.remove(&2), None);
    assert_eq!(map.keys(), vec![5]);
}

#[test]
fn set_holds_each_element_once() {
    let mut set: SortedSet<(u32, u64)> = SortedSet::new();
    assert!(set.insert((2, 1)));
    assert!(set.insert((1, 9)));
    assert!(!set.insert((2, 1)));
    set.extend_from_slice(&[(0, 3), (1, 9)]);
    assert_eq!(set.to_vec(), vec![(0, 3), (1, 9), (2, 1)]);
    assert!(set.contains(&(1, 9)));
    assert_eq!(set.len(), 3);
}

#[test]
fn identifiers_are_ordered_by_their_bytes() {
    let mut low = [0; 32];
    low[31] = 255;
    let mut high = [0; 32];
    high[0] = 1;
    let mut set: SortedSet<([u8; 32], Option<u16>)> = SortedSet::new();
    set.insert((high, None));
    set.insert((low, Some(4)));
    set.insert((low, None));
    assert_eq!(set.to_vec(), vec![(low, None), (low, Some(4)), (high, None)]);
}
