use flurry::laws;
use flurry::{DefaultHashBuilder, HashMap, ZeroHashBuilder};

#[test]
fn law_inserted_key_is_found() {
    let mut map = HashMap::<usize, usize>::new();
    let r = laws::inserted_key_is_found(&mut map, 7, &7, 99);
    assert_eq!(r, Some(&99));
}

#[test]
fn law_removed_key_is_absent() {
    let mut map = HashMap::<usize, usize>::new();
    map.insert(7, 99);
    let r = laws::removed_key_is_absent(&mut map, &7, &7);
    assert!(r.is_none());
}

#[test]
fn law_try_insert_succeeds_iff_absent() {
    let mut map = HashMap::<usize, usize>::new();
    assert!(laws::try_insert_succeeds_iff_absent(&mut map, 5, &5, 1));
    assert!(!laws::try_insert_succeeds_iff_absent(&mut map, 5, &5, 2));
}

#[test]
fn law_len_tracks_inserts_and_removes() {
    let mut map = HashMap::<usize, usize>::new();
    assert_eq!(laws::insert_adjusts_len(&mut map, 1, 10), 1);
    assert_eq!(laws::insert_adjusts_len(&mut map, 2, 20), 2);
    assert_eq!(laws::insert_adjusts_len(&mut map, 1, 11), 2);
    assert_eq!(laws::remove_adjusts_len(&mut map, &1), 1);
    assert_eq!(laws::remove_adjusts_len(&mut map, &1), 1);
    assert_eq!(laws::remove_adjusts_len(&mut map, &2), 0);
}

#[test]
fn law_rebuilt_map_is_equal() {
    let mut map = HashMap::<usize, usize>::new();
    for i in 0..50 {
        map.insert(i, i * i);
    }
    let rebuilt = laws::rebuilt_map_is_equal(&map);
    assert_eq!(map, rebuilt);
}

#[test]
fn law_retain_all_is_no_op() {
    let mut map = HashMap::<usize, usize>::new();
    for i in 0..20 {
        map.insert(i, i);
    }
    laws::retain_all_is_no_op(&mut map);
    assert_eq!(map.len(), 20);
    for i in 0..20 {
        assert_eq!(map.get(&i), Some(&i));
    }
}

#[test]
fn law_retain_none_clears() {
    let mut map = HashMap::<usize, usize>::new();
    for i in 0..20 {
        map.insert(i, i);
    }
    laws::retain_none_clears(&mut map);
    assert_eq!(map.len(), 0);
    assert!(map.is_empty());
}

#[test]
fn reserve_preserves_entries() {
    let mut map = HashMap::<usize, usize>::new();
    for i in 0..1024 {
        map.insert(i, i);
    }
    for power in 11..16 {
        map.reserve(1 << power);
        for i in 0..1024 {
            assert_eq!(map.get(&i), Some(&i));
        }
    }
    assert_eq!(map.len(), 1024);
}

#[test]
fn growth_keeps_every_entry() {
    // push well past several 3/4-capacity thresholds
    let mut map = HashMap::<u64, u64>::new();
    for i in 0..3000u64 {
        map.insert(i, i + 1);
    }
    assert_eq!(map.len(), 3000);
    for i in 0..3000u64 {
        assert_eq!(map.get(&i), Some(&(i + 1)));
    }
}

#[test]
fn with_capacity_starts_empty() {
    let map = HashMap::<usize, usize>::with_capacity(1000);
    assert_eq!(map.len(), 0);
    assert!(map.get(&3).is_none());
}

#[test]
fn string_keys_are_compared_by_content() {
    let mut map = HashMap::<&'static str, u32>::new();
    map.insert("alpha", 1);
    map.insert("beta", 2);
    // a slice with the same characters, reached another way, finds the entry
    let key = &"alphabeta"[..5];
    assert_eq!(map.get(&key), Some(&1));
    assert_eq!(map.get(&"beta"), Some(&2));
    assert!(map.get(&"gamma").is_none());
    assert_eq!(map.remove(&key), Some(1));
    assert!(map.get(&"alpha").is_none());
}

#[test]
fn zero_hasher_still_distinguishes_keys() {
    let mut map = HashMap::<u64, u64, ZeroHashBuilder>::with_hasher(ZeroHashBuilder);
    for i in 0..40u64 {
        map.insert(i, 1000 + i);
    }
    assert_eq!(map.len(), 40);
    for i in 0..40u64 {
        assert_eq!(map.get(&i), Some(&(1000 + i)));
    }
    assert_eq!(map.remove(&20), Some(1020));
    assert_eq!(map.len(), 39);
    assert!(map.get(&20).is_none());
}

#[test]
fn try_insert_error_carries_both_values() {
    let mut map = HashMap::<usize, usize>::new();
    map.insert(37, 1);
    match map.try_insert(37, 2) {
        Ok(_) => unreachable!(),
        Err(err) => {
            assert_eq!(*err.current, 1);
            assert_eq!(err.not_inserted, 2);
        }
    }
    match map.try_insert(38, 3) {
        Ok(v) => assert_eq!(*v, 3),
        Err(_) => unreachable!(),
    }
}

#[test]
fn pinned_reference_operates_on_the_map() {
    let mut map = HashMap::<usize, usize>::new();
    {
        let mut pinned = map.pin();
        pinned.insert(1, 10);
        pinned.insert(2, 20);
        assert_eq!(pinned.get(&1), Some(&10));
        assert_eq!(pinned.len(), 2);
        assert_eq!(pinned.remove(&2), Some(20));
    }
    assert_eq!(map.len(), 1);
    assert_eq!(map.get(&1), Some(&10));
    {
        let guarded = map.with_guard();
        assert!(guarded.contains_key(&1));
        assert!(!guarded.is_empty());
    }
}

#[test]
fn iteration_yields_each_entry_once() {
    let mut map = HashMap::<usize, usize>::new();
    for i in 0..100 {
        map.insert(i, i * 2);
    }
    let mut entries: Vec<(usize, usize)> =
        map.iter().into_iter().map(|(k, v)| (*k, *v)).collect();
    entries.sort_unstable();
    let expected: Vec<(usize, usize)> = (0..100).map(|i| (i, i * 2)).collect();
    assert_eq!(entries, expected);

    let mut ks: Vec<usize> = map.keys().into_iter().map(|k| *k).collect();
    ks.sort_unstable();
    assert_eq!(ks, (0..100).collect::<Vec<usize>>());

    let mut vs: Vec<usize> = map.values().into_iter().map(|v| *v).collect();
    vs.sort_unstable();
    assert_eq!(vs, (0..100).map(|i| i * 2).collect::<Vec<usize>>());
}

#[test]
fn from_entries_keeps_last_binding() {
    let entries: Vec<(usize, usize)> = vec![(1, 10), (2, 20), (1, 11), (3, 30), (2, 22)];
    let map = HashMap::from_entries(entries);
    assert_eq!(map.len(), 3);
    assert_eq!(map.get(&1), Some(&11));
    assert_eq!(map.get(&2), Some(&22));
    assert_eq!(map.get(&3), Some(&30));
}

#[test]
fn guarded_eq_matches_equality() {
    let mut map1 = HashMap::<usize, usize>::new();
    let mut map2 = HashMap::<usize, usize>::new();
    map1.insert(1, 1);
    map2.insert(1, 1);
    assert!(map1.guarded_eq(&map2));
    map2.insert(2, 2);
    assert!(!map1.guarded_eq(&map2));
}

#[test]
fn compute_if_present_chain() {
    let mut map = HashMap::<usize, usize>::new();
    map.insert(42, 0);
    assert_eq!(map.compute_if_present(&42, |_, v| Some(v + 1)), Some(&1));
    assert_eq!(map.get(&42), Some(&1));
    assert_eq!(map.compute_if_present(&42, |_, _| None), None);
    assert_eq!(map.get(&42), None);
}

#[test]
fn law_populated_in_any_order_is_equal() {
    let mut map = HashMap::<usize, usize>::new();
    for i in 0..20 {
        map.insert(i, i * 3);
    }
    // the same entries, presented in reverse order
    let entries: Vec<(usize, usize)> = (0..20).rev().map(|i| (i, i * 3)).collect();
    assert!(laws::populated_with_same_entries_is_equal(
        &map,
        DefaultHashBuilder,
        entries
    ));
}

#[test]
fn equal_maps_built_in_different_orders() {
    let m1: HashMap<usize, usize> = HashMap::from_entries((0..30).map(|x| (x, x)).collect());
    let m2: HashMap<usize, usize> =
        HashMap::from_entries((0..30).rev().map(|x| (x, x)).collect());
    assert_eq!(m1, m2);
    assert_eq!(m2, m1);
}
