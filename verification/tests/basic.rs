use flurry::{HashMap, ZeroHashBuilder};
use std::sync::Arc;

#[test]
fn new() {
    let _map = HashMap::<usize, usize>::new();
}

#[test]
fn clear() {
    let mut map = HashMap::<usize, usize>::new();
    {
        map.insert(0, 1);
        map.insert(1, 1);
        map.insert(2, 1);
        map.insert(3, 1);
        map.insert(4, 1);
    }
    map.clear();
    assert!(map.is_empty());
}

#[test]
fn insert() {
    let mut map = HashMap::<usize, usize>::new();
    let old = map.insert(42, 0);
    assert!(old.is_none());
}

#[test]
fn get_empty() {
    let map = HashMap::<usize, usize>::new();

    {
        let e = map.get(&42);
        assert!(e.is_none());
    }
}

#[test]
fn get_key_value_empty() {
    let map = HashMap::<usize, usize>::new();

    {
        let e = map.get_key_value(&42);
        assert!(e.is_none());
    }
}

#[test]
fn remove_empty() {
    let mut map = HashMap::<usize, usize>::new();

    {
        let old = map.remove(&42);
        assert!(old.is_none());
    }
}

#[test]
fn insert_and_remove() {
    let mut map = HashMap::<usize, usize>::new();

    {
        map.insert(42, 0);
        let old = map.remove(&42).unwrap();
        assert_eq!(old, 0);
        assert!(map.get(&42).is_none());
    }
}

#[test]
fn insert_and_get() {
    let mut map = HashMap::<usize, usize>::new();

    map.insert(42, 0);
    {
        let e = map.get(&42).unwrap();
        assert_eq!(e, &0);
    }
}

#[test]
fn insert_and_get_key_value() {
    let mut map = HashMap::<usize, usize>::new();

    map.insert(42, 0);
    {
        let e = map.get_key_value(&42).unwrap();
        assert_eq!(e, (&42, &0));
    }
}

#[test]
fn one_bucket() {
    let mut map = HashMap::<&'static str, usize, ZeroHashBuilder>::with_hasher(ZeroHashBuilder);

    // we want to check that all operations work regardless on whether
    // we are operating on the head of a bucket, the tail of the bucket,
    // or somewhere in the middle.
    let v = map.insert("head", 0);
    assert_eq!(v, None);
    let v = map.insert("middle", 10);
    assert_eq!(v, None);
    let v = map.insert("tail", 100);
    assert_eq!(v, None);
    let e = map.get(&"head").unwrap();
    assert_eq!(e, &0);
    let e = map.get(&"middle").unwrap();
    assert_eq!(e, &10);
    let e = map.get(&"tail").unwrap();
    assert_eq!(e, &100);

    // check that replacing the keys returns the correct old value
    let v = map.insert("head", 1);
    assert_eq!(v, Some(0));
    let v = map.insert("middle", 11);
    assert_eq!(v, Some(10));
    let v = map.insert("tail", 101);
    assert_eq!(v, Some(100));
    // and updated the right value
    let e = map.get(&"head").unwrap();
    assert_eq!(e, &1);
    let e = map.get(&"middle").unwrap();
    assert_eq!(e, &11);
    let e = map.get(&"tail").unwrap();
    assert_eq!(e, &101);
    // and that remove produces the right value
    // note that we must remove them in a particular order
    // so that we test all three node positions
    let v = map.remove(&"middle");
    assert_eq!(v.unwrap(), 11);
    let v = map.remove(&"tail");
    assert_eq!(v.unwrap(), 101);
    let v = map.remove(&"head");
    assert_eq!(v.unwrap(), 1);
}

#[test]
fn update() {
    let mut map = HashMap::<usize, usize>::new();

    map.insert(42, 0);
    let old = map.insert(42, 1);
    assert_eq!(old, Some(0));
    {
        let e = map.get(&42).unwrap();
        assert_eq!(e, &1);
    }
}

#[test]
fn compute_if_present() {
    let mut map = HashMap::<usize, usize>::new();

    map.insert(42, 0);
    let new = map.compute_if_present(&42, |_, v| Some(v + 1));
    assert_eq!(new, Some(&1));
    {
        let e = map.get(&42).unwrap();
        assert_eq!(e, &1);
    }
}

#[test]
fn compute_if_present_empty() {
    let mut map = HashMap::<usize, usize>::new();

    let new = map.compute_if_present(&42, |_, v| Some(v + 1));
    assert!(new.is_none());
    {
        assert!(map.get(&42).is_none());
    }
}

#[test]
fn compute_if_present_remove() {
    let mut map = HashMap::<usize, usize>::new();

    map.insert(42, 0);
    let new = map.compute_if_present(&42, |_, _| None);
    assert!(new.is_none());
    {
        assert!(map.get(&42).is_none());
    }
}

#[test]
fn try_ins() {
    let mut map = HashMap::new();
    map.insert(37, Arc::new(1));

    let b = Arc::new(2);
    let not_inserted = match map.try_insert(37, b) {
        Ok(_) => unreachable!(),
        Err(err) => err.not_inserted.clone(),
    };
    map.insert(38, not_inserted);
}

#[test]
fn empty_maps_equal() {
    let map1 = HashMap::<usize, usize>::new();
    let map2 = HashMap::<usize, usize>::new();
    assert_eq!(map1, map2);
    assert_eq!(map2, map1);
}

#[test]
fn different_size_maps_not_equal() {
    let mut map1 = HashMap::<usize, usize>::new();
    let mut map2 = HashMap::<usize, usize>::new();
    {
        map1.insert(1, 0);
        map1.insert(2, 0);
        map1.insert(3, 0);

        map2.insert(1, 0);
        map2.insert(2, 0);
    }

    assert_ne!(map1, map2);
    assert_ne!(map2, map1);
}

#[test]
fn same_values_equal() {
    let mut map1 = HashMap::<usize, usize>::new();
    let mut map2 = HashMap::<usize, usize>::new();
    {
        map1.pin().insert(1, 0);
        map2.pin().insert(1, 0);
    }

    assert_eq!(map1, map2);
    assert_eq!(map2, map1);
}

#[test]
fn different_values_not_equal() {
    let mut map1 = HashMap::<usize, usize>::new();
    let mut map2 = HashMap::<usize, usize>::new();
    {
        map1.pin().insert(1, 0);
        map2.pin().insert(1, 1);
    }

    assert_ne!(map1, map2);
    assert_ne!(map2, map1);
}

#[test]
fn clone_map_empty() {
    let map = HashMap::<&'static str, u32>::new();
    let cloned_map = map.clone();
    assert_eq!(map.len(), cloned_map.len());
    assert_eq!(&map, &cloned_map);
    assert_eq!(cloned_map.len(), 0);
}

#[test]
// Test that same values exists in both maps (original and cloned)
fn clone_map_filled() {
    let mut map = HashMap::<&'static str, u32>::new();
    map.insert("FooKey", 0);
    map.insert("BarKey", 10);
    let cloned_map = map.clone();
    assert_eq!(map.len(), cloned_map.len());
    assert_eq!(&map, &cloned_map);

    // test that we are not mapping the same tables
    map.insert("NewItem", 100);
    assert_ne!(&map, &cloned_map);
}

#[test]
fn default() {
    let mut map: HashMap<usize, usize> = Default::default();

    map.insert(42, 0);

    assert_eq!(map.get(&42), Some(&0));
}

#[test]
fn extend() {
    let mut map: HashMap<usize, usize> = HashMap::new();

    let mut entries: Vec<(usize, usize)> = vec![(42, 0), (16, 6), (38, 42)];
    entries.sort_unstable();

    map.extend_entries(entries.clone());

    let mut collected: Vec<(usize, usize)> =
        map.iter().into_iter().map(|(key, value)| (*key, *value)).collect();
    collected.sort_unstable();

    assert_eq!(entries, collected);
}

#[test]
fn extend_ref() {
    let mut map: HashMap<usize, usize> = HashMap::new();

    let mut entries: Vec<(&usize, &usize)> = vec![(&42, &0), (&16, &6), (&38, &42)];
    entries.sort();

    map.extend_entries(entries.iter().map(|&(k, v)| (*k, *v)).collect());

    let mut collected: Vec<(&usize, &usize)> = map.iter();
    collected.sort();

    assert_eq!(entries, collected);
}

#[test]
fn from_iter_ref() {
    let mut entries: Vec<(&usize, &usize)> = vec![(&42, &0), (&16, &6), (&38, &42)];
    entries.sort();

    let map: HashMap<usize, usize> =
        HashMap::from_entries(entries.iter().map(|&(k, v)| (*k, *v)).collect());

    let mut collected: Vec<(&usize, &usize)> = map.iter();
    collected.sort();

    assert_eq!(entries, entries)
}

#[test]
fn from_iter_empty() {
    let entries: Vec<(usize, usize)> = Vec::new();
    let map: HashMap<usize, usize> = HashMap::from_entries(entries);

    assert_eq!(map.len(), 0)
}

#[test]
fn retain_empty() {
    let mut map = HashMap::<&'static str, u32>::new();
    map.retain(|_, _| false);
    assert_eq!(map.len(), 0);
}

#[test]
fn retain_all_false() {
    let mut map: HashMap<u32, u32> =
        HashMap::from_entries((0..10_u32).map(|x| (x, x)).collect());
    map.retain(|_, _| false);
    assert_eq!(map.len(), 0);
}

#[test]
fn retain_all_true() {
    let size = 10usize;
    let mut map: HashMap<usize, usize> =
        HashMap::from_entries((0..size).map(|x| (x, x)).collect());
    map.retain(|_, _| true);
    assert_eq!(map.len(), size);
}

#[test]
fn retain_some() {
    let mut map: HashMap<u32, u32> = HashMap::from_entries((0..10).map(|x| (x, x)).collect());
    let expected_map: HashMap<u32, u32> =
        HashMap::from_entries((5..10).map(|x| (x, x)).collect());
    map.retain(|_, v| *v >= 5);
    assert_eq!(map.len(), 5);
    assert_eq!(map, expected_map);
}

#[test]
fn retain_force_empty() {
    let mut map = HashMap::<&'static str, u32>::new();
    map.retain_force(|_, _| false);
    assert_eq!(map.len(), 0);
}

#[test]
fn retain_force_some() {
    let mut map: HashMap<u32, u32> = HashMap::from_entries((0..10).map(|x| (x, x)).collect());
    let expected_map: HashMap<u32, u32> =
        HashMap::from_entries((5..10).map(|x| (x, x)).collect());
    map.retain_force(|_, v| *v >= 5);
    assert_eq!(map.len(), 5);
    assert_eq!(map, expected_map);
}
