//! Behavioural tests for the generational index bag.

use index_bag::IndexBag;

#[test]
fn empty_bag_has_nothing() {
    let bag: IndexBag<i32> = IndexBag::new();
    assert_eq!(bag.pool_size(), 0);
    assert_eq!(bag.unused_indexes(), 0);
    assert!(bag.get_index(0).is_none());
    assert!(bag.get_index(1).is_none());
}

#[test]
fn insert_get_remove_round_trip() {
    let mut bag = IndexBag::new();
    let index = bag.insert(12);
    assert_eq!(bag.get(index).unwrap(), &12);
    assert_eq!(bag.remove(index), Some(12));
    assert_eq!(bag.remove(index), None);
    assert_eq!(bag.get(index), None);
}

#[test]
fn reuse_keeps_pool_size() {
    let mut bag = IndexBag::new();
    let i1 = bag.insert(10);
    assert_eq!(bag.remove(i1), Some(10));
    let i2 = bag.insert(11);
    assert_eq!(bag.get(i1), None);
    assert_eq!(bag.get(i2), Some(&11));
    assert_eq!(bag.pool_size(), 1);
}

#[test]
fn growth_yields_positions_in_order() {
    let mut bag = IndexBag::new();
    let i1 = bag.insert('a');
    let i2 = bag.insert('b');
    let i3 = bag.insert('c');
    let p1: usize = i1.into();
    let p2: usize = i2.into();
    let p3: usize = i3.into();
    assert_eq!(p1, 1);
    assert_eq!(p2, 2);
    assert_eq!(p3, 3);
    assert_eq!(bag.pool_size(), 3);
}

#[test]
fn stale_handle_does_not_see_replacement() {
    let mut bag = IndexBag::new();
    let old = bag.insert(1);
    assert_eq!(bag.remove(old), Some(1));
    let new = bag.insert(2);
    let pn: usize = new.into();
    let po: usize = old.into();
    assert_eq!(pn, po);
    assert_eq!(bag.get(old), None);
    assert_eq!(bag.get(new), Some(&2));
    assert_ne!(old, new);
}

#[test]
fn stale_handle_cannot_remove_replacement() {
    let mut bag = IndexBag::new();
    let old = bag.insert(7);
    assert_eq!(bag.remove(old), Some(7));
    let new = bag.insert(8);
    let pn: usize = new.into();
    let po: usize = old.into();
    assert_eq!(pn, po);
    assert_eq!(bag.remove(old), None);
    assert_eq!(bag.get(new), Some(&8));
    assert_eq!(bag.remove(new), Some(8));
}

#[test]
fn vacancy_accounting_is_exact() {
    let mut bag = IndexBag::new();
    let mut handles = Vec::new();
    for k in 0..6 {
        handles.push(bag.insert(k));
        assert_eq!(bag.unused_indexes(), 0);
    }
    assert_eq!(bag.pool_size(), 6);
    assert_eq!(bag.remove(handles[1]), Some(1));
    assert_eq!(bag.unused_indexes(), 1);
    assert_eq!(bag.remove(handles[4]), Some(4));
    assert_eq!(bag.unused_indexes(), 2);
    assert_eq!(bag.remove(handles[4]), None);
    assert_eq!(bag.unused_indexes(), 2);
    bag.insert(100);
    assert_eq!(bag.unused_indexes(), 1);
    bag.insert(101);
    assert_eq!(bag.unused_indexes(), 0);
    assert_eq!(bag.pool_size(), 6);
}

#[test]
fn pool_size_never_decreases() {
    let mut bag = IndexBag::new();
    let mut watermark = 0;
    let mut handles = Vec::new();
    for k in 0..10 {
        handles.push(bag.insert(k));
        assert!(bag.pool_size() >= watermark);
        watermark = bag.pool_size();
    }
    for h in handles {
        bag.remove(h);
        assert!(bag.pool_size() >= watermark);
        watermark = bag.pool_size();
    }
    for k in 0..10 {
        bag.insert(k);
        assert!(bag.pool_size() >= watermark);
        watermark = bag.pool_size();
    }
    assert_eq!(watermark, 10);
}

#[test]
fn reuse_is_preferred_over_growth() {
    let mut bag = IndexBag::new();
    let mut handles = Vec::new();
    for k in 0..5 {
        handles.push(bag.insert(k));
    }
    assert_eq!(bag.remove(handles[0]), Some(0));
    assert_eq!(bag.remove(handles[3]), Some(3));
    assert_eq!(bag.unused_indexes(), 2);
    bag.insert(50);
    assert_eq!(bag.pool_size(), 5);
    bag.insert(51);
    assert_eq!(bag.pool_size(), 5);
    assert_eq!(bag.unused_indexes(), 0);
    bag.insert(52);
    assert_eq!(bag.pool_size(), 6);
}

#[test]
fn reuse_prefers_slots_near_the_root() {
    let mut bag = IndexBag::new();
    let i1 = bag.insert(1);
    let _i2 = bag.insert(2);
    let i3 = bag.insert(3);
    assert_eq!(bag.remove(i3), Some(3));
    assert_eq!(bag.remove(i1), Some(1));
    let first = bag.insert(10);
    let pf: usize = first.into();
    assert_eq!(pf, 1);
    let second = bag.insert(30);
    let ps: usize = second.into();
    assert_eq!(ps, 3);
    assert_eq!(bag.pool_size(), 3);
}

#[test]
fn get_mut_updates_in_place() {
    let mut bag = IndexBag::new();
    let index = bag.insert(String::from("before"));
    if let Some(v) = bag.get_mut(index) {
        *v = String::from("after");
    } else {
        panic!("live handle should resolve");
    }
    assert_eq!(bag.get(index).unwrap(), "after");
    assert_eq!(bag.pool_size(), 1);
    assert_eq!(bag.unused_indexes(), 0);
}

#[test]
fn get_mut_rejects_stale_handles() {
    let mut bag = IndexBag::new();
    let old = bag.insert(5);
    bag.remove(old);
    assert!(bag.get_mut(old).is_none());
    let new = bag.insert(6);
    assert!(bag.get_mut(old).is_none());
    assert_eq!(bag.get_mut(new).map(|v| *v), Some(6));
}

#[test]
fn get_index_tracks_current_occupant() {
    let mut bag = IndexBag::new();
    let index = bag.insert(12);
    let raw: usize = index.into();
    let current = bag.get_index(raw).unwrap();
    assert_eq!(index, current);
    assert_eq!(bag.remove(current), Some(12));
    let new_index = bag.insert(13);
    let current = bag.get_index(raw).unwrap();
    assert_eq!(new_index, current);
    assert_ne!(index, current);
    assert_eq!(bag.remove(current), Some(13));
}

#[test]
fn get_index_on_vacant_slot_yields_dead_handle() {
    let mut bag = IndexBag::new();
    let index = bag.insert(9);
    bag.remove(index);
    let raw: usize = index.into();
    let handle = bag.get_index(raw).expect("the position stays allocated");
    assert_eq!(bag.get(handle), None);
    assert_eq!(bag.remove(handle), None);
}

#[test]
fn drain_and_refill_many() {
    let mut bag = IndexBag::new();
    let mut handles = Vec::new();
    for k in 0..100u16 {
        handles.push((k, bag.insert(k)));
    }
    assert_eq!(bag.pool_size(), 100);
    assert_eq!(bag.unused_indexes(), 0);
    for (k, h) in &handles {
        assert_eq!(bag.remove(*h), Some(*k));
    }
    assert_eq!(bag.pool_size(), 100);
    assert_eq!(bag.unused_indexes(), 100);
    let mut fresh = Vec::new();
    for k in 0..100u16 {
        fresh.push((k, bag.insert(k)));
    }
    assert_eq!(bag.pool_size(), 100);
    assert_eq!(bag.unused_indexes(), 0);
    for (k, h) in &fresh {
        assert_eq!(bag.get(*h), Some(k));
    }
    for (_, h) in &handles {
        assert_eq!(bag.get(*h), None);
    }
}

#[test]
fn handles_are_ordered_and_copyable() {
    let mut bag = IndexBag::new();
    let i1 = bag.insert(1);
    let i2 = bag.insert(2);
    let copy = i1;
    assert_eq!(copy, i1);
    assert!(i1 < i2);
    assert_eq!(bag.get(copy), Some(&1));
}
