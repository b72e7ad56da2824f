use vecfile::vec_file::same_elements;
use vecfile::{Error, MemStore, Storage, VecFile};

type MemVec<T> = VecFile<T, MemStore>;

#[test]
fn a_new_instance_is_empty_with_eight_slots() {
    let mut f: MemVec<u64> = VecFile::new().unwrap();
    assert_eq!(f.len(), 0);
    assert_eq!(f.cap(), 8);
    assert_eq!(f.shadow_count(), 0);
    assert_eq!(f.element_size(), 8);
    assert_eq!(f.to_vec(), Ok(vec![]));
    assert!(!f.bounds_check(0));
    assert!(f.capacity_check(7));
    assert!(!f.capacity_check(8));
}

#[test]
fn binding_to_a_store_discards_what_it_held() {
    let mut store = MemStore::new();
    store.write_at(0, &[1; 50]).unwrap();
    let mut f: MemVec<u16> = VecFile::new_with_path(store).unwrap();
    assert_eq!(f.len(), 0);
    f.resize(3, &0x0101).unwrap();
    f.truncate(0);
    f.resize(8, &0).unwrap();
    assert_eq!(f.to_vec(), Ok(vec![0; 8]));
}

#[test]
fn what_is_set_is_what_is_got() {
    let mut f: MemVec<u32> = VecFile::try_from(vec![1, 2, 3, 4, 5]).unwrap();
    for index in 0..5u64 {
        let value = 1000 + index as u32;
        f.try_set(index, &value).unwrap();
        assert_eq!(f.try_get(index), Ok(value));
    }
    f.try_set(2, &7).unwrap();
    assert_eq!(f.to_vec(), Ok(vec![1000, 1001, 7, 1003, 1004]));
}

#[test]
fn last_in_is_first_out() {
    let mut f: MemVec<u16> = VecFile::try_from(vec![9, 8]).unwrap();
    let pushed: Vec<u16> = (100..130).collect();
    for (count, value) in pushed.iter().enumerate() {
        f.try_push(value).unwrap();
        assert_eq!(f.len(), 2 + count as u64 + 1);
    }
    for (count, value) in pushed.iter().rev().enumerate() {
        assert_eq!(f.try_pop(), Ok(*value));
        assert_eq!(f.len(), 2 + 30 - count as u64 - 1);
    }
    assert_eq!(f.to_vec(), Ok(vec![9, 8]));
}

#[test]
fn insert_and_remove_undo_each_other() {
    let orig = vec![12u32, 8, 4, 0, 4, 9, 1, 0];
    for index in 0..=8u64 {
        let mut f: MemVec<u32> = VecFile::try_from(orig.clone()).unwrap();
        let mut reference = orig.clone();
        f.try_insert(index, &100).unwrap();
        reference.insert(index as usize, 100);
        assert_eq!(f.to_vec(), Ok(reference));
        assert_eq!(f.len(), 9);
        assert_eq!(f.cap(), 16);
        assert_eq!(f.try_remove(index), Ok(100));
        assert_eq!(f.to_vec(), Ok(orig.clone()));
    }
}

#[test]
fn insert_at_the_end_appends() {
    let mut f: MemVec<u8> = VecFile::try_from(vec![1, 2, 3]).unwrap();
    f.try_insert(3, &4).unwrap();
    assert_eq!(f.to_vec(), Ok(vec![1, 2, 3, 4]));
    let mut empty: MemVec<u8> = VecFile::new().unwrap();
    empty.insert(0, &5);
    assert_eq!(empty.to_vec(), Ok(vec![5]));
}

#[test]
fn remove_of_the_last_element_moves_nothing() {
    let mut f: MemVec<u8> = VecFile::try_from(vec![1, 2, 3]).unwrap();
    assert_eq!(f.try_remove(2), Ok(3));
    assert_eq!(f.try_remove(0), Ok(1));
    assert_eq!(f.try_remove(0), Ok(2));
    assert_eq!(f.try_remove(0), Err(Error::OutOfRange(0, 0)));
}

#[test]
fn capacity_doubles_from_eight() {
    let mut f: MemVec<u16> = VecFile::new().unwrap();
    let mut expected = 8u64;
    for count in 0..200u64 {
        assert!(f.len() <= f.cap());
        assert_eq!(f.cap(), expected);
        f.try_push(&(count as u16)).unwrap();
        if count + 1 > expected {
            expected *= 2;
        }
    }
    assert_eq!(f.cap(), 256);
    for _ in 0..200 {
        f.try_pop().unwrap();
    }
    assert_eq!(f.cap(), 256);
    assert_eq!(f.len(), 0);
}

#[test]
fn reserve_doubles_until_the_elements_fit() {
    let mut f: MemVec<u8> = VecFile::try_from(vec![1, 2, 3]).unwrap();
    f.reserve(5).unwrap();
    assert_eq!(f.cap(), 8);
    f.reserve(6).unwrap();
    assert_eq!(f.cap(), 16);
    f.reserve(100).unwrap();
    assert_eq!(f.cap(), 128);
    f.reserve(0).unwrap();
    assert_eq!(f.cap(), 128);
    assert_eq!(f.len(), 3);
    assert_eq!(f.to_vec(), Ok(vec![1, 2, 3]));
}

#[test]
fn what_cannot_be_addressed_is_refused_before_anything_is_done() {
    let mut f: MemVec<u64> = VecFile::try_from(vec![1, 2, 3]).unwrap();
    assert_eq!(f.reserve(u64::MAX), Err(Error::IndexExceedsMaxU64));
    assert_eq!(f.reserve(u64::MAX / 8), Err(Error::IndexExceedsMaxU64));
    assert_eq!(f.resize(u64::MAX / 4, &0), Err(Error::IndexExceedsMaxU64));
    assert_eq!(f.resize_with(u64::MAX, || 0), Err(Error::IndexExceedsMaxU64));
    assert_eq!(f.cap(), 8);
    assert_eq!(f.len(), 3);
    assert_eq!(f.to_vec(), Ok(vec![1, 2, 3]));
    assert_eq!(f.calc_index(5), Ok(40));
    assert_eq!(f.calc_index(u64::MAX / 8), Ok(u64::MAX / 8 * 8));
    assert_eq!(f.calc_index(u64::MAX / 8 + 1), Err(Error::IndexExceedsMaxU64));
    assert_eq!(f.calc_index(u64::MAX), Err(Error::IndexExceedsMaxU64));
    assert_eq!(MemVec::<u64>::max_capacity(), u64::MAX / 8);
    assert_eq!(MemVec::<u8>::max_capacity(), u64::MAX);
}

#[test]
fn a_slot_at_the_edge_of_the_offsets() {
    let f: MemVec<u8> = VecFile::new().unwrap();
    assert_eq!(f.calc_index(u64::MAX), Ok(u64::MAX));
    let g: MemVec<u16> = VecFile::new().unwrap();
    assert_eq!(g.calc_index(u64::MAX / 2), Ok(u64::MAX - 1));
    assert_eq!(g.calc_index(u64::MAX / 2 + 1), Err(Error::IndexExceedsMaxU64));
}

#[test]
fn resize_fills_and_cuts() {
    let mut f: MemVec<u16> = VecFile::try_from(vec![1, 2, 3]).unwrap();
    f.resize(5, &9).unwrap();
    assert_eq!(f.to_vec(), Ok(vec![1, 2, 3, 9, 9]));
    f.resize(2, &7).unwrap();
    assert_eq!(f.to_vec(), Ok(vec![1, 2]));
    f.resize(2, &7).unwrap();
    assert_eq!(f.to_vec(), Ok(vec![1, 2]));
    f.resize(4, &7).unwrap();
    assert_eq!(f.to_vec(), Ok(vec![1, 2, 7, 7]));
    f.resize(17, &0).unwrap();
    assert_eq!(f.cap(), 32);
    assert_eq!(f.len(), 17);
    f.resize(0, &0).unwrap();
    assert_eq!(f.to_vec(), Ok(vec![]));
    assert_eq!(f.cap(), 32);
}

#[test]
fn resize_with_asks_for_each_new_element() {
    let mut f: MemVec<u32> = VecFile::try_from(vec![1, 2, 3]).unwrap();
    f.resize_with(6, || 42).unwrap();
    assert_eq!(f.to_vec(), Ok(vec![1, 2, 3, 42, 42, 42]));
    let calls = std::cell::Cell::new(0u32);
    f.resize_with(9, || {
        calls.set(calls.get() + 1);
        calls.get()
    })
    .unwrap();
    assert_eq!(calls.get(), 3);
    assert_eq!(f.to_vec(), Ok(vec![1, 2, 3, 42, 42, 42, 1, 2, 3]));
    f.resize_with(1, || {
        calls.set(100);
        0
    })
    .unwrap();
    assert_eq!(calls.get(), 3);
    assert_eq!(f.to_vec(), Ok(vec![1]));
}

#[test]
fn truncate_only_shortens() {
    let mut f: MemVec<u8> = VecFile::try_from(vec![1, 2, 3, 4]).unwrap();
    f.truncate(10);
    assert_eq!(f.len(), 4);
    f.truncate(4);
    assert_eq!(f.len(), 4);
    f.truncate(2);
    assert_eq!(f.to_vec(), Ok(vec![1, 2]));
    f.push(&9);
    assert_eq!(f.to_vec(), Ok(vec![1, 2, 9]));
    f.truncate(0);
    assert_eq!(f.len(), 0);
    assert_eq!(f.try_pop(), Err(Error::PopOnEmpty));
}

#[test]
fn extending_reserves_once_and_appends_in_order() {
    let mut f: MemVec<u16> = VecFile::new().unwrap();
    f.try_extend_from_slice(&[]).unwrap();
    assert_eq!(f.len(), 0);
    let many: Vec<u16> = (0..1000).collect();
    f.try_extend_from_slice(&many).unwrap();
    assert_eq!(f.cap(), 1024);
    f.try_extend_from_slice(&[7, 8]).unwrap();
    assert_eq!(f.len(), 1002);
    assert_eq!(f.try_get(999), Ok(999));
    assert_eq!(f.try_get(1000), Ok(7));
    assert_eq!(f.try_get(1001), Ok(8));
}

#[test]
fn conversion_there_and_back_keeps_the_elements() {
    for len in [0usize, 1, 7, 8, 9, 16, 17, 300] {
        let given: Vec<u32> = (0..len as u32).map(|i| i.wrapping_mul(2654435761)).collect();
        let stored: MemVec<u32> = VecFile::try_from(given.clone()).unwrap();
        assert_eq!(stored.len(), len as u64);
        assert_eq!(stored.try_into(), Ok(given.clone()));
        let mut filled: MemVec<u32> = VecFile::try_from_iter(given.clone()).unwrap();
        assert_eq!(filled.shadow_count(), 0);
        assert_eq!(filled.to_vec(), Ok(given.clone()));
        let built: MemVec<u32> = VecFile::from_iter(given.clone());
        assert_eq!(built.try_into(), Ok(given));
    }
}

#[test]
fn shadows_stay_equivalent_through_every_change() {
    let mut f: MemVec<u32> = VecFile::new().unwrap();
    f.add_shadows(3).unwrap();
    assert_eq!(f.shadow_count(), 3);
    f.try_extend_from_slice(&[1, 2, 3, 4, 5, 6, 7, 8, 9, 10]).unwrap();
    assert_eq!(f.confirm_shadow_equivalence(), Ok(true));
    f.try_set(4, &50).unwrap();
    assert_eq!(f.confirm_shadow_equivalence(), Ok(true));
    f.try_insert(0, &0).unwrap();
    assert_eq!(f.confirm_shadow_equivalence(), Ok(true));
    f.try_remove(5).unwrap();
    assert_eq!(f.confirm_shadow_equivalence(), Ok(true));
    f.try_pop().unwrap();
    f.try_push(&77).unwrap();
    assert_eq!(f.confirm_shadow_equivalence(), Ok(true));
    f.resize(40, &3).unwrap();
    f.truncate(12);
    f.resize_with(13, || 8).unwrap();
    assert_eq!(f.confirm_shadow_equivalence(), Ok(true));
    f.remove_shadows(1);
    assert_eq!(f.shadow_count(), 2);
    f.remove_shadows(5);
    assert_eq!(f.shadow_count(), 0);
    assert_eq!(f.confirm_shadow_equivalence(), Ok(true));
    f.add_shadows(1).unwrap();
    f.clear_shadows();
    assert_eq!(f.shadow_count(), 0);
    assert_eq!(f.to_vec(), Ok(vec![0, 1, 2, 3, 4, 6, 7, 8, 9, 77, 3, 3, 8]));
}

#[test]
fn cursors_over_one_instance_do_not_disturb_each_other() {
    let mut f: MemVec<u8> = VecFile::try_from(vec![1, 2, 3]).unwrap();
    let mut first = f.into_iter();
    let mut second = f.into_iter();
    assert_eq!(first.next(&mut f), Ok(Some(1)));
    assert_eq!(second.next(&mut f), Ok(Some(1)));
    assert_eq!(first.next(&mut f), Ok(Some(2)));
    assert_eq!(first.next(&mut f), Ok(Some(3)));
    assert_eq!(second.next(&mut f), Ok(Some(2)));
    assert_eq!(first.next(&mut f), Ok(None));
    assert_eq!(first.next(&mut f), Ok(None));
    assert_eq!(second.next(&mut f), Ok(Some(3)));
    assert_eq!(second.next(&mut f), Ok(None));
}

#[test]
fn a_cursor_keeps_to_the_length_it_was_made_with() {
    let mut f: MemVec<u8> = VecFile::try_from(vec![1, 2, 3]).unwrap();
    let mut cursor = f.into_iter();
    f.push(&4);
    assert_eq!(cursor.next(&mut f), Ok(Some(1)));
    f.truncate(1);
    assert_eq!(cursor.next(&mut f), Err(Error::OutOfRange(1, 1)));
    f.push(&7);
    assert_eq!(cursor.next(&mut f), Ok(Some(7)));
    f.push(&8);
    f.push(&9);
    assert_eq!(cursor.next(&mut f), Ok(Some(8)));
    assert_eq!(cursor.next(&mut f), Ok(None));
}

#[test]
fn equal_means_as_many_and_the_same() {
    let mut a: MemVec<u16> = VecFile::try_from(vec![1, 2, 3]).unwrap();
    let mut b: MemVec<u16> = VecFile::try_from(vec![1, 2, 3]).unwrap();
    let mut c: MemVec<u16> = VecFile::try_from(vec![1, 2, 4]).unwrap();
    let mut longer: MemVec<u16> = VecFile::try_from(vec![1, 2, 3, 4]).unwrap();
    let mut empty: MemVec<u16> = VecFile::new().unwrap();
    let mut nothing: MemVec<u16> = VecFile::new().unwrap();
    assert_eq!(a.eq(&mut b), Ok(true));
    assert_eq!(a.eq(&mut c), Ok(false));
    assert_eq!(a.eq(&mut longer), Ok(false));
    assert_eq!(longer.eq(&mut a), Ok(false));
    assert_eq!(a.eq(&mut empty), Ok(false));
    assert_eq!(empty.eq(&mut nothing), Ok(true));
    assert_eq!(a.eq_slice(&[1, 2, 3]), Ok(true));
    assert_eq!(a.eq_slice(&[1, 2]), Ok(false));
    assert_eq!(a.eq_slice(&[1, 3, 3]), Ok(false));
    assert_eq!(a.eq_slice(&[]), Ok(false));
    assert_eq!(a.eq_slice(&[1, 2, 3, 9]), Ok(false));
    assert_eq!(empty.eq_slice(&[]), Ok(true));
    longer.truncate(3);
    assert_eq!(a.eq(&mut longer), Ok(true));
}

#[test]
fn buffers_are_compared_element_by_element() {
    let ours = [1u8, 0, 2, 0, 3, 0, 9];
    let theirs = [1u8, 0, 2, 0, 4, 0];
    assert!(same_elements::<u16>(&ours, &theirs, 0));
    assert!(same_elements::<u16>(&ours, &theirs, 2));
    assert!(!same_elements::<u16>(&ours, &theirs, 3));
    assert!(same_elements::<u8>(&ours, &theirs, 4));
    assert!(!same_elements::<u8>(&ours, &theirs, 5));
    assert!(same_elements::<u32>(&ours, &theirs, 1));
    assert!(!same_elements::<u32>(&[1, 0, 0, 0, 2, 0, 0, 0], &[1, 0, 0, 0, 2, 0, 0, 1], 2));
    assert!(same_elements::<u64>(&ours, &theirs, 0));
}

#[test]
fn blocks_hold_as_many_elements_as_fit() {
    assert_eq!(MemVec::<u8>::elements_per_block(), 4096);
    assert_eq!(MemVec::<u16>::elements_per_block(), 2048);
    assert_eq!(MemVec::<u32>::elements_per_block(), 1024);
    assert_eq!(MemVec::<u64>::elements_per_block(), 512);
}

#[test]
fn the_check_goes_over_more_than_one_block() {
    let many: Vec<u64> = (0..2000).collect();
    let mut f: MemVec<u64> = VecFile::try_from(many).unwrap();
    f.add_shadows(2).unwrap();
    assert_eq!(f.confirm_shadow_equivalence(), Ok(true));
    f.try_set(1999, &7).unwrap();
    f.try_set(512, &7).unwrap();
    f.try_set(511, &7).unwrap();
    assert_eq!(f.confirm_shadow_equivalence(), Ok(true));
}

#[test]
fn a_clone_has_its_own_stores() {
    let mut f: MemVec<u64> = VecFile::try_from(vec![5, 1, 3, 9]).unwrap();
    f.add_shadows(2).unwrap();
    let mut copy = f.try_clone().unwrap();
    assert_eq!(copy.shadow_count(), 2);
    assert_eq!(copy.cap(), 8);
    copy.try_set(0, &6).unwrap();
    copy.try_push(&7).unwrap();
    assert_eq!(f.to_vec(), Ok(vec![5, 1, 3, 9]));
    assert_eq!(copy.to_vec(), Ok(vec![6, 1, 3, 9, 7]));
    assert_eq!(copy.confirm_shadow_equivalence(), Ok(true));
    let many: Vec<u64> = (0..100).collect();
    let mut big: MemVec<u64> = VecFile::try_from(many.clone()).unwrap();
    big.reserve(1000).unwrap();
    let mut small = big.try_clone().unwrap();
    assert_eq!(big.cap(), 2048);
    assert_eq!(small.cap(), 128);
    assert_eq!(small.to_vec(), Ok(many));
}

#[test]
fn stale_slots_come_back_when_the_length_grows_over_them() {
    let mut store = MemStore::new();
    store.write_at(0, &[1, 0, 2, 0, 3, 0, 4, 0]).unwrap();
    let mut f: MemVec<u16> = VecFile::from_raw_parts(store, 2, 8).unwrap();
    assert_eq!(f.to_vec(), Ok(vec![1, 2]));
    let mut again = MemStore::new();
    again.write_at(0, &[1, 0, 2, 0, 3, 0, 4, 0]).unwrap();
    let mut wider: MemVec<u16> = VecFile::from_raw_parts(again, 5, 16).unwrap();
    assert_eq!(wider.to_vec(), Ok(vec![1, 2, 3, 4, 0]));
    assert_eq!(wider.cap(), 16);
}
