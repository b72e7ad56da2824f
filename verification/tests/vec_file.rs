use vecfile::{Error, MemStore, VecFile};

type MemVec<T> = VecFile<T, MemStore>;

fn collect<T: vecfile::Element>(vf: &mut MemVec<T>) -> Vec<T> {
    vf.to_vec().unwrap()
}

#[test]
fn vec_file_push_pop() {
    let num: u64 = 0xff00ff50;
    let num2: u64 = 0xdd00ddf0;
    let num3: u64 = 0xaa00aa10;
    let num4: u64 = 0xbb00bbaa;
    let mut f: MemVec<u64> = VecFile::new_with_path(MemStore::new()).unwrap();
    f.push(&num);
    f.push(&num2);
    f.push(&num3);
    f.push(&num4);

    assert_eq!(f.pop(), num4);
    assert_eq!(f.pop(), num3);
    assert_eq!(f.pop(), num2);
    assert_eq!(f.pop(), num);
}

#[test]
fn vec_file_set_get() {
    let num: u16 = 0x1111;
    let num2: u16 = 0xbbbb;
    let num3: u16 = 0x8888;
    let num4: u16 = 0x9999;
    let num5: u16 = 0xffff;
    let num6: u16 = 0x5555;

    let mut f: MemVec<u16> = VecFile::new_with_path(MemStore::new()).unwrap();
    f.resize(32, &num5).unwrap();
    f.set(1, &num);
    f.set(3, &num2);
    f.set(6, &num3);
    f.set(13, &num4);
    f.push(&num6);

    assert_eq!(f.get(1), num);
    assert_eq!(f.get(3), num2);
    assert_eq!(f.get(5), num5);
    assert_eq!(f.get(6), num3);
    assert_eq!(f.get(13), num4);
    assert_eq!(f.pop(), num6);
}

#[test]
fn vec_file_slices() {
    let mut f: MemVec<u16> = VecFile::new().unwrap();
    let slice = [123, 456, 789, 987, 654];
    f.extend_from_slice(&slice);

    assert_eq!(f.get(0), 123);
    assert_eq!(f.get(3), 987);
    assert_eq!(f.get(2), 789);
    assert_eq!(f.get(4), 654);
    assert_eq!(f.get(1), 456);
}

#[test]
fn vec_file_iterator() {
    let orig_values: Vec<u16> = vec![0x2222, 0xffff, 0xdddd, 0xaaaa, 0x8888];
    let mut f: MemVec<u16> = VecFile::new().unwrap();
    f.extend_from_slice(orig_values.as_slice());
    let mut cursor = f.into_iter();
    let mut seen = 0;
    for orig in orig_values.into_iter() {
        let arr_file = cursor.next(&mut f).unwrap().unwrap();
        assert_eq!(orig, arr_file);
        seen += 1;
    }
    assert_eq!(seen, 5);
    assert_eq!(cursor.next(&mut f), Ok(None));
}

#[test]
#[should_panic]
fn vec_file_index_out_of_bounds() {
    let mut f: MemVec<u16> = VecFile::try_from(vec![0x2222, 0xffff, 0xdddd, 0xaaaa]).unwrap();
    f.get(4);
}

#[test]
#[should_panic]
fn pop_on_empty() {
    let mut f: MemVec<u16> = VecFile::try_from(vec![]).unwrap();
    f.pop();
}

#[test]
fn vec_file_try_from_into() {
    let orig_vec: Vec<u16> = vec![0x1111, 0x2222, 0x3333, 0x4444, 0x5555];
    let orig_f: MemVec<u16> = VecFile::try_from(orig_vec.clone()).unwrap();
    let vec: Vec<u16> = orig_f.try_into().unwrap();

    assert_eq!(orig_vec.len(), vec.len());
    for i in 0..orig_vec.len() {
        assert_eq!(orig_vec[i], vec[i]);
    }
}

#[test]
fn shadows() {
    let mut f: MemVec<u16> = VecFile::new().unwrap();
    f.add_shadows(3).unwrap();
    f.push(&1);
    f.push(&2);
    f.push(&3);
    assert!(f.confirm_shadow_equivalence().unwrap());
    f.push(&4);
    assert!(f.confirm_shadow_equivalence().unwrap());
}

#[test]
fn insert_remove() {
    let orig = vec![12u32, 8, 4, 0, 4, 9, 1, 0];
    let mut vec = orig.clone();
    let mut vecf: MemVec<u32> = VecFile::try_from(vec.clone()).unwrap();
    assert_eq!(vec.remove(1), vecf.remove(1));
    assert_eq!(vec, collect(&mut vecf));
    assert_eq!(vec.remove(3), vecf.remove(3));
    assert_eq!(vec, collect(&mut vecf));
    assert_eq!(vec.insert(3, 123), vecf.insert(3, &123));
    assert_eq!(vec, collect(&mut vecf));

    let mut vec = orig.clone();
    let mut vecf: MemVec<u32> = VecFile::try_from(vec.clone()).unwrap();
    vecf.insert(7, &100);
    vec.insert(7, 100);
    assert_eq!(vec, vec![12u32, 8, 4, 0, 4, 9, 1, 100, 0]);
    assert!(vecf.eq_slice(&vec).unwrap());
    assert_eq!(vec, collect(&mut vecf));
}

#[test]
fn rounded_test() {
    let mut vec = vec![12u32, 8, 4, 0, 4, 9, 1, 0];
    let mut vecf: MemVec<u32> = VecFile::try_from(vec.clone()).unwrap();
    let vec_other = vec![512u32, 434, 2830, 3940, 32432];
    vecf.add_shadows(2).unwrap();
    vecf.push(&18);
    vecf.push(&12);

    assert_eq!(vecf.len(), (vec.len() as u64) + 2);
    vecf.pop();
    assert_eq!(vecf.len(), (vec.len() as u64) + 1);
    vecf.pop();
    assert_eq!(vec, collect(&mut vecf));
    assert!(vecf.confirm_shadow_equivalence().unwrap());
    vecf.clear_shadows();
    vecf.add_shadows(5).unwrap();
    assert!(vecf.confirm_shadow_equivalence().unwrap());
    vecf.push(&8);
    assert!(vecf.confirm_shadow_equivalence().unwrap());
    vecf.remove_shadows(3);
    assert!(vecf.confirm_shadow_equivalence().unwrap());
    vec.push(8);
    assert_eq!(vec, collect(&mut vecf));
    assert!(vecf.confirm_shadow_equivalence().unwrap());
    vec.extend_from_slice(vec_other.as_ref());
    vecf.extend_from_slice(vec_other.as_ref());
    assert_eq!(vec, collect(&mut vecf));
    assert!(vecf.confirm_shadow_equivalence().unwrap());
    vec.pop();
    vecf.pop();
    assert_eq!(vec, collect(&mut vecf));
    assert!(vecf.confirm_shadow_equivalence().unwrap());
    vec.resize(10, 0);
    vecf.resize(10, &0).unwrap();
    assert_eq!(vec, collect(&mut vecf));
    assert!(vecf.confirm_shadow_equivalence().unwrap());
    vec.truncate(3);
    vecf.truncate(3);
    let mut vecf2 = vecf.try_clone().unwrap();
    assert!(vecf.eq_slice(&vec).unwrap());
    assert!(vecf.eq(&mut vecf2).unwrap());
    assert_eq!(vec, collect(&mut vecf));
    assert!(vecf.confirm_shadow_equivalence().unwrap());
    vec.truncate(0);
    vecf.truncate(0);
    assert_eq!(vec, collect(&mut vecf));
    assert!(vecf.confirm_shadow_equivalence().unwrap());
}

#[test]
fn clone() {
    let mut vf: MemVec<u8> = VecFile::try_from(vec![5u8, 1, 3, 9]).unwrap();
    let mut vf_clone = vf.try_clone().unwrap();
    assert!(vf.eq(&mut vf_clone).unwrap());
    assert_eq!(collect(&mut vf_clone), vec![5u8, 1, 3, 9]);
}

#[test]
fn get_past_the_end_is_out_of_range() {
    let mut f: MemVec<u16> = VecFile::try_from(vec![0x2222, 0xffff, 0xdddd, 0xaaaa]).unwrap();
    assert_eq!(f.try_get(4), Err(Error::OutOfRange(4, 4)));
    assert_eq!(f.try_set(4, &1), Err(Error::OutOfRange(4, 4)));
    assert_eq!(f.try_remove(9), Err(Error::OutOfRange(9, 4)));
    assert_eq!(f.try_insert(5, &1), Err(Error::OutOfRange(5, 4)));
    assert_eq!(collect(&mut f), vec![0x2222, 0xffff, 0xdddd, 0xaaaa]);
}

#[test]
fn pop_of_nothing_changes_nothing() {
    let mut f: MemVec<u32> = VecFile::new().unwrap();
    assert_eq!(f.try_pop(), Err(Error::PopOnEmpty));
    assert_eq!(f.len(), 0);
    assert_eq!(f.cap(), 8);
    f.push(&7);
    assert_eq!(f.try_pop(), Ok(7));
    assert_eq!(f.try_pop(), Err(Error::PopOnEmpty));
    assert_eq!(f.len(), 0);
}
