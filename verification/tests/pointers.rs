use co_queue::own_ref::{
    data_with_tag, decompose_data, ensure_aligned, low_bits, Atomic, Heap, Owned, Pointer, Shared,
};

#[test]
fn tags_live_in_the_unused_bits() {
    assert_eq!(low_bits::<u8>(), 0);
    assert_eq!(low_bits::<u64>(), 7);
    assert!(ensure_aligned::<u64>(24));
    assert!(!ensure_aligned::<u64>(25));
    assert_eq!(data_with_tag::<u64>(24, 3), 27);
    assert_eq!(data_with_tag::<u64>(29, 11), 27);
    assert_eq!(decompose_data::<u64>(27), 24);
    assert_eq!(decompose_data::<u8>(27), 27);
}

#[test]
fn owned_values_stand_on_the_heap() {
    let mut heap: Heap<u64> = Heap::new();
    let owned = Owned::new(&mut heap, 5).unwrap();
    assert!(!owned.is_null());
    assert_eq!(owned.deref(&heap), Some(&5));
    *owned.deref_mut(&mut heap).unwrap() += 1;
    let twin = owned.clone_in(&mut heap).unwrap();
    assert_ne!(twin.as_raw(), owned.as_raw());
    assert_eq!(owned.free(&mut heap), Some(6));
    assert_eq!(twin.deref(&heap), Some(&6));
    assert!(Owned::<u64>::null().is_null());
    assert_eq!(Owned::<u64>::null().deref(&heap), None);
    assert!(Owned::<u64>::null().clone_in(&mut heap).is_none());
}

#[test]
fn pointers_keep_their_tags() {
    let mut heap: Heap<u32> = Heap::new();
    let owned = Owned::new(&mut heap, 9).unwrap();
    let raw = owned.as_raw();
    let shared: Shared<u32> = owned.into_shared();
    let tagged: Shared<u32> = Pointer::from_usize(data_with_tag::<u32>(shared.into_usize(), 2));
    assert_eq!(tagged.as_raw(), raw);
    assert_eq!(tagged.as_raw_mut(), raw);
    assert_eq!(tagged.deref(&heap), Some(&9));
    *tagged.deref_mut(&mut heap).unwrap() += 1;
    assert_eq!(tagged.deref(&heap), Some(&10));
    assert_eq!(shared.deref(&heap), Some(&10));
    assert_eq!(tagged.into_usize(), raw + 2);
    assert_eq!(shared.into_owned().free(&mut heap), Some(10));
    assert!(Shared::<u32>::null().is_null());
    assert!(Shared::<u32>::from_raw(0).is_null());
    assert_eq!(Owned::<u32>::from_raw(8).into_usize(), 8);
    assert_eq!(Owned::<u32>::from_usize(9).as_raw(), 8);
}

#[test]
fn an_atomic_changes_only_from_what_is_expected() {
    let mut heap: Heap<u16> = Heap::new();
    let mut atomic = Atomic::new(&mut heap, 1).unwrap();
    let first = atomic.load().into_usize();
    let second = Owned::new(&mut heap, 2).unwrap().into_usize();
    let wrong: Shared<u16> = Pointer::from_usize(second);
    let new: Shared<u16> = Pointer::from_usize(second);
    assert!(atomic.compare_set(wrong, new).is_err());
    let right: Shared<u16> = Pointer::from_usize(first);
    let set = atomic.compare_set(right, new);
    assert_eq!(set.ok().map(|old| old.into_usize()), Some(first));
    let right: Shared<u16> = Pointer::from_usize(second);
    assert!(atomic.compare_set_weak(right, Shared::<u16>::null(), true).is_err());
    assert!(atomic.compare_set_weak(right, Shared::<u16>::null(), false).is_ok());
    assert!(atomic.load().is_null());
    atomic.store(right);
    assert_eq!(atomic.fetch_add(1).into_usize(), second);
    assert_eq!(atomic.load().into_usize(), second + 1);
    assert_eq!(atomic.into_owned().free(&mut heap), Some(2));
    assert!(Atomic::<u16>::null().load().is_null());
    assert_eq!(Atomic::<u16>::from_usize(6).load().as_raw(), 6);
    assert_eq!(Atomic::from_shared(right).load().into_usize(), second);
    assert_eq!(Atomic::from_owned(Owned::<u16>::from_raw(4)).load().as_raw(), 4);
}
