use std::collections::hash_map::DefaultHasher;
use std::hash::Hash;
use std::hash::Hasher;
use std::sync::Arc;

use rocketmq_store::cell::hash_upgraded;
use rocketmq_store::cell::upgraded_eq;
use rocketmq_store::cell::ArcRefCellWrapper;
use rocketmq_store::cell::SyncUnsafeCellWrapper;
use rocketmq_store::cell::WeakCellWrapper;

#[test]
fn new_creates_arc_cell_wrapper_with_provided_value() {
    let wrapper = ArcRefCellWrapper::new(10);
    assert_eq!(*wrapper.as_ref(), 10);
}

#[test]
fn clone_creates_a_new_instance_with_same_value() {
    let wrapper = ArcRefCellWrapper::new(20);
    let cloned_wrapper = wrapper.clone();
    assert_eq!(*cloned_wrapper.as_ref(), 20);
}

#[test]
fn as_ref_returns_immutable_reference_to_value() {
    let wrapper = ArcRefCellWrapper::new(30);
    assert_eq!(*wrapper.as_ref(), 30);
}

#[test]
fn deref_returns_reference_to_inner_value() {
    let wrapper = ArcRefCellWrapper::new(60);
    assert_eq!(*wrapper, 60);
}

#[test]
fn multiple_clones_share_the_same_underlying_data() {
    let wrapper = ArcRefCellWrapper::new(Arc::new(90));
    let cloned_wrapper1 = wrapper.clone();
    let cloned_wrapper2 = wrapper.clone();

    assert_eq!(Arc::strong_count(wrapper.as_ref()), 1);
    assert_eq!(Arc::strong_count(cloned_wrapper1.as_ref()), 1);
    assert_eq!(Arc::strong_count(cloned_wrapper2.as_ref()), 1);
}

#[test]
fn clones_point_to_one_allocation() {
    let wrapper = ArcRefCellWrapper::new(5u64);
    let twin = wrapper.clone();
    assert!(Arc::ptr_eq(wrapper.get_inner(), twin.get_inner()));
    assert_eq!(Arc::strong_count(wrapper.get_inner()), 2);
}

#[test]
fn weak_handle_upgrades_while_the_value_lives() {
    let wrapper = ArcRefCellWrapper::new(11u8);
    let weak = ArcRefCellWrapper::downgrade(&wrapper);
    let again = weak.upgrade();
    assert!(again.is_some());
    assert_eq!(*again.unwrap(), 11);
    let second = weak.clone();
    assert!(second.upgrade().is_some());
}

#[test]
fn weak_handle_is_dead_after_the_last_shared_handle() {
    let wrapper = ArcRefCellWrapper::new(12u8);
    let weak = ArcRefCellWrapper::downgrade(&wrapper);
    drop(wrapper);
    assert!(weak.upgrade().is_none());
    assert!(WeakCellWrapper::<u8>::wrap_upgraded(None).is_none());
}

#[test]
fn weak_handles_compare_by_live_value() {
    let a = ArcRefCellWrapper::new(3i32);
    let b = ArcRefCellWrapper::new(3i32);
    let c = ArcRefCellWrapper::new(4i32);
    let wa = ArcRefCellWrapper::downgrade(&a);
    let wb = ArcRefCellWrapper::downgrade(&b);
    let wc = ArcRefCellWrapper::downgrade(&c);
    assert!(wa == wb);
    assert!(wa != wc);
    drop(b);
    assert!(wa != wb);
    assert!(wb != wb);
}

#[test]
fn shared_handles_compare_by_value() {
    let a = ArcRefCellWrapper::new(3i32);
    let b = ArcRefCellWrapper::new(3i32);
    let c = ArcRefCellWrapper::new(4i32);
    assert!(a == b);
    assert!(a != c);
}

#[test]
fn hashing_a_handle_hashes_its_value() {
    let a = ArcRefCellWrapper::new(77u64);
    let mut h1 = DefaultHasher::new();
    a.hash(&mut h1);
    let mut h2 = DefaultHasher::new();
    77u64.hash(&mut h2);
    assert_eq!(h1.finish(), h2.finish());
    let weak = ArcRefCellWrapper::downgrade(&a);
    let mut h3 = DefaultHasher::new();
    weak.hash(&mut h3);
    assert_eq!(h3.finish(), h2.finish());
    drop(a);
    let mut h4 = DefaultHasher::new();
    weak.hash(&mut h4);
    assert_eq!(h4.finish(), DefaultHasher::new().finish());
}

#[test]
fn default_handle_holds_the_default_value() {
    let a: ArcRefCellWrapper<u32> = ArcRefCellWrapper::default();
    assert_eq!(*a, 0);
}

#[test]
fn owned_cell_reads_and_writes() {
    let mut cell = SyncUnsafeCellWrapper::new(1u32);
    assert_eq!(*cell.as_ref(), 1);
    *cell.as_mut() = 2;
    assert_eq!(*cell, 2);
    *cell = 3;
    assert_eq!(*cell.as_ref(), 3);
}

#[test]
fn upgrade_undoes_downgrade_while_a_shared_handle_lives() {
    let wrapper = ArcRefCellWrapper::new(vec![1u8, 2, 3]);
    let weak = ArcRefCellWrapper::downgrade(&wrapper);
    let again = weak.upgrade().unwrap();
    assert_eq!(*again, vec![1u8, 2, 3]);
    assert!(Arc::ptr_eq(again.get_inner(), wrapper.get_inner()));
    let second = weak.clone();
    let twin = second.upgrade().unwrap();
    assert!(Arc::ptr_eq(twin.get_inner(), wrapper.get_inner()));
    assert_eq!(Arc::weak_count(wrapper.get_inner()), 2);
}

#[test]
fn upgraded_handles_hash_and_compare_by_value() {
    let seven = Some(Arc::new(7u64));
    let other = Some(Arc::new(7u64));
    let eight = Some(Arc::new(8u64));
    let dead: Option<Arc<u64>> = None;
    assert!(upgraded_eq(&seven, &other));
    assert!(!upgraded_eq(&seven, &eight));
    assert!(!upgraded_eq(&seven, &dead));
    assert!(!upgraded_eq(&dead, &dead));
    let mut fed = DefaultHasher::new();
    hash_upgraded(&seven, &mut fed);
    let mut plain = DefaultHasher::new();
    7u64.hash(&mut plain);
    assert_eq!(fed.finish(), plain.finish());
    let mut untouched = DefaultHasher::new();
    hash_upgraded(&dead, &mut untouched);
    assert_eq!(untouched.finish(), DefaultHasher::new().finish());
}
