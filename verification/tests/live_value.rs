use bumbling::live_value::{
    check_find_live_value, check_find_live_value_arc, Restore, ValueStore, ValueStoreEnum,
};
use std::sync::Arc;

#[test]
fn a_new_place_is_entered_with_its_own_value() {
    let mut store = ValueStore::new();
    assert!(store.get(7).is_none());
    let v = check_find_live_value(&mut store, 7, 5usize, "tests.rs", 10, 13);
    assert_eq!(v, 5);
    assert!(matches!(store.get(7), Some(ValueStoreEnum::StoredUsize(5))));
}

#[test]
fn a_known_place_has_the_stored_value() {
    let mut store = ValueStore::new();
    assert_eq!(check_find_live_value(&mut store, 7, 5u32, "f", 1, 1), 5);
    assert_eq!(check_find_live_value(&mut store, 7, 9u32, "f", 1, 1), 5);
    assert_eq!(check_find_live_value(&mut store, 8, 9u32, "f", 1, 1), 9);
    assert_eq!(check_find_live_value(&mut store, 7, 0u32, "g", 2, 2), 5);
    assert!(matches!(store.get(7), Some(ValueStoreEnum::StoredU32(5))));
    assert!(matches!(store.get(8), Some(ValueStoreEnum::StoredU32(9))));
}

#[test]
fn places_keep_values_of_every_kind() {
    let mut store = ValueStore::new();
    assert_eq!(check_find_live_value(&mut store, 1, 1usize, "f", 1, 1), 1);
    assert_eq!(check_find_live_value(&mut store, 2, 2u64, "f", 1, 1), 2);
    assert_eq!(check_find_live_value(&mut store, 3, 3u32, "f", 1, 1), 3);
    assert_eq!(check_find_live_value(&mut store, 4, 4u8, "f", 1, 1), 4);
    assert_eq!(check_find_live_value(&mut store, 5, -5isize, "f", 1, 1), -5);
    assert_eq!(check_find_live_value(&mut store, 6, -6i64, "f", 1, 1), -6);
    assert_eq!(check_find_live_value(&mut store, 7, -7i32, "f", 1, 1), -7);
    assert_eq!(check_find_live_value(&mut store, 8, 'x', "f", 1, 1), 'x');
    assert_eq!(check_find_live_value(&mut store, 1, 0usize, "f", 1, 1), 1);
    assert_eq!(check_find_live_value(&mut store, 2, 0u64, "f", 1, 1), 2);
    assert_eq!(check_find_live_value(&mut store, 3, 0u32, "f", 1, 1), 3);
    assert_eq!(check_find_live_value(&mut store, 4, 0u8, "f", 1, 1), 4);
    assert_eq!(check_find_live_value(&mut store, 5, 0isize, "f", 1, 1), -5);
    assert_eq!(check_find_live_value(&mut store, 6, 0i64, "f", 1, 1), -6);
    assert_eq!(check_find_live_value(&mut store, 7, 0i32, "f", 1, 1), -7);
    assert_eq!(check_find_live_value(&mut store, 8, 'y', "f", 1, 1), 'x');
    assert!(matches!(store.get(5), Some(ValueStoreEnum::StoredIsize(-5))));
    assert!(matches!(store.get(8), Some(ValueStoreEnum::StoredChar('x'))));
}

#[test]
fn a_shared_string_is_stored_and_given_back() {
    let mut store = ValueStore::new();
    let first = Arc::new("first".to_string());
    let second = Arc::new("second".to_string());
    let got = check_find_live_value_arc(&mut store, 1, first.clone(), "f", 1, 1);
    assert!(Arc::ptr_eq(&got, &first));
    let got = check_find_live_value_arc(&mut store, 1, second.clone(), "f", 1, 1);
    assert_eq!(*got, "first");
    assert!(Arc::ptr_eq(&got, &first));
    match store.get(1) {
        Some(ValueStoreEnum::StoredString(s)) => assert!(Arc::ptr_eq(s, &first)),
        _ => panic!("a string was expected"),
    }
}

#[test]
fn the_cloning_form_keeps_plain_values_too() {
    let mut store = ValueStore::new();
    assert_eq!(check_find_live_value_arc(&mut store, 1, 4u8, "f", 1, 1), 4);
    assert_eq!(check_find_live_value_arc(&mut store, 1, 5u8, "f", 1, 1), 4);
}

#[test]
fn values_pass_into_the_store_form() {
    assert!(matches!(ValueStoreEnum::from(1usize), ValueStoreEnum::StoredUsize(1)));
    assert!(matches!(ValueStoreEnum::from(2u64), ValueStoreEnum::StoredU64(2)));
    assert!(matches!(ValueStoreEnum::from(3u32), ValueStoreEnum::StoredU32(3)));
    assert!(matches!(ValueStoreEnum::from(4u8), ValueStoreEnum::StoredU8(4)));
    assert!(matches!(ValueStoreEnum::from(-5isize), ValueStoreEnum::StoredIsize(-5)));
    assert!(matches!(ValueStoreEnum::from(-6i64), ValueStoreEnum::StoredI64(-6)));
    assert!(matches!(ValueStoreEnum::from(-7i32), ValueStoreEnum::StoredI32(-7)));
    assert!(matches!(ValueStoreEnum::from('c'), ValueStoreEnum::StoredChar('c')));
    let s = Arc::new("s".to_string());
    match ValueStoreEnum::from(s.clone()) {
        ValueStoreEnum::StoredString(t) => assert!(Arc::ptr_eq(&s, &t)),
        _ => panic!("a string was expected"),
    }
    let stored: ValueStoreEnum = 9u8.into();
    assert!(matches!(stored, ValueStoreEnum::StoredU8(9)));
}

#[test]
fn a_stored_value_is_given_back_as_its_own_type_alone() {
    let stored = ValueStoreEnum::StoredU32(3);
    assert_eq!(u32::restore(&stored), Some(3));
    assert_eq!(u64::restore(&stored), None);
    assert_eq!(usize::restore(&stored), None);
    assert_eq!(u8::restore(&stored), None);
    assert_eq!(i32::restore(&stored), None);
    assert_eq!(char::restore(&stored), None);
    assert!(<Arc<String>>::restore(&stored).is_none());
    assert_eq!(usize::restore(&ValueStoreEnum::StoredUsize(1)), Some(1));
    assert_eq!(u64::restore(&ValueStoreEnum::StoredU64(2)), Some(2));
    assert_eq!(u8::restore(&ValueStoreEnum::StoredU8(4)), Some(4));
    assert_eq!(isize::restore(&ValueStoreEnum::StoredIsize(-5)), Some(-5));
    assert_eq!(i64::restore(&ValueStoreEnum::StoredI64(-6)), Some(-6));
    assert_eq!(i32::restore(&ValueStoreEnum::StoredI32(-7)), Some(-7));
    assert_eq!(char::restore(&ValueStoreEnum::StoredChar('c')), Some('c'));
    assert_eq!(char::restore(&ValueStoreEnum::StoredU8(99)), None);
}

#[test]
fn a_stored_string_is_given_back_shared() {
    let s = Arc::new("shared".to_string());
    let stored = ValueStoreEnum::StoredString(s.clone());
    let got = <Arc<String>>::restore(&stored).expect("a string is stored");
    assert!(Arc::ptr_eq(&got, &s));
    assert_eq!(Arc::strong_count(&s), 3);
    assert_eq!(*got, "shared");
}
