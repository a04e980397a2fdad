//! Values that can be changed while a program runs. Each place in a program
//! that holds such a value has an id; a store keeps the value that is
//! current for each id, and the place asks the store for it.

use std::collections::HashMap;
use std::sync::Arc;
use vstd::prelude::*;
use vstd::std_specs::convert::FromSpecImpl;
use vstd::std_specs::convert::IntoSpec;

verus! {

broadcast use vstd::std_specs::hash::group_hash_axioms;

/// `Arc::clone`: the new pointer shares the allocation of the one it was
/// made from, so the two point to the same string.
#[verifier::external_body]
fn share(a: &Arc<String>) -> (r: Arc<String>)
    ensures
        r == *a,
{
    Arc::clone(a)
}

/// A value as the store keeps it.
pub enum ValueStoreEnum {
    StoredUsize(usize),
    StoredU64(u64),
    StoredU32(u32),
    StoredU8(u8),
    StoredIsize(isize),
    StoredI64(i64),
    StoredI32(i32),
    StoredChar(char),
    StoredString(Arc<String>),
}

/// A type whose values the store can give back.
pub trait Restore: Sized {
    /// The value that `stored` holds, where it holds one of this type.
    spec fn restored(stored: ValueStoreEnum) -> Option<Self>;

    /// The value that `stored` holds, where it holds one of this type.
    fn restore(stored: &ValueStoreEnum) -> (r: Option<Self>)
        ensures
            r == Self::restored(*stored),
    ;
}

impl From<usize> for ValueStoreEnum {
    fn from(v: usize) -> (r: ValueStoreEnum) {
        ValueStoreEnum::StoredUsize(v)
    }
}

impl FromSpecImpl<usize> for ValueStoreEnum {
    open spec fn obeys_from_spec() -> bool {
        true
    }

    open spec fn from_spec(v: usize) -> ValueStoreEnum {
        ValueStoreEnum::StoredUsize(v)
    }
}

impl Restore for usize {
    open spec fn restored(stored: ValueStoreEnum) -> Option<usize> {
        match stored {
            ValueStoreEnum::StoredUsize(v) => Some(v),
            _ => None,
        }
    }

    fn restore(stored: &ValueStoreEnum) -> (r: Option<usize>) {
        match stored {
            ValueStoreEnum::StoredUsize(v) => Some(*v),
            _ => None,
        }
    }
}

impl From<u64> for ValueStoreEnum {
    fn from(v: u64) -> (r: ValueStoreEnum) {
        ValueStoreEnum::StoredU64(v)
    }
}

impl FromSpecImpl<u64> for ValueStoreEnum {
    open spec fn obeys_from_spec() -> bool {
        true
    }

    open spec fn from_spec(v: u64) -> ValueStoreEnum {
        ValueStoreEnum::StoredU64(v)
    }
}

impl Restore for u64 {
    open spec fn restored(stored: ValueStoreEnum) -> Option<u64> {
        match stored {
            ValueStoreEnum::StoredU64(v) => Some(v),
            _ => None,
        }
    }

    fn restore(stored: &ValueStoreEnum) -> (r: Option<u64>) {
        match stored {
            ValueStoreEnum::StoredU64(v) => Some(*v),
            _ => None,
        }
    }
}

impl From<u32> for ValueStoreEnum {
    fn from(v: u32) -> (r: ValueStoreEnum) {
        ValueStoreEnum::StoredU32(v)
    }
}

impl FromSpecImpl<u32> for ValueStoreEnum {
    open spec fn obeys_from_spec() -> bool {
        true
    }

    open spec fn from_spec(v: u32) -> ValueStoreEnum {
        ValueStoreEnum::StoredU32(v)
    }
}

impl Restore for u32 {
    open spec fn restored(stored: ValueStoreEnum) -> Option<u32> {
        match stored {
            ValueStoreEnum::StoredU32(v) => Some(v),
            _ => None,
        }
    }

    fn restore(stored: &ValueStoreEnum) -> (r: Option<u32>) {
        match stored {
            ValueStoreEnum::StoredU32(v) => Some(*v),
            _ => None,
        }
    }
}

impl From<u8> for ValueStoreEnum {
    fn from(v: u8) -> (r: ValueStoreEnum) {
        ValueStoreEnum::StoredU8(v)
    }
}

impl FromSpecImpl<u8> for ValueStoreEnum {
    open spec fn obeys_from_spec() -> bool {
        true
    }

    open spec fn from_spec(v: u8) -> ValueStoreEnum {
        ValueStoreEnum::StoredU8(v)
    }
}

impl Restore for u8 {
    open spec fn restored(stored: ValueStoreEnum) -> Option<u8> {
        match stored {
            ValueStoreEnum::StoredU8(v) => Some(v),
            _ => None,
        }
    }

    fn restore(stored: &ValueStoreEnum) -> (r: Option<u8>) {
        match stored {
            ValueStoreEnum::StoredU8(v) => Some(*v),
            _ => None,
        }
    }
}

impl From<isize> for ValueStoreEnum {
    fn from(v: isize) -> (r: ValueStoreEnum) {
        ValueStoreEnum::StoredIsize(v)
    }
}

impl FromSpecImpl<isize> for ValueStoreEnum {
    open spec fn obeys_from_spec() -> bool {
        true
    }

    open spec fn from_spec(v: isize) -> ValueStoreEnum {
        ValueStoreEnum::StoredIsize(v)
    }
}

impl Restore for isize {
    open spec fn restored(stored: ValueStoreEnum) -> Option<isize> {
        match stored {
            ValueStoreEnum::StoredIsize(v) => Some(v),
            _ => None,
        }
    }

    fn restore(stored: &ValueStoreEnum) -> (r: Option<isize>) {
        match stored {
            ValueStoreEnum::StoredIsize(v) => Some(*v),
            _ => None,
        }
    }
}

impl From<i64> for ValueStoreEnum {
    fn from(v: i64) -> (r: ValueStoreEnum) {
        ValueStoreEnum::StoredI64(v)
    }
}

impl FromSpecImpl<i64> for ValueStoreEnum {
    open spec fn obeys_from_spec() -> bool {
        true
    }

    open spec fn from_spec(v: i64) -> ValueStoreEnum {
        ValueStoreEnum::StoredI64(v)
    }
}

impl Restore for i64 {
    open spec fn restored(stored: ValueStoreEnum) -> Option<i64> {
        match stored {
            ValueStoreEnum::StoredI64(v) => Some(v),
            _ => None,
        }
    }

    fn restore(stored: &ValueStoreEnum) -> (r: Option<i64>) {
        match stored {
            ValueStoreEnum::StoredI64(v) => Some(*v),
            _ => None,
        }
    }
}

impl From<i32> for ValueStoreEnum {
    fn from(v: i32) -> (r: ValueStoreEnum) {
        ValueStoreEnum::StoredI32(v)
    }
}

impl FromSpecImpl<i32> for ValueStoreEnum {
    open spec fn obeys_from_spec() -> bool {
        true
    }

    open spec fn from_spec(v: i32) -> ValueStoreEnum {
        ValueStoreEnum::StoredI32(v)
    }
}

impl Restore for i32 {
    open spec fn restored(stored: ValueStoreEnum) -> Option<i32> {
        match stored {
            ValueStoreEnum::StoredI32(v) => Some(v),
            _ => None,
        }
    }

    fn restore(stored: &ValueStoreEnum) -> (r: Option<i32>) {
        match stored {
            ValueStoreEnum::StoredI32(v) => Some(*v),
            _ => None,
        }
    }
}

impl From<char> for ValueStoreEnum {
    fn from(v: char) -> (r: ValueStoreEnum) {
        ValueStoreEnum::StoredChar(v)
    }
}

impl FromSpecImpl<char> for ValueStoreEnum {
    open spec fn obeys_from_spec() -> bool {
        true
    }

    open spec fn from_spec(v: char) -> ValueStoreEnum {
        ValueStoreEnum::StoredChar(v)
    }
}

impl Restore for char {
    open spec fn restored(stored: ValueStoreEnum) -> Option<char> {
        match stored {
            ValueStoreEnum::StoredChar(v) => Some(v),
            _ => None,
        }
    }

    fn restore(stored: &ValueStoreEnum) -> (r: Option<char>) {
        match stored {
            ValueStoreEnum::StoredChar(v) => Some(*v),
            _ => None,
        }
    }
}

impl From<Arc<String>> for ValueStoreEnum {
    fn from(v: Arc<String>) -> (r: ValueStoreEnum) {
        ValueStoreEnum::StoredString(v)
    }
}

impl FromSpecImpl<Arc<String>> for ValueStoreEnum {
    open spec fn obeys_from_spec() -> bool {
        true
    }

    open spec fn from_spec(v: Arc<String>) -> ValueStoreEnum {
        ValueStoreEnum::StoredString(v)
    }
}

impl Restore for Arc<String> {
    open spec fn restored(stored: ValueStoreEnum) -> Option<Arc<String>> {
        match stored {
            ValueStoreEnum::StoredString(v) => Some(v),
            _ => None,
        }
    }

    fn restore(stored: &ValueStoreEnum) -> (r: Option<Arc<String>>) {
        match stored {
            ValueStoreEnum::StoredString(v) => Some(share(v)),
            _ => None,
        }
    }
}

/// The current values by id.
pub struct ValueStore {
    values: HashMap<u128, ValueStoreEnum>,
}

impl View for ValueStore {
    type V = Map<u128, ValueStoreEnum>;

    closed spec fn view(&self) -> Map<u128, ValueStoreEnum> {
        self.values@
    }
}

impl ValueStore {
    /// The store without values.
    pub fn new() -> (r: ValueStore)
        ensures
            r@ == Map::<u128, ValueStoreEnum>::empty(),
    {
        ValueStore { values: HashMap::new() }
    }

    /// The value that is stored for `id`.
    pub fn get(&self, id: u128) -> (r: Option<&ValueStoreEnum>)
        ensures
            r == (if self@.contains_key(id) {
                Some(&self@[id])
            } else {
                None
            }),
    {
        self.values.get(&id)
    }
}

/// The current value of the place `id`, whose value in the program text is
/// `val`. A place that the store knows has the stored value; a place that
/// it does not know yet is entered with `val`, and `val` is its value.
///
/// The stored value of a known place must be of the type `T`.
pub fn check_find_live_value<T: Into<ValueStoreEnum> + Restore + Copy>(
    store: &mut ValueStore,
    id: u128,
    val: T,
    _file: &'static str,
    _line: u32,
    _column: u32,
) -> (r: T)
    requires
        old(store)@.contains_key(id) ==> T::restored(old(store)@[id]) is Some,
    ensures
        old(store)@.contains_key(id) ==> T::restored(old(store)@[id]) == Some(r) && final(store)@
            == old(store)@,
        !old(store)@.contains_key(id) ==> r == val && final(store)@.dom() == old(
            store,
        )@.dom().insert(id) && forall|other: u128|
            other != id && old(store)@.contains_key(other) ==> final(store)@[other] == old(
                store,
            )@[other],
        !old(store)@.contains_key(id) && <T as IntoSpec<ValueStoreEnum>>::obeys_into_spec()
            ==> final(store)@ == old(store)@.insert(
            id,
            <T as IntoSpec<ValueStoreEnum>>::into_spec(val),
        ),
{
    match store.values.get(&id) {
        Some(v) => {
            match T::restore(v) {
                Some(r) => r,
                None => vstd::pervasive::unreached(),
            }
        },
        None => {
            store.values.insert(id, val.into());
            val
        },
    }
}

/// `check_find_live_value` for a type that is cloned rather than copied: a
/// place that the store does not know yet is entered with a clone of `val`.
///
/// The stored value of a known place must be of the type `T`.
pub fn check_find_live_value_arc<T: Into<ValueStoreEnum> + Restore + Clone>(
    store: &mut ValueStore,
    id: u128,
    val: T,
    _file: &'static str,
    _line: u32,
    _column: u32,
) -> (r: T)
    requires
        old(store)@.contains_key(id) ==> T::restored(old(store)@[id]) is Some,
    ensures
        old(store)@.contains_key(id) ==> T::restored(old(store)@[id]) == Some(r) && final(store)@
            == old(store)@,
        !old(store)@.contains_key(id) ==> r == val && final(store)@.dom() == old(
            store,
        )@.dom().insert(id) && forall|other: u128|
            other != id && old(store)@.contains_key(other) ==> final(store)@[other] == old(
                store,
            )@[other],
        !old(store)@.contains_key(id) && <T as IntoSpec<ValueStoreEnum>>::obeys_into_spec()
            ==> exists|copy: T| #[trigger]
            cloned(val, copy) && final(store)@ == old(store)@.insert(
                id,
                <T as IntoSpec<ValueStoreEnum>>::into_spec(copy),
            ),
{
    match store.values.get(&id) {
        Some(v) => {
            match T::restore(v) {
                Some(r) => r,
                None => vstd::pervasive::unreached(),
            }
        },
        None => {
            let copy = val.clone();
            proof {
                assert(cloned(val, copy));
            }
            store.values.insert(id, copy.into());
            val
        },
    }
}

} // verus!
