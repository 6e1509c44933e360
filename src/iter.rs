//! A cursor over an array-like object that reads each element through an
//! ordinary property read, so that user code run between two steps may
//! change or replace the array without harm.

use vstd::prelude::*;
use vstd::string::*;
use crate::realm::{get_property_of, KeyModel, PropKey, Realm};
use crate::value::{to_u32, Error, ObjectId, Val, Value};

verus! {

/// The length of `obj` as a cursor reads it once: its `length` property as
/// an unsigned 32-bit integer.
pub open spec fn length_of(objects: Seq<crate::realm::ObjectData>, obj: ObjectId) -> u32 {
    to_u32(get_property_of(objects, obj, KeyModel::Name("length"@)))
}

pub open spec fn min_u32(a: u32, b: u32) -> u32 {
    if a <= b {
        a
    } else {
        b
    }
}

/// A cursor pair over an array-like object: the front moves up from
/// `index`, the back moves down from `rev_index`, and iteration ends where
/// they meet. It holds no reference into the array's storage.
pub struct ArrayIter {
    pub array_object: ObjectId,
    pub index: u32,
    pub rev_index: u32,
}

impl ArrayIter {
    /// A cursor over all of `array_object`.
    pub fn new(realm: &Realm, array_object: ObjectId) -> (r: Result<ArrayIter, Error>)
        ensures
            r is Ok,
            r->Ok_0.array_object == array_object,
            r->Ok_0.index == 0,
            r->Ok_0.rev_index == length_of(realm@, array_object),
    {
        Self::with_bounds(realm, array_object, 0, u32::MAX)
    }

    /// A cursor over `start_index` up to and including `end_index`, both
    /// clamped to the length read now.
    pub fn with_bounds(realm: &Realm, array_object: ObjectId, start_index: u32, end_index: u32) -> (r: Result<
        ArrayIter,
        Error,
    >)
        ensures
            r is Ok,
            r->Ok_0.array_object == array_object,
            r->Ok_0.index == min_u32(start_index, length_of(realm@, array_object)),
            r->Ok_0.rev_index == min_u32(
                if end_index == u32::MAX { u32::MAX } else { (end_index + 1) as u32 },
                length_of(realm@, array_object),
            ),
    {
        let length = realm.get_property(array_object, &PropKey::Name(String::from_str("length"))).coerce_to_u32();
        let end = end_index.saturating_add(1);
        Ok(ArrayIter {
            array_object,
            index: if start_index <= length { start_index } else { length },
            rev_index: if end <= length { end } else { length },
        })
    }

    /// Reads the element at the front cursor and advances it; `None` once the
    /// cursors meet.
    pub fn next(&mut self, realm: &Realm) -> (r: Option<Result<(u32, Value), Error>>)
        ensures
            final(self).array_object == old(self).array_object,
            final(self).rev_index == old(self).rev_index,
            old(self).index < old(self).rev_index ==> {
                &&& final(self).index == old(self).index + 1
                &&& r is Some && r->Some_0 is Ok
                &&& r->Some_0->Ok_0.0 == old(self).index
                &&& r->Some_0->Ok_0.1@ == get_property_of(
                    realm@,
                    old(self).array_object,
                    KeyModel::Index(old(self).index as usize),
                )
            },
            old(self).index >= old(self).rev_index ==> r is None && final(self).index == old(self).index,
    {
        if self.index < self.rev_index {
            let i = self.index;
            self.index = self.index + 1;
            Some(Ok((i, realm.get_property(self.array_object, &PropKey::Index(i as usize)))))
        } else {
            None
        }
    }

    /// Moves the back cursor down and reads the element there; `None` once
    /// the cursors meet.
    pub fn next_back(&mut self, realm: &Realm) -> (r: Option<Result<(u32, Value), Error>>)
        ensures
            final(self).array_object == old(self).array_object,
            final(self).index == old(self).index,
            old(self).index < old(self).rev_index ==> {
                &&& final(self).rev_index == old(self).rev_index - 1
                &&& r is Some && r->Some_0 is Ok
                &&& r->Some_0->Ok_0.0 == final(self).rev_index
                &&& r->Some_0->Ok_0.1@ == get_property_of(
                    realm@,
                    old(self).array_object,
                    KeyModel::Index(final(self).rev_index as usize),
                )
            },
            old(self).index >= old(self).rev_index ==> r is None && final(self).rev_index == old(self).rev_index,
    {
        if self.index < self.rev_index {
            self.rev_index = self.rev_index - 1;
            let i = self.rev_index;
            Some(Ok((i, realm.get_property(self.array_object, &PropKey::Index(i as usize)))))
        } else {
            None
        }
    }
}

} // verus!
