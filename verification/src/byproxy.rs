//! A wrapper that stands an object in for a separate comparison key.
//!
//! `ByProxy` stores an object together with the key that represents it in
//! comparisons, so that containers can deduplicate objects by a derived
//! identity — a route table, for instance, can file patterns under a
//! canonical rendering of their shape — without the object's own type having
//! to define that identity.

use vstd::prelude::*;

verus! {

/// An object paired with the key that stands in for it in comparisons.
#[derive(Debug)]
pub struct ByProxy<T> {
    object: T,
    key: Vec<u8>,
}

impl<T> ByProxy<T> {
    /// The stored object.
    pub closed spec fn obj_spec(&self) -> T {
        self.object
    }

    /// The comparison key.
    pub closed spec fn key_spec(&self) -> Seq<u8> {
        self.key@
    }

    /// Wraps `object` under the comparison key `key`.
    pub fn new(object: T, key: Vec<u8>) -> (r: Self)
        ensures
            r.obj_spec() == object,
            r.key_spec() == key@,
    {
        ByProxy { object, key }
    }

    /// Borrows the stored object.
    pub fn object(&self) -> (r: &T)
        ensures
            r == self.obj_spec(),
    {
        &self.object
    }

    /// Borrows the comparison key.
    pub fn key(&self) -> (r: &Vec<u8>)
        ensures
            r@ == self.key_spec(),
    {
        &self.key
    }

    /// Returns whether the two wrappers compare equal: their keys agree,
    /// whatever the objects hold.
    pub fn same_key(&self, other: &ByProxy<T>) -> (r: bool)
        ensures
            r == (self.key_spec() == other.key_spec()),
    {
        if self.key.len() != other.key.len() {
            return false;
        }
        let mut i: usize = 0;
        while i < self.key.len()
            invariant
                0 <= i <= self.key@.len(),
                self.key@.len() == other.key@.len(),
                forall|k: int| 0 <= k < i ==> self.key@[k] == other.key@[k],
            decreases self.key@.len() - i,
        {
            if self.key[i] != other.key[i] {
                return false;
            }
            i = i + 1;
        }
        proof {
            assert(self.key@ =~= other.key@);
        }
        true
    }
}

} // verus!
