//! Commit ids: fixed-width content hashes, owned as plain byte vectors.

use vstd::prelude::*;
use crate::SHA1_SIZE;

verus! {

/// A commit id: a fixed-width content hash, ordered lexicographically.
#[derive(Debug, Clone)]
pub struct Id {
    pub bytes: Vec<u8>,
}

impl View for Id {
    type V = Seq<u8>;

    open spec fn view(&self) -> Seq<u8> {
        self.bytes@
    }
}

impl Id {
    /// An id is exactly one hash wide.
    pub open spec fn wf(self) -> bool {
        self.bytes@.len() == SHA1_SIZE
    }

    /// Wraps `bytes` as an id; `None` unless it is exactly one hash wide.
    pub fn new(bytes: Vec<u8>) -> (r: Option<Id>)
        ensures
            match r {
                Some(id) => id@ == bytes@ && id.wf(),
                None => bytes@.len() != SHA1_SIZE,
            },
    {
        if bytes.len() == SHA1_SIZE {
            Some(Id { bytes })
        } else {
            None
        }
    }

    /// The leading byte, which selects the fan-out bucket.
    pub fn first_byte(&self) -> (r: u8)
        requires
            self.wf(),
        ensures
            r == self@[0],
    {
        self.bytes[0]
    }

    /// The raw hash bytes.
    pub fn as_bytes(&self) -> (r: &Vec<u8>)
        ensures
            r@ == self@,
    {
        &self.bytes
    }
}

} // verus!
