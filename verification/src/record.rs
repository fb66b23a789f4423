//! Records: a gram paired with its frequency count.

use vstd::prelude::*;
use vstd::string::StringSliceAdditionalSpecFns;

use crate::gram::{bytes_eq, Gram};

verus! {

/// Handler of a pair of a gram and its count.
#[derive(Clone, Debug)]
pub struct CountRecord {
    gram: Vec<u8>,
    count: usize,
}

impl View for CountRecord {
    type V = (Seq<u8>, int);

    closed spec fn view(&self) -> (Seq<u8>, int) {
        (self.gram@, self.count as int)
    }
}

impl CountRecord {
    /// Creates a [`CountRecord`] from a gram written as a string.
    pub fn new(gram: String, count: usize) -> (r: Self)
        ensures
            r@ == (vstd::utf8::encode_utf8(gram@), count as int),
    {
        let bytes = vstd::slice::slice_to_vec(gram.as_str().as_bytes());
        Self { gram: bytes, count }
    }

    /// Creates a [`CountRecord`] from the gram's raw bytes.
    pub fn from_bytes(gram: Vec<u8>, count: usize) -> (r: Self)
        ensures
            r@ == (gram@, count as int),
    {
        Self { gram, count }
    }

    /// Gets the [`Gram`].
    pub fn gram<'a>(&'a self) -> (g: Gram<'a>)
        ensures
            g@ == self@.0,
    {
        Gram::new(self.gram.as_slice())
    }

    /// Gets the count.
    pub fn count(&self) -> (c: usize)
        ensures
            c as int == self@.1,
    {
        self.count
    }
}

impl PartialEq for CountRecord {
    fn eq(&self, other: &Self) -> (r: bool) {
        bytes_eq(self.gram.as_slice(), other.gram.as_slice()) && self.count == other.count
    }
}

impl Eq for CountRecord {

}

impl vstd::std_specs::cmp::PartialEqSpecImpl for CountRecord {
    open spec fn obeys_eq_spec() -> bool {
        true
    }

    open spec fn eq_spec(&self, other: &Self) -> bool {
        self@ == other@
    }
}

} // verus!
