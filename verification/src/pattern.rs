//! A compiled control program, as the bytes that the datapath interprets.

use crate::error::Error;
use vstd::prelude::*;

verus! {

/// A control program in its serialized form. The codec carries it as the
/// payload of a pattern message and does not look inside.
#[derive(Debug, PartialEq)]
pub struct Pattern {
    pub bytes: Vec<u8>,
}

impl View for Pattern {
    type V = Seq<u8>;

    open spec fn view(&self) -> Seq<u8> {
        self.bytes@
    }
}

impl Clone for Pattern {
    fn clone(&self) -> (r: Self)
        ensures
            r@ == self@,
    {
        let mut bytes: Vec<u8> = Vec::new();
        bytes.extend_from_slice(self.bytes.as_slice());
        Pattern { bytes }
    }
}

impl Pattern {
    /// How many bytes `serialize` writes.
    pub fn len_bytes(&self) -> (n: usize)
        ensures
            n == self@.len(),
    {
        self.bytes.len()
    }

    /// Appends the program to `w`: exactly `len_bytes()` bytes.
    pub fn serialize(&self, w: &mut Vec<u8>) -> (r: Result<(), Error>)
        ensures
            r is Ok,
            final(w)@ == old(w)@ + self@,
    {
        w.extend_from_slice(self.bytes.as_slice());
        Ok(())
    }

    /// Reads a program back: the inverse of `serialize`.
    pub fn deserialize(buf: &[u8]) -> (r: Result<Pattern, Error>)
        ensures
            r matches Ok(p) && p@ == buf@,
    {
        let mut bytes: Vec<u8> = Vec::new();
        bytes.extend_from_slice(buf);
        Ok(Pattern { bytes })
    }
}

} // verus!
