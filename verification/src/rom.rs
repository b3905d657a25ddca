//! Read-only view over a ROM byte buffer: a fixed 192-byte header followed by
//! a payload that runs up to the length rounded down to a 16-byte boundary.

use vstd::prelude::*;
use vstd::slice::slice_subrange;

verus! {

/// Byte length rounded down to a multiple of 16.
pub open spec fn aligned_spec(len: u32) -> u32 {
    len & 0xfffffff0u32
}

/// Read-only view over a caller-supplied ROM buffer. A valid transfer needs at
/// least the 192 header bytes; shorter buffers must be rejected before an
/// engine is built around this view.
pub struct Rom<'a> {
    bytes: &'a [u8],
}

impl<'a> View for Rom<'a> {
    type V = Seq<u8>;

    closed spec fn view(&self) -> Seq<u8> {
        self.bytes@
    }
}

impl<'a> Rom<'a> {
    pub fn new(bytes: &'a [u8]) -> (r: Self)
        ensures
            r@ == bytes@,
    {
        Rom { bytes }
    }

    /// The byte length rounded down to a 16-byte boundary: always a multiple
    /// of 16, never more than the buffer length, and still past the header
    /// whenever the buffer holds one.
    pub fn aligned_game_len(&self) -> (r: u32)
        requires
            self@.len() <= u32::MAX,
        ensures
            r == aligned_spec(self@.len() as u32),
            r % 16 == 0,
            r % 4 == 0,
            r <= self@.len(),
            self@.len() >= 0xc0 ==> r >= 0xc0,
    {
        let len32 = self.bytes.len() as u32;
        proof {
            assert((len32 & 0xfffffff0u32) % 16 == 0 && (len32 & 0xfffffff0u32) % 4 == 0
                && (len32 & 0xfffffff0u32) <= len32 && (len32 >= 0xc0 ==> (len32 & 0xfffffff0u32)
                >= 0xc0)) by (bit_vector);
        }
        len32 & 0xfffffff0
    }

    /// The fixed 192-byte header.
    pub fn header(&self) -> (r: &[u8])
        requires
            self@.len() >= 0xc0,
        ensures
            r@ == self@.subrange(0, 0xc0),
            r@.len() == 0xc0,
    {
        slice_subrange(self.bytes, 0, 0xc0)
    }

    /// The payload: bytes from offset 192 up to the aligned length. Its length
    /// is exactly the aligned length minus the header, a multiple of 4, as the
    /// word-wise transfer loop requires.
    pub fn game(&self) -> (r: &[u8])
        requires
            0xc0 <= self@.len() <= u32::MAX,
        ensures
            r@ == self@.subrange(0xc0, aligned_spec(self@.len() as u32) as int),
            r@.len() == aligned_spec(self@.len() as u32) - 0xc0,
            r@.len() % 4 == 0,
    {
        let aligned_len = self.aligned_game_len() as usize;
        slice_subrange(self.bytes, 0xc0, aligned_len)
    }
}

} // verus!
