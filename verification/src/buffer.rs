//! The arena: one allocation, split once into four regions that never overlap.

use crate::frame::{MAX_NOISE_PKG_LEN, MAX_WRITE_BUF_LEN};
use vstd::prelude::*;
use vstd::slice::slice_subrange;

verus! {

/// Size of the whole arena.
pub const TOTAL_BUFFER_LEN: usize = 2 * MAX_NOISE_PKG_LEN + 3 * MAX_WRITE_BUF_LEN;

/// A single `Buffer` holds four byte regions side by side.
pub struct Buffer {
    inner: Vec<u8>,
}

/// A mutable borrow of all four regions at once.
pub struct BufferBorrow<'a> {
    /// Staging for one inbound frame of ciphertext.
    pub read_cipher: &'a mut [u8],
    /// The plaintext of that frame.
    pub read_plain: &'a mut [u8],
    /// The accumulator for outbound plaintext.
    pub write_plain: &'a mut [u8],
    /// Staging for one outbound frame of ciphertext.
    pub write_cipher: &'a mut [u8],
}

impl Buffer {
    /// The arena has its full size.
    pub closed spec fn wf(&self) -> bool {
        self.inner@.len() == TOTAL_BUFFER_LEN
    }

    /// The region that stages inbound ciphertext.
    pub closed spec fn read_cipher(&self) -> Seq<u8> {
        self.inner@.subrange(0, MAX_NOISE_PKG_LEN as int)
    }

    /// The region that holds inbound plaintext.
    pub closed spec fn read_plain(&self) -> Seq<u8> {
        self.inner@.subrange(MAX_NOISE_PKG_LEN as int, 2 * MAX_NOISE_PKG_LEN)
    }

    /// The region that accumulates outbound plaintext.
    pub closed spec fn write_plain(&self) -> Seq<u8> {
        self.inner@.subrange(2 * MAX_NOISE_PKG_LEN, 2 * MAX_NOISE_PKG_LEN + MAX_WRITE_BUF_LEN)
    }

    /// The region that stages outbound ciphertext.
    pub closed spec fn write_cipher(&self) -> Seq<u8> {
        self.inner@.subrange(2 * MAX_NOISE_PKG_LEN + MAX_WRITE_BUF_LEN, TOTAL_BUFFER_LEN as int)
    }

    /// The four regions have their sizes, which add up to the arena.
    pub proof fn lemma_region_sizes(&self)
        requires
            self.wf(),
        ensures
            self.read_cipher().len() == MAX_NOISE_PKG_LEN,
            self.read_plain().len() == MAX_NOISE_PKG_LEN,
            self.write_plain().len() == MAX_WRITE_BUF_LEN,
            self.write_cipher().len() == 2 * MAX_WRITE_BUF_LEN,
    {
    }

    /// Every byte of the region is zero.
    pub open spec fn zeroed(region: Seq<u8>) -> bool {
        forall|i: int| 0 <= i < region.len() ==> region[i] == 0
    }

    /// A zeroed arena.
    pub fn new() -> (b: Buffer)
        ensures
            b.wf(),
            Self::zeroed(b.read_cipher()),
            Self::zeroed(b.read_plain()),
            Self::zeroed(b.write_plain()),
            Self::zeroed(b.write_cipher()),
    {
        Buffer { inner: vec![0u8; TOTAL_BUFFER_LEN] }
    }

    /// Part of the region that holds inbound plaintext.
    pub fn read_plain_window(&self, from: usize, to: usize) -> (w: &[u8])
        requires
            self.wf(),
            from <= to <= MAX_NOISE_PKG_LEN,
        ensures
            w@ == self.read_plain().subrange(from as int, to as int),
    {
        let w = slice_subrange(self.inner.as_slice(), MAX_NOISE_PKG_LEN + from, MAX_NOISE_PKG_LEN + to);
        assert(w@ =~= self.read_plain().subrange(from as int, to as int));
        w
    }

    /// Part of the region that stages outbound ciphertext.
    pub fn write_cipher_window(&self, from: usize, to: usize) -> (w: &[u8])
        requires
            self.wf(),
            from <= to <= 2 * MAX_WRITE_BUF_LEN,
        ensures
            w@ == self.write_cipher().subrange(from as int, to as int),
    {
        let base: usize = 2 * MAX_NOISE_PKG_LEN + MAX_WRITE_BUF_LEN;
        let w = slice_subrange(self.inner.as_slice(), base + from, base + to);
        assert(w@ =~= self.write_cipher().subrange(from as int, to as int));
        w
    }

    /// Splits the arena into its four regions. What is written through the
    /// borrow of one region ends up in that region and in no other, as long
    /// as every region keeps its size, which a slice does.
    pub fn borrow_mut(&mut self) -> (b: BufferBorrow<'_>)
        requires
            old(self).wf(),
        ensures
            b.read_cipher@ == old(self).read_cipher(),
            b.read_plain@ == old(self).read_plain(),
            b.write_plain@ == old(self).write_plain(),
            b.write_cipher@ == old(self).write_cipher(),
            ({
                &&& final(b.read_cipher)@.len() == MAX_NOISE_PKG_LEN
                &&& final(b.read_plain)@.len() == MAX_NOISE_PKG_LEN
                &&& final(b.write_plain)@.len() == MAX_WRITE_BUF_LEN
                &&& final(b.write_cipher)@.len() == 2 * MAX_WRITE_BUF_LEN
            }) ==> {
                &&& final(self).wf()
                &&& final(self).read_cipher() == final(b.read_cipher)@
                &&& final(self).read_plain() == final(b.read_plain)@
                &&& final(self).write_plain() == final(b.write_plain)@
                &&& final(self).write_cipher() == final(b.write_cipher)@
            },
    {
        let (r, w) = self.inner.as_mut_slice().split_at_mut(2 * MAX_NOISE_PKG_LEN);
        let (read_cipher, read_plain) = r.split_at_mut(MAX_NOISE_PKG_LEN);
        let (write_plain, write_cipher) = w.split_at_mut(MAX_WRITE_BUF_LEN);
        BufferBorrow { read_cipher, read_plain, write_plain, write_cipher }
    }
}

} // verus!
