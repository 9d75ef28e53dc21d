//! A ring of 128 bytes between one reader and one writer.

use vstd::prelude::*;

verus! {

/// The number of bytes that the ring holds.
pub const CAPACITY: usize = 128;

/// A ring of bytes. The writer fills the free stretch that `buff` hands out
/// and tells by `advance` how much it wrote; the reader takes the bytes one
/// by one.
pub struct RingBuff {
    mem: [u8; 128],
    r: usize,
    w: usize,
}

/// The place in the ring of the byte with number `n`.
pub open spec fn slot(n: int) -> int {
    n % 128
}

/// Indexes an array by a range through `IndexMut`: the mutable slice of
/// the places `lo..hi`. What is written through the slice is written to
/// those places of the array; the other places and the length of the slice
/// stay as they are. The standard library panics where the range does not
/// lie in the array, which `requires` excludes.
#[verifier::external_body]
fn stretch_mut(mem: &mut [u8; 128], lo: usize, hi: usize) -> (part: &mut [u8])
    requires
        lo <= hi <= 128,
    ensures
        part@ == old(mem)@.subrange(lo as int, hi as int),
        final(part)@.len() == part@.len(),
        final(mem)@ == old(mem)@.subrange(0, lo as int) + final(part)@ + old(mem)@.subrange(
            hi as int,
            128,
        ),
{
    &mut mem[lo..hi]
}

impl RingBuff {
    /// The bytes in the ring, by their place.
    pub closed spec fn mem_spec(&self) -> Seq<u8> {
        self.mem@
    }

    /// The number of bytes taken so far.
    pub closed spec fn taken(&self) -> int {
        self.r as int
    }

    /// The number of bytes written so far.
    pub closed spec fn written(&self) -> int {
        self.w as int
    }

    /// The reader is not ahead of the writer.
    pub open spec fn wf(&self) -> bool {
        &&& self.mem_spec().len() == 128
        &&& 0 <= self.taken() <= self.written()
    }

    /// The stretch of places that the writer may fill next: from the place
    /// of the writer to the place of the reader, or to the end of the ring
    /// where the reader's place does not come later.
    pub open spec fn free_stretch(&self) -> (int, int) {
        let r = slot(self.taken());
        let w = slot(self.written());
        if r <= w {
            (w, 128int)
        } else {
            (w, r)
        }
    }

    /// A ring that holds nothing: nothing is written, nothing is taken, and
    /// every place holds a zero.
    pub fn empty() -> (ring: RingBuff)
        ensures
            ring.wf(),
            ring.taken() == 0,
            ring.written() == 0,
            ring.mem_spec() == Seq::new(128, |i: int| 0u8),
    {
        let ring = RingBuff { mem: [0; 128], r: 0, w: 0 };
        assert(ring.mem_spec() =~= Seq::new(128, |i: int| 0u8));
        ring
    }

    /// The next byte, if the writer is ahead.
    pub fn next(&mut self) -> (byte: Option<u8>)
        requires
            old(self).wf(),
        ensures
            final(self).wf(),
            final(self).mem_spec() == old(self).mem_spec(),
            final(self).written() == old(self).written(),
            match byte {
                Some(b) => old(self).taken() < old(self).written() && b == old(
                    self,
                ).mem_spec()[slot(old(self).taken())] && final(self).taken() == old(self).taken()
                    + 1,
                None => old(self).taken() == old(self).written() && final(self).taken() == old(
                    self,
                ).taken(),
            },
    {
        if self.r == self.w {
            None
        } else {
            let r = self.r;
            assert(r & 127 == r % 128) by (bit_vector);
            let byte = self.mem[self.r & 127];
            self.r = self.r + 1;
            Some(byte)
        }
    }

    /// The ends of the stretch of the ring that the writer may fill next.
    pub fn free_range(&self) -> (range: (usize, usize))
        requires
            self.wf(),
        ensures
            (range.0 as int, range.1 as int) == self.free_stretch(),
            range.0 <= range.1 <= 128,
    {
        let r0 = self.r;
        let w0 = self.w;
        assert(r0 & 127 == r0 % 128) by (bit_vector);
        assert(w0 & 127 == w0 % 128) by (bit_vector);
        let r = self.r & 127;
        let w = self.w & 127;
        if r <= w {
            (w, 128)
        } else {
            (w, r)
        }
    }

    /// The stretch of the ring that the writer may fill next.
    pub fn buff(&mut self) -> (free: &mut [u8])
        requires
            old(self).wf(),
        ensures
            free@ == old(self).mem_spec().subrange(
                old(self).free_stretch().0,
                old(self).free_stretch().1,
            ),
            final(self).wf(),
            final(self).taken() == old(self).taken(),
            final(self).written() == old(self).written(),
            final(self).mem_spec() == old(self).mem_spec().subrange(
                0,
                old(self).free_stretch().0,
            ) + final(free)@ + old(self).mem_spec().subrange(old(self).free_stretch().1, 128),
    {
        let (lo, hi) = self.free_range();
        stretch_mut(&mut self.mem, lo, hi)
    }

    /// Writes `byte` at place `at` of the ring.
    pub fn fill(&mut self, at: usize, byte: u8)
        requires
            old(self).wf(),
            at < 128,
        ensures
            final(self).wf(),
            final(self).mem_spec() == old(self).mem_spec().update(at as int, byte),
            final(self).taken() == old(self).taken(),
            final(self).written() == old(self).written(),
    {
        self.mem[at] = byte;
    }

    /// Tells that the writer wrote `delta` bytes.
    pub fn advance(&mut self, delta: usize)
        requires
            old(self).wf(),
            old(self).written() + delta <= usize::MAX,
        ensures
            final(self).wf(),
            final(self).mem_spec() == old(self).mem_spec(),
            final(self).taken() == old(self).taken(),
            final(self).written() == old(self).written() + delta,
    {
        self.w = self.w + delta;
    }
}

} // verus!
