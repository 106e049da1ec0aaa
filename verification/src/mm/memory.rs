//! Physical memory: frames of 512 little-endian 64-bit words, numbered from
//! zero, handed out one after another.
use vstd::prelude::*;
use crate::mm::address::{PhysPageNum, ppn_limit, PAGE_SIZE};

verus! {

/// A frame of zeros.
pub open spec fn zero_frame() -> Seq<u64> {
    Seq::new(512, |i: int| 0u64)
}

/// Byte `k` (0 the lowest) of a little-endian word.
pub open spec fn byte_of(word: u64, k: u64) -> u8 {
    ((word >> (8 * k)) & 0xffu64) as u8
}

/// `word` with byte `k` replaced by `v`.
pub open spec fn with_byte(word: u64, k: u64, v: u8) -> u64 {
    (word & !(0xffu64 << (8 * k))) | ((v as u64) << (8 * k))
}

/// The byte at `offset` in frame `ppn` of the memory contents `m`.
pub open spec fn mem_byte(m: Seq<Seq<u64>>, ppn: int, offset: int) -> u8 {
    byte_of(m[ppn][offset / 8], (offset % 8) as u64)
}

/// `m` with the byte at `offset` in frame `ppn` replaced by `v`.
pub open spec fn mem_with_byte(m: Seq<Seq<u64>>, ppn: int, offset: int, v: u8) -> Seq<Seq<u64>> {
    m.update(ppn, m[ppn].update(offset / 8, with_byte(m[ppn][offset / 8], (offset % 8) as u64, v)))
}

/// `m` with word `idx` of frame `ppn` replaced by `w`.
pub open spec fn mem_with_word(m: Seq<Seq<u64>>, ppn: int, idx: int, w: u64) -> Seq<Seq<u64>> {
    m.update(ppn, m[ppn].update(idx, w))
}

/// Writing a byte and reading it back gives the byte written; the other
/// bytes of the word keep their values.
pub proof fn lemma_byte_write_read(word: u64, k: u64, j: u64, v: u8)
    requires
        k < 8,
        j < 8,
    ensures
        byte_of(with_byte(word, k, v), k) == v,
        j != k ==> byte_of(with_byte(word, k, v), j) == byte_of(word, j),
{
    let vv = v as u64;
    assert(vv < 256);
    assert((((word & !(0xffu64 << (8 * k))) | (vv << (8 * k))) >> (8 * k)) & 0xffu64 == vv) by (bit_vector)
        requires k < 8, vv < 256;
    assert(j != k ==> (((word & !(0xffu64 << (8 * k))) | (vv << (8 * k))) >> (8 * j)) & 0xffu64 == (word >> (8 * j))
        & 0xffu64) by (bit_vector)
        requires k < 8, j < 8, vv < 256;
}

/// Physical memory.
pub struct PhysMemory {
    pub frames: Vec<Vec<u64>>,
}

impl PhysMemory {
    /// The contents, frame by frame.
    pub open spec fn view(&self) -> Seq<Seq<u64>> {
        self.frames@.map_values(|f: Vec<u64>| f@)
    }

    /// Every frame holds 512 words, and frame numbers fit a page table entry.
    pub open spec fn wf(&self) -> bool {
        &&& self.frames@.len() <= ppn_limit()
        &&& forall|i: int| 0 <= i < self.frames@.len() ==> (#[trigger] self.frames@[i])@.len() == 512
    }

    /// Memory with no frames.
    pub fn new() -> (r: Self)
        ensures
            r.wf(),
            r@ == Seq::<Seq<u64>>::empty(),
    {
        let r = PhysMemory { frames: Vec::new() };
        assert(r@ =~= Seq::<Seq<u64>>::empty());
        r
    }

    /// Number of frames.
    pub fn frame_count(&self) -> (r: usize)
        ensures
            r == self@.len(),
    {
        self.frames.len()
    }

    /// Hands out a new frame, filled with zeros.
    pub fn frame_alloc(&mut self) -> (ppn: PhysPageNum)
        requires
            old(self).wf(),
            old(self)@.len() < ppn_limit(),
        ensures
            final(self).wf(),
            final(self)@ == old(self)@.push(zero_frame()),
            ppn.0 == old(self)@.len(),
    {
        let mut f: Vec<u64> = Vec::new();
        let mut i: usize = 0;
        while i < 512
            invariant
                i <= 512,
                f@ == Seq::new(i as nat, |j: int| 0u64),
            decreases 512 - i,
        {
            f.push(0);
            i = i + 1;
            assert(f@ =~= Seq::new(i as nat, |j: int| 0u64));
        }
        let ppn = PhysPageNum(self.frames.len() as u64);
        self.frames.push(f);
        assert(self@ =~= old(self)@.push(zero_frame()));
        ppn
    }

    /// Word `idx` of frame `ppn`.
    pub fn read_word(&self, ppn: u64, idx: usize) -> (w: u64)
        requires
            self.wf(),
            ppn < self@.len(),
            idx < 512,
        ensures
            w == self@[ppn as int][idx as int],
    {
        let n = self.frames.len();
        assert(ppn < n);
        let p = ppn as usize;
        self.frames[p][idx]
    }

    /// Writes word `idx` of frame `ppn`.
    pub fn write_word(&mut self, ppn: u64, idx: usize, w: u64)
        requires
            old(self).wf(),
            ppn < old(self)@.len(),
            idx < 512,
        ensures
            final(self).wf(),
            final(self)@ == mem_with_word(old(self)@, ppn as int, idx as int, w),
    {
        let n = self.frames.len();
        assert(ppn < n);
        let p = ppn as usize;
        self.frames[p].set(idx, w);
        assert(self@ =~= mem_with_word(old(self)@, ppn as int, idx as int, w));
    }

    /// The byte at `offset` in frame `ppn`.
    pub fn read_byte(&self, ppn: u64, offset: u64) -> (b: u8)
        requires
            self.wf(),
            ppn < self@.len(),
            offset < PAGE_SIZE,
        ensures
            b == mem_byte(self@, ppn as int, offset as int),
    {
        let n = self.frames.len();
        assert(ppn < n);
        let p = ppn as usize;
        let w = self.frames[p][(offset / 8) as usize];
        let k = offset % 8;
        let b = (w >> (8 * k)) & 0xff;
        assert(b < 256) by (bit_vector)
            requires b == (w >> (8 * k)) & 0xff;
        b as u8
    }

    /// Writes the byte at `offset` in frame `ppn`.
    pub fn write_byte(&mut self, ppn: u64, offset: u64, v: u8)
        requires
            old(self).wf(),
            ppn < old(self)@.len(),
            offset < PAGE_SIZE,
        ensures
            final(self).wf(),
            final(self)@ == mem_with_byte(old(self)@, ppn as int, offset as int, v),
    {
        let idx = (offset / 8) as usize;
        let k = offset % 8;
        let n = self.frames.len();
        assert(ppn < n);
        let p = ppn as usize;
        let w = self.frames[p][idx];
        let nw = (w & !(0xffu64 << (8 * k))) | ((v as u64) << (8 * k));
        self.frames[p].set(idx, nw);
        assert(self@ =~= mem_with_byte(old(self)@, ppn as int, offset as int, v));
    }
}

} // verus!
