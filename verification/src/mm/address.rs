//! Sv39 addresses and page numbers.
use vstd::prelude::*;

verus! {

/// Bytes in a page.
pub const PAGE_SIZE: u64 = 4096;

/// The largest physical page number plus one.
pub open spec fn ppn_limit() -> int {
    0x1000_0000_0000
}

/// The largest virtual page number plus one.
pub open spec fn vpn_limit() -> int {
    0x800_0000
}

/// The index into the page-table frame of `level` (2 is the root) that a
/// virtual page number selects.
pub open spec fn vpn_index(vpn: u64, level: int) -> int {
    if level == 2 {
        ((vpn >> 18u64) & 511u64) as int
    } else if level == 1 {
        ((vpn >> 9u64) & 511u64) as int
    } else {
        (vpn & 511u64) as int
    }
}

/// physical page number
#[derive(Copy, Clone, Debug, PartialEq, Eq, Structural)]
pub struct PhysPageNum(pub u64);

/// virtual page number
#[derive(Copy, Clone, Debug, PartialEq, Eq, Structural)]
pub struct VirtPageNum(pub u64);

/// virtual address
#[derive(Copy, Clone, Debug, PartialEq, Eq, Structural)]
pub struct VirtAddr(pub u64);

impl PhysPageNum {
    /// The page number made of the low 44 bits of `v`.
    pub fn from_raw(v: u64) -> (r: Self)
        ensures
            r.0 == v & 0xfff_ffff_ffff,
            r.0 < ppn_limit(),
    {
        let r = PhysPageNum(v & 0xfff_ffff_ffff);
        assert(v & 0xfff_ffff_ffff < 0x1000_0000_0000) by (bit_vector);
        r
    }
}

impl VirtPageNum {
    /// The indexes into the page-table frames of the three levels, root
    /// first.
    pub fn indexes(&self) -> (idx: [usize; 3])
        ensures
            idx@[0] == vpn_index(self.0, 2),
            idx@[1] == vpn_index(self.0, 1),
            idx@[2] == vpn_index(self.0, 0),
            idx@[0] < 512 && idx@[1] < 512 && idx@[2] < 512,
    {
        let mut vpn = self.0;
        let mut idx: [usize; 3] = [0usize; 3];
        let mut i: usize = 3;
        let ghost v0 = self.0;
        while i > 0
            invariant
                i <= 3,
                v0 == self.0,
                i == 3 ==> vpn == v0,
                i == 2 ==> vpn == v0 >> 9u64,
                i == 1 ==> vpn == v0 >> 18u64,
                forall|k: int| i <= k < 3 ==> idx@[k] == vpn_index(v0, 2 - k) && idx@[k] < 512,
            decreases i,
        {
            i = i - 1;
            let low = vpn & 511;
            assert(low < 512) by (bit_vector)
                requires low == vpn & 511;
            idx[i] = low as usize;
            proof {
                if i == 1 {
                    assert((v0 >> 9u64) >> 9u64 == v0 >> 18u64) by (bit_vector);
                }
            }
            vpn = vpn >> 9;
        }
        idx
    }

    /// Step to the next page number.
    pub fn step(&mut self)
        requires
            old(self).0 < u64::MAX,
        ensures
            final(self).0 == old(self).0 + 1,
    {
        self.0 = self.0 + 1;
    }
}

impl VirtAddr {
    /// The address made of the low 39 bits of `v`.
    pub fn from_raw(v: u64) -> (r: Self)
        ensures
            r.0 == v & 0x7f_ffff_ffff,
            r.0 < 0x80_0000_0000,
    {
        assert(v & 0x7f_ffff_ffff < 0x80_0000_0000) by (bit_vector);
        VirtAddr(v & 0x7f_ffff_ffff)
    }

    /// The first address of the page `vpn`.
    pub fn from_vpn(vpn: VirtPageNum) -> (r: Self)
        requires
            vpn.0 < 0x10_0000_0000_0000,
        ensures
            r.0 == vpn.0 * PAGE_SIZE,
    {
        let v = vpn.0;
        assert(v << 12u64 == v * 4096) by (bit_vector)
            requires v < 0x10_0000_0000_0000;
        VirtAddr(v << 12)
    }

    /// The page the address lies in.
    pub fn floor(&self) -> (r: VirtPageNum)
        ensures
            r.0 == self.0 / PAGE_SIZE,
    {
        VirtPageNum(self.0 / PAGE_SIZE)
    }

    /// The offset of the address within its page.
    pub fn page_offset(&self) -> (r: u64)
        ensures
            r == self.0 % PAGE_SIZE,
            r < PAGE_SIZE,
    {
        let v = self.0;
        assert(v & 4095u64 == v % 4096) by (bit_vector);
        v & (PAGE_SIZE - 1)
    }
}

} // verus!
