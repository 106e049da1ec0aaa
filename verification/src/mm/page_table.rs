//! Implementation of [`PageTableEntry`] and [`PageTable`]: Sv39 three-level
//! page tables kept in physical memory.
use vstd::prelude::*;
use crate::mm::address::{PhysPageNum, VirtPageNum, VirtAddr, ppn_limit, vpn_limit, vpn_index};
use crate::mm::memory::{PhysMemory, zero_frame, mem_with_word, mem_byte, mem_with_byte, lemma_byte_write_read};

verus! {

/// page table entry flags; the associated constants are the bit of each flag
#[derive(Copy, Clone, Debug, PartialEq, Eq, Structural)]
pub struct PTEFlags {
    pub bits: u8,
}

impl PTEFlags {
    /// Valid
    pub const V: u8 = 1;
    /// Readable
    pub const R: u8 = 2;
    /// Writable
    pub const W: u8 = 4;
    /// eXecutable
    pub const X: u8 = 8;
    /// User
    pub const U: u8 = 16;
    /// Global
    pub const G: u8 = 32;
    /// Accessed
    pub const A: u8 = 64;
    /// Dirty
    pub const D: u8 = 128;

    /// No flag set.
    pub fn empty() -> (r: Self)
        ensures
            r.bits == 0,
    {
        PTEFlags { bits: 0 }
    }

    /// The flags as bits.
    pub fn bits(&self) -> (r: u8)
        ensures
            r == self.bits,
    {
        self.bits
    }

    /// The flags of the given bits; every bit of a `u8` names a flag.
    pub fn from_bits(bits: u8) -> (r: Option<Self>)
        ensures
            r == Some(PTEFlags { bits }),
    {
        Some(PTEFlags { bits })
    }

    /// The flags set in either.
    pub fn union(&self, other: PTEFlags) -> (r: Self)
        ensures
            r.bits == self.bits | other.bits,
    {
        PTEFlags { bits: self.bits | other.bits }
    }

    /// The flags set in both.
    pub fn intersection(&self, other: PTEFlags) -> (r: Self)
        ensures
            r.bits == self.bits & other.bits,
    {
        PTEFlags { bits: self.bits & other.bits }
    }

    /// Every flag of `other` is set.
    pub fn contains(&self, other: PTEFlags) -> (r: bool)
        ensures
            r == (self.bits & other.bits == other.bits),
    {
        self.bits & other.bits == other.bits
    }
}

/// The entry bits that map `ppn` with `flags`.
pub open spec fn pte_encode(ppn: u64, flags: u8) -> u64 {
    (ppn << 10u64) | (flags as u64)
}

/// The page number an entry points at.
pub open spec fn pte_ppn(bits: u64) -> u64 {
    (bits >> 10u64) & 0xfff_ffff_ffffu64
}

/// The flag bits of an entry.
pub open spec fn pte_flags(bits: u64) -> u8 {
    (bits & 0xffu64) as u8
}

/// The entry has flag `bit` (one of the eight flag bits) set.
pub open spec fn pte_has(bits: u64, bit: u64) -> bool {
    bits & bit != 0
}

pub open spec fn pte_valid(bits: u64) -> bool {
    pte_has(bits, 1)
}

/// An entry made of a page number below 2^44 and flags gives them back.
pub proof fn lemma_pte_encode(ppn: u64, flags: u8)
    requires
        ppn < ppn_limit(),
    ensures
        pte_ppn(pte_encode(ppn, flags)) == ppn,
        pte_flags(pte_encode(ppn, flags)) == flags,
        pte_valid(pte_encode(ppn, flags)) == (flags & 1 != 0),
{
    let f = flags as u64;
    assert(f < 256);
    assert((((ppn << 10u64) | f) >> 10u64) & 0xfff_ffff_ffffu64 == ppn) by (bit_vector)
        requires ppn < 0x1000_0000_0000, f < 256;
    assert(((ppn << 10u64) | f) & 0xffu64 == f) by (bit_vector)
        requires f < 256;
    assert((((ppn << 10u64) | f) & 1u64 != 0) == (f & 1 != 0)) by (bit_vector)
        requires f < 256;
    assert(((f & 1) != 0) == ((flags & 1) != 0)) by (bit_vector)
        requires f == flags as u64;
}

/// The entry of zeros is not valid.
pub proof fn lemma_zero_pte()
    ensures
        !pte_valid(0u64),
        pte_flags(0u64) == 0,
{
    assert(0u64 & 1u64 == 0) by (bit_vector);
    assert(0u64 & 0xffu64 == 0) by (bit_vector);
}

/// page table entry structure
#[derive(Copy, Clone, Debug, PartialEq, Eq, Structural)]
pub struct PageTableEntry {
    /// bits of page table entry
    pub bits: u64,
}

impl PageTableEntry {
    /// Create a new page table entry
    pub fn new(ppn: PhysPageNum, flags: PTEFlags) -> (r: Self)
        ensures
            r.bits == pte_encode(ppn.0, flags.bits),
    {
        PageTableEntry { bits: ppn.0 << 10 | flags.bits as u64 }
    }

    /// Create an empty page table entry
    pub fn empty() -> (r: Self)
        ensures
            r.bits == 0,
    {
        PageTableEntry { bits: 0 }
    }

    /// Get the physical page number from the page table entry
    pub fn ppn(&self) -> (r: PhysPageNum)
        ensures
            r.0 == pte_ppn(self.bits),
            r.0 < ppn_limit(),
    {
        let b = self.bits;
        assert((b >> 10u64) & 0xfff_ffff_ffffu64 < 0x1000_0000_0000) by (bit_vector);
        PhysPageNum((self.bits >> 10) & 0xfff_ffff_ffff)
    }

    /// Get the flags from the page table entry
    pub fn flags(&self) -> (r: PTEFlags)
        ensures
            r.bits == pte_flags(self.bits),
    {
        let w = self.bits;
        let b = w & 0xff;
        assert(b < 256) by (bit_vector)
            requires b == w & 0xff;
        PTEFlags::from_bits(b as u8).unwrap()
    }

    /// Whether flag `f` (a single bit) is set.
    fn has(&self, fb: u8) -> (r: bool)
        requires
            fb == 1 || fb == 2 || fb == 4 || fb == 8 || fb == 16,
        ensures
            r == pte_has(self.bits, fb as u64),
    {
        let fl = self.flags();
        let b = self.bits;
        let r = fl.intersection(PTEFlags { bits: fb }).bits != PTEFlags::empty().bits;
        assert(((((b & 0xffu64) as u8) & fb) != 0) == (b & (fb as u64) != 0)) by (bit_vector)
            requires fb == 1 || fb == 2 || fb == 4 || fb == 8 || fb == 16;
        r
    }

    /// The page pointered by page table entry is valid?
    pub fn is_valid(&self) -> (r: bool)
        ensures
            r == pte_valid(self.bits),
    {
        self.has(PTEFlags::V)
    }

    /// The page pointered by page table entry is readable?
    pub fn readable(&self) -> (r: bool)
        ensures
            r == pte_has(self.bits, 2),
    {
        self.has(PTEFlags::R)
    }

    /// The page pointered by page table entry is writable?
    pub fn writable(&self) -> (r: bool)
        ensures
            r == pte_has(self.bits, 4),
    {
        self.has(PTEFlags::W)
    }

    /// The page pointered by page table entry is executable?
    pub fn executable(&self) -> (r: bool)
        ensures
            r == pte_has(self.bits, 8),
    {
        self.has(PTEFlags::X)
    }

    /// The page pointered by page table entry is user accessible?
    pub fn user(&self) -> (r: bool)
        ensures
            r == pte_has(self.bits, 16),
    {
        self.has(PTEFlags::U)
    }
}


/// Entry `i` of frame `t`.
pub open spec fn entry(m: Seq<Seq<u64>>, t: int, i: int) -> u64 {
    m[t][i]
}

/// Entry `i` of the root is valid.
pub open spec fn path_valid1(m: Seq<Seq<u64>>, root: int, i: int) -> bool {
    pte_valid(entry(m, root, i))
}

/// The second-level table that entry `i` of the root points at.
pub open spec fn level1_table(m: Seq<Seq<u64>>, root: int, i: int) -> int {
    pte_ppn(entry(m, root, i)) as int
}

/// Entry `i` of the root and entry `j` of the table it points at are valid.
pub open spec fn path_valid0(m: Seq<Seq<u64>>, root: int, i: int, j: int) -> bool {
    path_valid1(m, root, i) && pte_valid(entry(m, level1_table(m, root, i), j))
}

/// The last-level table reached through entry `i` of the root and entry `j`
/// of the second-level table.
pub open spec fn level0_table(m: Seq<Seq<u64>>, root: int, i: int, j: int) -> int {
    pte_ppn(entry(m, level1_table(m, root, i), j)) as int
}

/// Where the entry for `vpn` lies (frame, index), when the two upper levels
/// lead there.
pub open spec fn leaf_slot(m: Seq<Seq<u64>>, root: int, vpn: u64) -> Option<(int, int)> {
    let i = vpn_index(vpn, 2);
    let j = vpn_index(vpn, 1);
    if path_valid0(m, root, i, j) {
        Some((level0_table(m, root, i, j), vpn_index(vpn, 0)))
    } else {
        None
    }
}

/// The entry the table rooted at `root` holds for `vpn`, if any.
pub open spec fn translation(m: Seq<Seq<u64>>, root: int, vpn: u64) -> Option<u64> {
    match leaf_slot(m, root, vpn) {
        Some(slot) => Some(entry(m, slot.0, slot.1)),
        None => None,
    }
}

/// Every frame the walk for `vpn` reads lies in memory.
pub open spec fn walk_in_bounds(m: Seq<Seq<u64>>, root: int, vpn: u64) -> bool {
    let i = vpn_index(vpn, 2);
    let j = vpn_index(vpn, 1);
    &&& 0 <= root < m.len()
    &&& path_valid1(m, root, i) ==> 0 <= level1_table(m, root, i) < m.len()
    &&& path_valid0(m, root, i, j) ==> 0 <= level0_table(m, root, i, j) < m.len()
}

/// The tables reached from `root` lie in memory and form a tree: the root,
/// the second-level tables and the last-level tables are all distinct
/// frames, and no table is reached twice.
pub open spec fn tree_shaped(m: Seq<Seq<u64>>, root: int) -> bool {
    &&& 0 <= root < m.len()
    &&& forall|i: int|
        0 <= i < 512 && path_valid1(m, root, i) ==> {
            let c = #[trigger] level1_table(m, root, i);
            0 <= c < m.len() && c != root
        }
    &&& forall|i: int, k: int|
        0 <= i < 512 && 0 <= k < 512 && i != k && path_valid1(m, root, i) && path_valid1(m, root, k)
            ==> #[trigger] level1_table(m, root, i) != #[trigger] level1_table(m, root, k)
    &&& forall|i: int, j: int|
        0 <= i < 512 && 0 <= j < 512 && path_valid0(m, root, i, j) ==> {
            let c = #[trigger] level0_table(m, root, i, j);
            0 <= c < m.len() && c != root
        }
    &&& forall|i: int, j: int, k: int|
        0 <= i < 512 && 0 <= j < 512 && 0 <= k < 512 && path_valid0(m, root, i, j) && path_valid1(m, root, k)
            ==> #[trigger] level0_table(m, root, i, j) != #[trigger] level1_table(m, root, k)
    &&& forall|i: int, j: int, k: int, l: int|
        0 <= i < 512 && 0 <= j < 512 && 0 <= k < 512 && 0 <= l < 512 && (i != k || j != l)
            && path_valid0(m, root, i, j) && path_valid0(m, root, k, l)
            ==> #[trigger] level0_table(m, root, i, j) != #[trigger] level0_table(m, root, k, l)
}

/// Every frame holds 512 entries.
pub open spec fn frames_full(m: Seq<Seq<u64>>) -> bool {
    forall|t: int| 0 <= t < m.len() ==> (#[trigger] m[t]).len() == 512
}

pub proof fn lemma_vpn_index_bound(vpn: u64)
    ensures
        0 <= vpn_index(vpn, 2) < 512,
        0 <= vpn_index(vpn, 1) < 512,
        0 <= vpn_index(vpn, 0) < 512,
{
    assert((vpn >> 18u64) & 511u64 < 512) by (bit_vector);
    assert((vpn >> 9u64) & 511u64 < 512) by (bit_vector);
    assert(vpn & 511u64 < 512) by (bit_vector);
}

/// Two page numbers below 2^27 with the same three indexes are equal.
pub proof fn lemma_vpn_index_injective(a: u64, b: u64)
    requires
        a < vpn_limit(),
        b < vpn_limit(),
        vpn_index(a, 2) == vpn_index(b, 2),
        vpn_index(a, 1) == vpn_index(b, 1),
        vpn_index(a, 0) == vpn_index(b, 0),
    ensures
        a == b,
{
    assert(a == b) by (bit_vector)
        requires
            a < 0x800_0000,
            b < 0x800_0000,
            (a >> 18u64) & 511u64 == (b >> 18u64) & 511u64,
            (a >> 9u64) & 511u64 == (b >> 9u64) & 511u64,
            a & 511u64 == b & 511u64;
}

/// A tree-shaped table keeps every walk within memory.
pub proof fn lemma_tree_walk_in_bounds(m: Seq<Seq<u64>>, root: int, vpn: u64)
    requires
        tree_shaped(m, root),
    ensures
        walk_in_bounds(m, root, vpn),
{
    lemma_vpn_index_bound(vpn);
    let i = vpn_index(vpn, 2);
    let j = vpn_index(vpn, 1);
    if path_valid1(m, root, i) {
        assert(0 <= level1_table(m, root, i) < m.len());
    }
    if path_valid0(m, root, i, j) {
        assert(0 <= level0_table(m, root, i, j) < m.len());
    }
}

/// `a` and `b` select the same entry at every level.
pub open spec fn same_slot(a: u64, b: u64) -> bool {
    &&& vpn_index(a, 2) == vpn_index(b, 2)
    &&& vpn_index(a, 1) == vpn_index(b, 1)
    &&& vpn_index(a, 0) == vpn_index(b, 0)
}

/// Every entry held in `m` is still held in `m2`, and a page with no entry
/// in `m` has none in `m2`, or an entry of zeros.
pub open spec fn translations_extended(m: Seq<Seq<u64>>, m2: Seq<Seq<u64>>, root: int) -> bool {
    forall|vpn: u64| {
        &&& (#[trigger] translation(m, root, vpn)) is Some ==> translation(m2, root, vpn) == translation(m, root, vpn)
        &&& translation(m, root, vpn) is None ==> translation(m2, root, vpn) is None
            || translation(m2, root, vpn) == Some(0u64)
    }
}

/// `m2` stays a tree when each of its paths is a path of `m` leading to the
/// same table, or leads to a frame past the end of `m`, and such fresh
/// tables are each reached once.
proof fn lemma_tree_shape_from_paths(m: Seq<Seq<u64>>, m2: Seq<Seq<u64>>, root: int)
    requires
        tree_shaped(m, root),
        m.len() <= m2.len(),
        forall|a: int| 0 <= a < 512 && path_valid1(m2, root, a) ==> (path_valid1(m, root, a)
            && #[trigger] level1_table(m2, root, a) == level1_table(m, root, a))
            || m.len() <= level1_table(m2, root, a) < m2.len(),
        forall|a: int, b: int| 0 <= a < 512 && 0 <= b < 512 && path_valid0(m2, root, a, b) ==> (path_valid0(m, root, a, b)
            && #[trigger] level0_table(m2, root, a, b) == level0_table(m, root, a, b))
            || m.len() <= level0_table(m2, root, a, b) < m2.len(),
        forall|a: int, c: int| 0 <= a < 512 && 0 <= c < 512 && a != c && path_valid1(m2, root, a) && path_valid1(m2, root, c)
            && #[trigger] level1_table(m2, root, a) >= m.len() ==> #[trigger] level1_table(m2, root, c) < m.len(),
        forall|a: int, b: int, c: int| 0 <= a < 512 && 0 <= b < 512 && 0 <= c < 512 && path_valid0(m2, root, a, b)
            && path_valid1(m2, root, c) && #[trigger] level0_table(m2, root, a, b) >= m.len()
            ==> #[trigger] level1_table(m2, root, c) < m.len(),
        forall|a: int, b: int, c: int, d: int| 0 <= a < 512 && 0 <= b < 512 && 0 <= c < 512 && 0 <= d < 512 && (a != c || b != d)
            && path_valid0(m2, root, a, b) && path_valid0(m2, root, c, d) && #[trigger] level0_table(m2, root, a, b) >= m.len()
            ==> #[trigger] level0_table(m2, root, c, d) < m.len(),
    ensures
        tree_shaped(m2, root),
{
    let n = m.len();
    assert forall|a: int| 0 <= a < 512 && path_valid1(m2, root, a) implies {
        let c = #[trigger] level1_table(m2, root, a);
        0 <= c < m2.len() && c != root
    } by {
        if level1_table(m2, root, a) < n {
            assert(level1_table(m, root, a) == level1_table(m2, root, a));
        }
    }
    assert forall|a: int, c: int|
        0 <= a < 512 && 0 <= c < 512 && a != c && path_valid1(m2, root, a) && path_valid1(m2, root, c)
            implies #[trigger] level1_table(m2, root, a) != #[trigger] level1_table(m2, root, c) by {
        if level1_table(m2, root, a) < n && level1_table(m2, root, c) < n {
            assert(level1_table(m, root, a) != level1_table(m, root, c));
        }
    }
    assert forall|a: int, b: int| 0 <= a < 512 && 0 <= b < 512 && path_valid0(m2, root, a, b) implies {
        let c = #[trigger] level0_table(m2, root, a, b);
        0 <= c < m2.len() && c != root
    } by {
        if level0_table(m2, root, a, b) < n {
            assert(level0_table(m, root, a, b) == level0_table(m2, root, a, b));
        }
    }
    assert forall|a: int, b: int, c: int|
        0 <= a < 512 && 0 <= b < 512 && 0 <= c < 512 && path_valid0(m2, root, a, b) && path_valid1(m2, root, c)
            implies #[trigger] level0_table(m2, root, a, b) != #[trigger] level1_table(m2, root, c) by {
        if level0_table(m2, root, a, b) < n && level1_table(m2, root, c) < n {
            assert(level0_table(m, root, a, b) == level0_table(m2, root, a, b));
            assert(level1_table(m, root, c) == level1_table(m2, root, c));
            assert(level0_table(m, root, a, b) != level1_table(m, root, c));
        } else if level1_table(m2, root, c) >= n {
            assert(path_valid0(m2, root, a, b));
            assert(path_valid1(m2, root, a));
            if level1_table(m2, root, a) >= n {
                if a != c {
                    assert(level1_table(m2, root, c) < n);
                }
            }
            if level0_table(m2, root, a, b) >= n {
                assert(level1_table(m2, root, c) < n);
            }
        }
    }
    assert forall|a: int, b: int, c: int, d: int|
        0 <= a < 512 && 0 <= b < 512 && 0 <= c < 512 && 0 <= d < 512 && (a != c || b != d)
            && path_valid0(m2, root, a, b) && path_valid0(m2, root, c, d)
            implies #[trigger] level0_table(m2, root, a, b) != #[trigger] level0_table(m2, root, c, d) by {
        if level0_table(m2, root, a, b) < n && level0_table(m2, root, c, d) < n {
            assert(level0_table(m, root, a, b) == level0_table(m2, root, a, b));
            assert(level0_table(m, root, c, d) == level0_table(m2, root, c, d));
            assert(level0_table(m, root, a, b) != level0_table(m, root, c, d));
        }
    }
}

/// Linking a fresh frame of zeros below an invalid root entry keeps the
/// table a tree and keeps or extends every translation.
proof fn lemma_new_table_at_root(m: Seq<Seq<u64>>, root: int, i: int, m2: Seq<Seq<u64>>)
    requires
        frames_full(m),
        tree_shaped(m, root),
        m.len() < ppn_limit(),
        0 <= i < 512,
        !path_valid1(m, root, i),
        m2 == mem_with_word(m.push(zero_frame()), root, i, pte_encode(m.len() as u64, 1)),
    ensures
        frames_full(m2),
        tree_shaped(m2, root),
        translations_extended(m, m2, root),
        path_valid1(m2, root, i),
        level1_table(m2, root, i) == m.len(),
{
    let n = m.len() as int;
    lemma_pte_encode(n as u64, 1);
    lemma_zero_pte();
    assert(1u8 & 1u8 != 0) by (bit_vector);
    assert forall|t: int| 0 <= t < m2.len() implies (#[trigger] m2[t]).len() == 512 by {
        if t < n { assert(m[t].len() == 512); }
    }
    // Entries of the root other than `i` are unchanged.
    assert forall|a: int| 0 <= a < 512 && a != i implies #[trigger] entry(m2, root, a) == entry(m, root, a) by {
    }
    assert(entry(m2, root, i) == pte_encode(n as u64, 1));
    // Tables other than the root and the new frame are unchanged.
    assert forall|c: int, b: int| 0 <= c < n && c != root && 0 <= b < 512 implies #[trigger] entry(m2, c, b) == entry(m, c, b) by {
    }
    assert forall|b: int| 0 <= b < 512 implies #[trigger] entry(m2, n, b) == 0u64 by {
    }
    assert forall|a: int| 0 <= a < 512 && a != i implies #[trigger] path_valid1(m2, root, a) == path_valid1(m, root, a)
        && level1_table(m2, root, a) == level1_table(m, root, a) by {
        assert(entry(m2, root, a) == entry(m, root, a));
    }
    assert forall|a: int, b: int| 0 <= a < 512 && 0 <= b < 512 && a != i && path_valid1(m, root, a)
        implies #[trigger] path_valid0(m2, root, a, b) == path_valid0(m, root, a, b)
            && level0_table(m2, root, a, b) == level0_table(m, root, a, b) by {
        assert(entry(m2, root, a) == entry(m, root, a));
        let c = level1_table(m, root, a);
        assert(0 <= c < n && c != root);
        assert(entry(m2, c, b) == entry(m, c, b));
    }
    assert forall|b: int| 0 <= b < 512 implies !#[trigger] path_valid0(m2, root, i, b) by {
        assert(entry(m2, n, b) == 0u64);
    }
    lemma_tree_shape_from_paths(m, m2, root);
    assert forall|vpn: u64| {
        &&& (#[trigger] translation(m, root, vpn)) is Some ==> translation(m2, root, vpn) == translation(m, root, vpn)
        &&& translation(m, root, vpn) is None ==> translation(m2, root, vpn) is None
            || translation(m2, root, vpn) == Some(0u64)
    } by {
        lemma_vpn_index_bound(vpn);
        let a = vpn_index(vpn, 2);
        let b = vpn_index(vpn, 1);
        let c = vpn_index(vpn, 0);
        if a != i {
            if path_valid1(m, root, a) {
                assert(path_valid0(m2, root, a, b) == path_valid0(m, root, a, b));
                if path_valid0(m, root, a, b) {
                    let l0 = level0_table(m, root, a, b);
                    assert(0 <= l0 < n && l0 != root);
                    assert(entry(m2, l0, c) == entry(m, l0, c));
                }
            } else {
                assert(!path_valid1(m2, root, a));
            }
        } else {
            assert(!path_valid0(m2, root, i, b));
        }
    }
}

/// Linking a fresh frame of zeros below an invalid entry of a second-level
/// table keeps the table a tree and keeps or extends every translation.
proof fn lemma_new_table_at_level1(m: Seq<Seq<u64>>, root: int, k: int, i: int, m2: Seq<Seq<u64>>)
    requires
        frames_full(m),
        tree_shaped(m, root),
        m.len() < ppn_limit(),
        0 <= k < 512,
        0 <= i < 512,
        path_valid1(m, root, k),
        !path_valid0(m, root, k, i),
        m2 == mem_with_word(m.push(zero_frame()), level1_table(m, root, k), i, pte_encode(m.len() as u64, 1)),
    ensures
        frames_full(m2),
        tree_shaped(m2, root),
        translations_extended(m, m2, root),
        path_valid0(m2, root, k, i),
        level0_table(m2, root, k, i) == m.len(),
{
    let n = m.len() as int;
    let t = level1_table(m, root, k);
    lemma_pte_encode(n as u64, 1);
    lemma_zero_pte();
    assert(1u8 & 1u8 != 0) by (bit_vector);
    assert(0 <= t < n && t != root);
    assert forall|x: int| 0 <= x < m2.len() implies (#[trigger] m2[x]).len() == 512 by {
        if x < n { assert(m[x].len() == 512); }
    }
    assert forall|a: int| 0 <= a < 512 implies #[trigger] entry(m2, root, a) == entry(m, root, a) by {
    }
    assert forall|a: int| 0 <= a < 512 implies #[trigger] path_valid1(m2, root, a) == path_valid1(m, root, a)
        && level1_table(m2, root, a) == level1_table(m, root, a) by {
        assert(entry(m2, root, a) == entry(m, root, a));
    }
    assert(entry(m2, t, i) == pte_encode(n as u64, 1));
    assert forall|x: int, b: int| 0 <= x < n && (x != t || b != i) && 0 <= b < 512 implies #[trigger] entry(m2, x, b)
        == entry(m, x, b) by {
    }
    assert forall|b: int| 0 <= b < 512 implies #[trigger] entry(m2, n, b) == 0u64 by {
    }
    assert forall|a: int, b: int| 0 <= a < 512 && 0 <= b < 512 && (a != k || b != i)
        implies #[trigger] path_valid0(m2, root, a, b) == path_valid0(m, root, a, b)
            && (path_valid0(m, root, a, b) ==> level0_table(m2, root, a, b) == level0_table(m, root, a, b)) by {
        assert(entry(m2, root, a) == entry(m, root, a));
        if path_valid1(m, root, a) {
            let c = level1_table(m, root, a);
            assert(0 <= c < n);
            if a != k {
                assert(c != t);
            }
            assert(entry(m2, c, b) == entry(m, c, b));
        }
    }
    assert(path_valid0(m2, root, k, i));
    assert(level0_table(m2, root, k, i) == n);
    lemma_tree_shape_from_paths(m, m2, root);
    assert forall|vpn: u64| {
        &&& (#[trigger] translation(m, root, vpn)) is Some ==> translation(m2, root, vpn) == translation(m, root, vpn)
        &&& translation(m, root, vpn) is None ==> translation(m2, root, vpn) is None
            || translation(m2, root, vpn) == Some(0u64)
    } by {
        lemma_vpn_index_bound(vpn);
        let a = vpn_index(vpn, 2);
        let b = vpn_index(vpn, 1);
        let c = vpn_index(vpn, 0);
        if a != k || b != i {
            if path_valid0(m, root, a, b) {
                let l0 = level0_table(m, root, a, b);
                assert(0 <= l0 < n && l0 != root);
                assert(l0 != t);
                assert(entry(m2, l0, c) == entry(m, l0, c));
            }
        } else {
            assert(entry(m2, n, c) == 0u64);
        }
    }
}

/// Writing the entry for `vpn` leaves the table a tree, gives `vpn` the entry
/// written, and leaves the entry of every page that selects another slot.
pub proof fn lemma_leaf_write(m: Seq<Seq<u64>>, root: int, vpn: u64, w: u64, m2: Seq<Seq<u64>>)
    requires
        frames_full(m),
        tree_shaped(m, root),
        leaf_slot(m, root, vpn) is Some,
        m2 == mem_with_word(m, leaf_slot(m, root, vpn).unwrap().0, leaf_slot(m, root, vpn).unwrap().1, w),
    ensures
        frames_full(m2),
        tree_shaped(m2, root),
        translation(m2, root, vpn) == Some(w),
        forall|v: u64| !same_slot(v, vpn) ==> #[trigger] translation(m2, root, v) == translation(m, root, v),
{
    lemma_vpn_index_bound(vpn);
    let i = vpn_index(vpn, 2);
    let j = vpn_index(vpn, 1);
    let t = level0_table(m, root, i, j);
    let x = vpn_index(vpn, 0);
    assert(0 <= t < m.len() && t != root);
    assert forall|y: int| 0 <= y < m2.len() implies (#[trigger] m2[y]).len() == 512 by {
        assert(m[y].len() == 512);
    }
    assert forall|c: int, b: int| 0 <= c < m.len() && 0 <= b < 512 && (c != t || b != x) implies #[trigger] entry(m2, c, b)
        == entry(m, c, b) by {
    }
    assert forall|a: int| 0 <= a < 512 implies #[trigger] path_valid1(m2, root, a) == path_valid1(m, root, a)
        && level1_table(m2, root, a) == level1_table(m, root, a) by {
        assert(entry(m2, root, a) == entry(m, root, a));
    }
    assert forall|a: int, b: int| 0 <= a < 512 && 0 <= b < 512
        implies #[trigger] path_valid0(m2, root, a, b) == path_valid0(m, root, a, b)
            && (path_valid1(m, root, a) ==> level0_table(m2, root, a, b) == level0_table(m, root, a, b)) by {
        if path_valid1(m, root, a) {
            let c = level1_table(m, root, a);
            assert(c != t);
            assert(entry(m2, c, b) == entry(m, c, b));
        } else {
            assert(!path_valid1(m2, root, a));
        }
    }
    lemma_tree_shape_from_paths(m, m2, root);
    assert(path_valid0(m2, root, i, j));
    assert forall|v: u64| !same_slot(v, vpn) implies #[trigger] translation(m2, root, v) == translation(m, root, v) by {
        lemma_vpn_index_bound(v);
        let a = vpn_index(v, 2);
        let b = vpn_index(v, 1);
        let c = vpn_index(v, 0);
        if path_valid0(m, root, a, b) {
            let l0 = level0_table(m, root, a, b);
            if a != i || b != j {
                assert(l0 != t);
            } else {
                assert(c != x);
            }
            assert(0 <= l0 < m.len());
            assert(entry(m2, l0, c) == entry(m, l0, c));
        }
    }
}

/// page table structure
pub struct PageTable {
    pub root_ppn: PhysPageNum,
    /// The frames of the tables this page table created, root first.
    pub frames: Vec<PhysPageNum>,
}

impl PageTable {
    /// Create a new page table: an empty root frame.
    pub fn new(mem: &mut PhysMemory) -> (r: Self)
        requires
            old(mem).wf(),
            old(mem)@.len() < ppn_limit(),
        ensures
            final(mem).wf(),
            final(mem)@ == old(mem)@.push(zero_frame()),
            r.root_ppn.0 == old(mem)@.len(),
            r.frames@ == seq![r.root_ppn],
            tree_shaped(final(mem)@, r.root_ppn.0 as int),
            forall|vpn: u64| #[trigger] translation(final(mem)@, r.root_ppn.0 as int, vpn) is None,
    {
        let frame = mem.frame_alloc();
        let mut frames: Vec<PhysPageNum> = Vec::new();
        frames.push(frame);
        let ghost m = mem@;
        let ghost root = frame.0 as int;
        proof {
            lemma_zero_pte();
            assert(m[root] == zero_frame());
            assert forall|i: int| 0 <= i < 512 implies !path_valid1(m, root, i) by {
                assert(entry(m, root, i) == 0u64);
            }
            assert forall|vpn: u64| #[trigger] translation(m, root, vpn) is None by {
                lemma_vpn_index_bound(vpn);
                assert(!path_valid1(m, root, vpn_index(vpn, 2)));
            }
        }
        PageTable { root_ppn: frame, frames }
    }

    /// Temporarily used to get arguments from user space: the page table
    /// whose root is named by the low 44 bits of a `satp` token.
    pub fn from_token(satp: u64) -> (r: Self)
        ensures
            r.root_ppn.0 == satp & 0xfff_ffff_ffff,
            r.frames@ == Seq::<PhysPageNum>::empty(),
    {
        assert((satp & 0xfff_ffff_ffffu64) & 0xfff_ffff_ffffu64 == satp & 0xfff_ffff_ffffu64) by (bit_vector);
        PageTable { root_ppn: PhysPageNum::from_raw(satp & 0xfff_ffff_ffff), frames: Vec::new() }
    }

    /// get the token from the page table: Sv39 mode with the root frame
    pub fn token(&self) -> (r: u64)
        ensures
            r == (8u64 << 60u64) | self.root_ppn.0,
    {
        8u64 << 60 | self.root_ppn.0
    }

    /// Find the slot of the PageTableEntry for `vpn`: frame and index
    fn find_pte(&self, mem: &PhysMemory, vpn: VirtPageNum) -> (r: Option<(u64, usize)>)
        requires
            mem.wf(),
            walk_in_bounds(mem@, self.root_ppn.0 as int, vpn.0),
        ensures
            match leaf_slot(mem@, self.root_ppn.0 as int, vpn.0) {
                Some(slot) => r matches Some(loc) && loc.0 == slot.0 && loc.1 == slot.1
                    && slot.0 < mem@.len() && slot.1 < 512,
                None => r is None,
            },
    {
        let idxs = vpn.indexes();
        let mut ppn = self.root_ppn;
        let mut i: usize = 0;
        let ghost m = mem@;
        let ghost root = self.root_ppn.0 as int;
        while i < 2
            invariant
                m == mem@,
                root == self.root_ppn.0 as int,
                mem.wf(),
                walk_in_bounds(m, root, vpn.0),
                idxs@[0] == vpn_index(vpn.0, 2),
                idxs@[1] == vpn_index(vpn.0, 1),
                idxs@[2] == vpn_index(vpn.0, 0),
                idxs@[0] < 512 && idxs@[1] < 512 && idxs@[2] < 512,
                i <= 2,
                i == 0 ==> ppn.0 == root,
                i >= 1 ==> path_valid1(m, root, idxs@[0] as int),
                i == 1 ==> ppn.0 == level1_table(m, root, idxs@[0] as int),
                i == 2 ==> path_valid0(m, root, idxs@[0] as int, idxs@[1] as int)
                    && ppn.0 == level0_table(m, root, idxs@[0] as int, idxs@[1] as int),
            decreases 2 - i,
        {
            let pte = PageTableEntry { bits: mem.read_word(ppn.0, idxs[i]) };
            if !pte.is_valid() {
                proof {
                    if i == 0 {
                        assert(pte.bits == entry(m, root, idxs@[0] as int));
                        assert(!path_valid1(m, root, idxs@[0] as int));
                    } else {
                        assert(pte.bits == entry(m, level1_table(m, root, idxs@[0] as int), idxs@[1] as int));
                        assert(!path_valid0(m, root, idxs@[0] as int, idxs@[1] as int));
                    }
                }
                return None;
            }
            ppn = pte.ppn();
            i = i + 1;
        }
        Some((ppn.0, idxs[2]))
    }

    /// get the page table entry from the virtual page number
    pub fn translate(&self, mem: &PhysMemory, vpn: VirtPageNum) -> (r: Option<PageTableEntry>)
        requires
            mem.wf(),
            walk_in_bounds(mem@, self.root_ppn.0 as int, vpn.0),
        ensures
            match translation(mem@, self.root_ppn.0 as int, vpn.0) {
                Some(bits) => r == Some(PageTableEntry { bits }),
                None => r is None,
            },
    {
        match self.find_pte(mem, vpn) {
            Some(loc) => Some(PageTableEntry { bits: mem.read_word(loc.0, loc.1) }),
            None => None,
        }
    }

    /// Whether the walk for `vpn` stays within memory, as `translate` asks.
    pub fn walk_is_in_bounds(&self, mem: &PhysMemory, vpn: VirtPageNum) -> (r: bool)
        requires
            mem.wf(),
        ensures
            r == walk_in_bounds(mem@, self.root_ppn.0 as int, vpn.0),
    {
        let idxs = vpn.indexes();
        let n = mem.frame_count();
        let root = self.root_ppn.0;
        if root >= n as u64 {
            return false;
        }
        let e2 = PageTableEntry { bits: mem.read_word(root, idxs[0]) };
        if !e2.is_valid() {
            return true;
        }
        let t1 = e2.ppn().0;
        if t1 >= n as u64 {
            return false;
        }
        let e1 = PageTableEntry { bits: mem.read_word(t1, idxs[1]) };
        if !e1.is_valid() {
            return true;
        }
        e1.ppn().0 < n as u64
    }
}


/// `m` with a fresh frame of zeros linked, by an entry with only `V` set,
/// below the root entry on the walk to `vpn`, when that entry is not valid.
pub open spec fn with_level1_table(m: Seq<Seq<u64>>, root: int, vpn: u64) -> Seq<Seq<u64>> {
    let i = vpn_index(vpn, 2);
    if path_valid1(m, root, i) {
        m
    } else {
        mem_with_word(m.push(zero_frame()), root, i, pte_encode(m.len() as u64, 1))
    }
}

/// `m` with every table missing on the walk to `vpn` created: a fresh frame
/// of zeros for each, linked by an entry with only `V` set.
pub open spec fn with_walk_tables(m: Seq<Seq<u64>>, root: int, vpn: u64) -> Seq<Seq<u64>> {
    let m1 = with_level1_table(m, root, vpn);
    let i = vpn_index(vpn, 2);
    let j = vpn_index(vpn, 1);
    if path_valid0(m1, root, i, j) {
        m1
    } else {
        mem_with_word(m1.push(zero_frame()), level1_table(m1, root, i), j, pte_encode(m1.len() as u64, 1))
    }
}

/// The page numbers `from, from + 1, ..., to - 1`.
pub open spec fn ppn_run(from: int, to: int) -> Seq<PhysPageNum> {
    Seq::new((to - from) as nat, |j: int| PhysPageNum((from + j) as u64))
}

impl PageTable {
    /// Find the slot of the PageTableEntry for `vpn`, creating a zeroed frame
    /// for each missing table on the way.
    fn find_pte_create(&mut self, mem: &mut PhysMemory, vpn: VirtPageNum) -> (loc: (u64, usize))
        requires
            old(mem).wf(),
            tree_shaped(old(mem)@, old(self).root_ppn.0 as int),
            old(mem)@.len() + 2 <= ppn_limit(),
        ensures
            final(mem).wf(),
            final(self).root_ppn == old(self).root_ppn,
            tree_shaped(final(mem)@, old(self).root_ppn.0 as int),
            translations_extended(old(mem)@, final(mem)@, old(self).root_ppn.0 as int),
            final(mem)@ == with_walk_tables(old(mem)@, old(self).root_ppn.0 as int, vpn.0),
            leaf_slot(final(mem)@, old(self).root_ppn.0 as int, vpn.0) == Some((loc.0 as int, loc.1 as int)),
            loc.0 < final(mem)@.len(),
            loc.1 < 512,
            old(mem)@.len() <= final(mem)@.len() <= old(mem)@.len() + 2,
            final(self).frames@ == old(self).frames@ + ppn_run(old(mem)@.len() as int, final(mem)@.len() as int),
    {
        let ghost root = self.root_ppn.0 as int;
        let ghost m0 = mem@;
        let idxs = vpn.indexes();
        let root_ppn = self.root_ppn.0;
        proof {
            assert(frames_full(m0)) by {
                assert forall|t: int| 0 <= t < m0.len() implies (#[trigger] m0[t]).len() == 512 by {
                    assert(mem.frames@[t]@.len() == 512);
                }
            }
        }
        let e2 = PageTableEntry { bits: mem.read_word(root_ppn, idxs[0]) };
        if !e2.is_valid() {
            let ghost m = mem@;
            let frame = mem.frame_alloc();
            let pte = PageTableEntry::new(frame, PTEFlags { bits: PTEFlags::V });
            mem.write_word(root_ppn, idxs[0], pte.bits);
            self.frames.push(frame);
            proof {
                lemma_new_table_at_root(m, root, idxs@[0] as int, mem@);
                assert(self.frames@ =~= old(self).frames@ + ppn_run(m0.len() as int, mem@.len() as int));
            }
        } else {
            proof {
                assert(self.frames@ =~= old(self).frames@ + ppn_run(m0.len() as int, mem@.len() as int));
            }
        }
        let ghost m1 = mem@;
        proof {
            assert(frames_full(m1)) by {
                assert forall|t: int| 0 <= t < m1.len() implies (#[trigger] m1[t]).len() == 512 by {
                    assert(mem.frames@[t]@.len() == 512);
                }
            }
            assert(path_valid1(m1, root, idxs@[0] as int));
            assert(0 <= level1_table(m1, root, idxs@[0] as int) < m1.len());
        }
        let t1 = PageTableEntry { bits: mem.read_word(root_ppn, idxs[0]) }.ppn().0;
        let e1 = PageTableEntry { bits: mem.read_word(t1, idxs[1]) };
        if !e1.is_valid() {
            let ghost m = mem@;
            let frames_before = Ghost(self.frames@);
            let frame = mem.frame_alloc();
            let pte = PageTableEntry::new(frame, PTEFlags { bits: PTEFlags::V });
            mem.write_word(t1, idxs[1], pte.bits);
            self.frames.push(frame);
            proof {
                lemma_new_table_at_level1(m, root, idxs@[0] as int, idxs@[1] as int, mem@);
                assert(self.frames@ =~= old(self).frames@ + ppn_run(m0.len() as int, mem@.len() as int));
                assert forall|v: u64| #[trigger] translation(m0, root, v) is Some implies translation(mem@, root, v)
                    == translation(m0, root, v) by {
                    assert(translation(m1, root, v) == translation(m0, root, v));
                }
                assert forall|v: u64| #[trigger] translation(m0, root, v) is None implies translation(mem@, root, v) is None
                    || translation(mem@, root, v) == Some(0u64) by {
                    if translation(m1, root, v) is Some {
                        assert(translation(m1, root, v) == Some(0u64));
                    }
                }
            }
        }
        let ghost m2 = mem@;
        proof {
            assert(frames_full(m2)) by {
                assert forall|t: int| 0 <= t < m2.len() implies (#[trigger] m2[t]).len() == 512 by {
                    assert(mem.frames@[t]@.len() == 512);
                }
            }
            assert(path_valid0(m2, root, idxs@[0] as int, idxs@[1] as int));
            assert(0 <= level0_table(m2, root, idxs@[0] as int, idxs@[1] as int) < m2.len());
        }
        let t0 = PageTableEntry { bits: mem.read_word(t1, idxs[1]) }.ppn().0;
        (t0, idxs[2])
    }

    /// set the map between virtual page number and physical page number;
    /// the page must not be mapped before
    pub fn map(&mut self, mem: &mut PhysMemory, vpn: VirtPageNum, ppn: PhysPageNum, flags: PTEFlags)
        requires
            old(mem).wf(),
            tree_shaped(old(mem)@, old(self).root_ppn.0 as int),
            old(mem)@.len() + 2 <= ppn_limit(),
            translation(old(mem)@, old(self).root_ppn.0 as int, vpn.0) matches Some(b) ==> !pte_valid(b),
        ensures
            final(mem).wf(),
            final(self).root_ppn == old(self).root_ppn,
            tree_shaped(final(mem)@, old(self).root_ppn.0 as int),
            ({
                let m1 = with_walk_tables(old(mem)@, old(self).root_ppn.0 as int, vpn.0);
                let slot = leaf_slot(m1, old(self).root_ppn.0 as int, vpn.0).unwrap();
                final(mem)@ == mem_with_word(m1, slot.0, slot.1, pte_encode(ppn.0, flags.bits | 1))
            }),
            translation(final(mem)@, old(self).root_ppn.0 as int, vpn.0) == Some(pte_encode(ppn.0, flags.bits | 1)),
            forall|v: u64| !same_slot(v, vpn.0) ==> {
                &&& (#[trigger] translation(old(mem)@, old(self).root_ppn.0 as int, v)) is Some
                    ==> translation(final(mem)@, old(self).root_ppn.0 as int, v) == translation(old(mem)@, old(self).root_ppn.0 as int, v)
                &&& translation(old(mem)@, old(self).root_ppn.0 as int, v) is None
                    ==> translation(final(mem)@, old(self).root_ppn.0 as int, v) is None
                        || translation(final(mem)@, old(self).root_ppn.0 as int, v) == Some(0u64)
            },
            old(mem)@.len() <= final(mem)@.len() <= old(mem)@.len() + 2,
            final(self).frames@ == old(self).frames@ + ppn_run(old(mem)@.len() as int, final(mem)@.len() as int),
    {
        let ghost root = self.root_ppn.0 as int;
        let loc = self.find_pte_create(mem, vpn);
        let ghost m1 = mem@;
        let pte = PageTableEntry { bits: mem.read_word(loc.0, loc.1) };
        proof {
            if translation(old(mem)@, root, vpn.0) is None {
                lemma_zero_pte();
            }
            assert(!pte_valid(pte.bits));
        }
        let entry = PageTableEntry::new(ppn, flags.union(PTEFlags { bits: PTEFlags::V }));
        mem.write_word(loc.0, loc.1, entry.bits);
        proof {
            assert(frames_full(m1)) by {
                assert forall|t: int| 0 <= t < m1.len() implies (#[trigger] m1[t]).len() == 512 by {
                }
            }
            lemma_leaf_write(m1, root, vpn.0, entry.bits, mem@);
        }
    }

    /// remove the map between virtual page number and physical page number;
    /// the page must be mapped before
    pub fn unmap(&mut self, mem: &mut PhysMemory, vpn: VirtPageNum)
        requires
            old(mem).wf(),
            tree_shaped(old(mem)@, old(self).root_ppn.0 as int),
            translation(old(mem)@, old(self).root_ppn.0 as int, vpn.0) matches Some(b) && pte_valid(b),
        ensures
            final(mem).wf(),
            *final(self) == *old(self),
            tree_shaped(final(mem)@, old(self).root_ppn.0 as int),
            ({
                let slot = leaf_slot(old(mem)@, old(self).root_ppn.0 as int, vpn.0).unwrap();
                final(mem)@ == mem_with_word(old(mem)@, slot.0, slot.1, 0u64)
            }),
            translation(final(mem)@, old(self).root_ppn.0 as int, vpn.0) == Some(0u64),
            forall|v: u64| !same_slot(v, vpn.0) ==> #[trigger] translation(final(mem)@, old(self).root_ppn.0 as int, v)
                == translation(old(mem)@, old(self).root_ppn.0 as int, v),
            final(mem)@.len() == old(mem)@.len(),
    {
        let ghost root = self.root_ppn.0 as int;
        let ghost m0 = mem@;
        proof {
            lemma_tree_walk_in_bounds(m0, root, vpn.0);
            assert(frames_full(m0)) by {
                assert forall|t: int| 0 <= t < m0.len() implies (#[trigger] m0[t]).len() == 512 by {
                }
            }
        }
        let loc = self.find_pte(mem, vpn).unwrap();
        let pte = PageTableEntry { bits: mem.read_word(loc.0, loc.1) };
        assert(pte_valid(pte.bits));
        mem.write_word(loc.0, loc.1, PageTableEntry::empty().bits);
        proof {
            lemma_leaf_write(m0, root, vpn.0, 0u64, mem@);
        }
    }
}


/// The root frame a `satp` token names.
pub open spec fn token_root(token: u64) -> int {
    (token & 0xfff_ffff_ffffu64) as int
}

/// The page a user address lies in (the address cut to 39 bits).
pub open spec fn va_page(ptr: u64) -> u64 {
    ((ptr & 0x7f_ffff_ffffu64) / 4096) as u64
}

/// The offset of a user address within its page.
pub open spec fn va_offset(ptr: u64) -> int {
    (ptr & 0x7f_ffff_ffffu64) as int % 4096
}

/// The byte the user may read at `ptr`: -1 without an entry for its page,
/// or when the entry is not valid, user-accessible and readable.
pub open spec fn readable_byte(m: Seq<Seq<u64>>, token: u64, ptr: u64) -> isize {
    match translation(m, token_root(token), va_page(ptr)) {
        None => -1isize,
        Some(b) => if pte_valid(b) && pte_has(b, 16) && pte_has(b, 2) {
            mem_byte(m, pte_ppn(b) as int, va_offset(ptr)) as isize
        } else {
            -1isize
        },
    }
}

/// The user may write at `ptr`: its page has an entry that is valid,
/// user-accessible and writable.
pub open spec fn writable_at(m: Seq<Seq<u64>>, token: u64, ptr: u64) -> bool {
    translation(m, token_root(token), va_page(ptr)) matches Some(b) && pte_valid(b) && pte_has(b, 16) && pte_has(b, 4)
}

/// The data frame the entry for `ptr` names, whatever its flags.
pub open spec fn data_frame(m: Seq<Seq<u64>>, token: u64, ptr: u64) -> int {
    pte_ppn(translation(m, token_root(token), va_page(ptr)).unwrap()) as int
}

/// Walking to `ptr` stays within memory, and a page the user may read or
/// write lies in memory.
pub open spec fn user_access_in_bounds(m: Seq<Seq<u64>>, token: u64, ptr: u64) -> bool {
    &&& walk_in_bounds(m, token_root(token), va_page(ptr))
    &&& translation(m, token_root(token), va_page(ptr)) is Some ==> data_frame(m, token, ptr) < m.len()
}

/// The word holding the user byte at `ptr` is none of the three entries
/// the walk to its page reads.
pub open spec fn data_word_apart(m: Seq<Seq<u64>>, token: u64, ptr: u64) -> bool {
    let root = token_root(token);
    let vpn = va_page(ptr);
    let i = vpn_index(vpn, 2);
    let j = vpn_index(vpn, 1);
    let x = vpn_index(vpn, 0);
    let w = (data_frame(m, token, ptr), va_offset(ptr) / 8);
    &&& w != (root, i)
    &&& w != (level1_table(m, root, i), j)
    &&& w != (level0_table(m, root, i, j), x)
}

/// Reading back a byte the user wrote gives the byte written, when the page
/// is also readable and the byte does not lie in an entry on the way to it.
pub proof fn lemma_write_then_read_byte(m: Seq<Seq<u64>>, token: u64, ptr: u64, value: u8)
    requires
        frames_full(m),
        user_access_in_bounds(m, token, ptr),
        writable_at(m, token, ptr),
        pte_has(translation(m, token_root(token), va_page(ptr)).unwrap(), 2),
        data_word_apart(m, token, ptr),
    ensures
        readable_byte(mem_with_byte(m, data_frame(m, token, ptr), va_offset(ptr), value), token, ptr) == value as isize,
{
    let root = token_root(token);
    let vpn = va_page(ptr);
    lemma_vpn_index_bound(vpn);
    let d = data_frame(m, token, ptr);
    let off = va_offset(ptr);
    let m2 = mem_with_byte(m, d, off, value);
    let i = vpn_index(vpn, 2);
    let j = vpn_index(vpn, 1);
    assert(entry(m2, root, i) == entry(m, root, i));
    assert(entry(m2, level1_table(m, root, i), j) == entry(m, level1_table(m, root, i), j));
    assert(level1_table(m2, root, i) == level1_table(m, root, i));
    assert(level0_table(m2, root, i, j) == level0_table(m, root, i, j));
    let x = vpn_index(vpn, 0);
    assert(entry(m2, level0_table(m, root, i, j), x) == entry(m, level0_table(m, root, i, j), x));
    assert(translation(m2, root, vpn) == translation(m, root, vpn));
    assert(0 <= off < 4096);
    assert(m[d].len() == 512);
    lemma_byte_write_read(m[d][off / 8], (off % 8) as u64, (off % 8) as u64, value);
    assert(m2[d][off / 8] == crate::mm::memory::with_byte(m[d][off / 8], (off % 8) as u64, value));
}

/// The user address `ptr` cut to 39 bits, its page and offset.
fn user_address(ptr: u64) -> (r: (VirtAddr, VirtPageNum))
    ensures
        r.0.0 == ptr & 0x7f_ffff_ffffu64,
        r.1.0 == va_page(ptr),
        r.0.0 % 4096 == va_offset(ptr),
{
    let va = VirtAddr::from_raw(ptr);
    let vpn = va.floor();
    (va, vpn)
}

/// Translate&Read a single byte at `ptr` through the page table named by
/// `token`. The user must be able to access and read it, otherwise -1 is
/// returned.
pub fn read_translated_byte(mem: &PhysMemory, token: u64, ptr: u64) -> (r: isize)
    requires
        mem.wf(),
        user_access_in_bounds(mem@, token, ptr),
    ensures
        r == readable_byte(mem@, token, ptr),
{
    let page_table = PageTable::from_token(token);
    let (va, vpn) = user_address(ptr);
    if let Some(pte) = page_table.translate(mem, vpn) {
        if !pte.is_valid() || !pte.user() || !pte.readable() {
            return -1;
        }
        let ppn = pte.ppn();
        mem.read_byte(ppn.0, va.page_offset()) as isize
    } else {
        return -1;
    }
}

/// Translate&Write `value` at `ptr` through the page table named by `token`.
/// The user must be able to access and write it, otherwise -1 is returned
/// and memory is left as it was.
pub fn write_translated_byte(mem: &mut PhysMemory, token: u64, ptr: u64, value: u8) -> (r: isize)
    requires
        old(mem).wf(),
        user_access_in_bounds(old(mem)@, token, ptr),
    ensures
        final(mem).wf(),
        writable_at(old(mem)@, token, ptr) ==> r == 0 && final(mem)@ == mem_with_byte(old(mem)@,
            data_frame(old(mem)@, token, ptr), va_offset(ptr), value),
        !writable_at(old(mem)@, token, ptr) ==> r == -1 && final(mem)@ == old(mem)@,
{
    let page_table = PageTable::from_token(token);
    let (va, vpn) = user_address(ptr);
    if let Some(pte) = page_table.translate(mem, vpn) {
        if !pte.is_valid() || !pte.user() || !pte.writable() {
            return -1;
        }
        let ppn = pte.ppn();
        mem.write_byte(ppn.0, va.page_offset(), value);
        0
    } else {
        return -1;
    }
}

/// The pages from the one holding `start` up to the last one that begins
/// below `end`.
pub open spec fn page_in_range(start: u64, end: u64, p: int) -> bool {
    start / 4096 <= p && p * 4096 < end
}

/// Every walk over the pages of the range stays within memory.
pub open spec fn range_walks_in_bounds(m: Seq<Seq<u64>>, token: u64, start: u64, end: u64) -> bool {
    forall|p: u64| page_in_range(start, end, p as int) ==> #[trigger] walk_in_bounds(m, token_root(token), p)
}

/// Whether the entry for page `p` exists and is valid.
pub open spec fn page_mapped(m: Seq<Seq<u64>>, token: u64, p: u64) -> bool {
    translation(m, token_root(token), p) matches Some(b) && pte_valid(b)
}

/// check that no page table entry in the range [start_va, end_va) is valid
pub fn check_vpn_range_no_entry(mem: &PhysMemory, token: u64, start_va: VirtAddr, end_va: VirtAddr) -> (r: bool)
    requires
        mem.wf(),
        end_va.0 <= 0x80_0000_0000,
        range_walks_in_bounds(mem@, token, start_va.0, end_va.0),
    ensures
        r == forall|p: u64| page_in_range(start_va.0, end_va.0, p as int) ==> !#[trigger] page_mapped(mem@, token, p),
{
    let page_table = PageTable::from_token(token);
    let mut vpn = start_va.floor();
    assert(vpn.0 < 0x10_0000_0000_0000) by (nonlinear_arith)
        requires vpn.0 == start_va.0 / 4096;
    while VirtAddr::from_vpn(vpn).0 < end_va.0
        invariant
            mem.wf(),
            range_walks_in_bounds(mem@, token, start_va.0, end_va.0),
            end_va.0 <= 0x80_0000_0000,
            page_table.root_ppn.0 == token_root(token),
            start_va.0 / 4096 <= vpn.0 < 0x10_0000_0000_0000,
            forall|p: u64| start_va.0 / 4096 <= p < vpn.0 ==> !#[trigger] page_mapped(mem@, token, p),
        decreases 0x10_0000_0000_0000 - vpn.0,
    {
        assert(page_in_range(start_va.0, end_va.0, vpn.0 as int));
        assert(walk_in_bounds(mem@, token_root(token), vpn.0));
        if let Some(pte) = page_table.translate(mem, vpn) {
            if pte.is_valid() {
                assert(page_mapped(mem@, token, vpn.0));
                return false;
            }
        }
        assert(vpn.0 + 1 < 0x10_0000_0000_0000) by (nonlinear_arith)
            requires vpn.0 * 4096 < end_va.0, end_va.0 <= 0x80_0000_0000;
        vpn.step();
    }
    proof {
        assert forall|p: u64| page_in_range(start_va.0, end_va.0, p as int) implies !#[trigger] page_mapped(mem@, token, p) by {
            if p >= vpn.0 {
                assert(p * 4096 >= vpn.0 * 4096) by (nonlinear_arith)
                    requires p >= vpn.0;
            }
        }
    }
    true
}

/// On a range that holds at least one page, the two range checks cannot
/// both hold: the pages cannot all be mapped and all be unmapped.
pub proof fn lemma_range_checks_exclusive(m: Seq<Seq<u64>>, token: u64, start: u64, end: u64)
    requires
        page_in_range(start, end, (start / 4096) as int),
    ensures
        !((forall|p: u64| page_in_range(start, end, p as int) ==> #[trigger] page_mapped(m, token, p))
            && (forall|p: u64| page_in_range(start, end, p as int) ==> !#[trigger] page_mapped(m, token, p))),
{
    let p = (start / 4096) as u64;
    assert(page_in_range(start, end, p as int));
    if page_mapped(m, token, p) {
    } else {
    }
}

/// check that all page table entries in the range [start_va, end_va) are valid
pub fn check_vpn_range_all_entry(mem: &PhysMemory, token: u64, start_va: VirtAddr, end_va: VirtAddr) -> (r: bool)
    requires
        mem.wf(),
        end_va.0 <= 0x80_0000_0000,
        range_walks_in_bounds(mem@, token, start_va.0, end_va.0),
    ensures
        r == forall|p: u64| page_in_range(start_va.0, end_va.0, p as int) ==> #[trigger] page_mapped(mem@, token, p),
{
    let page_table = PageTable::from_token(token);
    let mut vpn = start_va.floor();
    assert(vpn.0 < 0x10_0000_0000_0000) by (nonlinear_arith)
        requires vpn.0 == start_va.0 / 4096;
    while VirtAddr::from_vpn(vpn).0 < end_va.0
        invariant
            mem.wf(),
            range_walks_in_bounds(mem@, token, start_va.0, end_va.0),
            end_va.0 <= 0x80_0000_0000,
            page_table.root_ppn.0 == token_root(token),
            start_va.0 / 4096 <= vpn.0 < 0x10_0000_0000_0000,
            forall|p: u64| start_va.0 / 4096 <= p < vpn.0 ==> #[trigger] page_mapped(mem@, token, p),
        decreases 0x10_0000_0000_0000 - vpn.0,
    {
        assert(page_in_range(start_va.0, end_va.0, vpn.0 as int));
        assert(walk_in_bounds(mem@, token_root(token), vpn.0));
        if let Some(pte) = page_table.translate(mem, vpn) {
            if !pte.is_valid() {
                assert(!page_mapped(mem@, token, vpn.0));
                return false;
            }
        } else {
            assert(!page_mapped(mem@, token, vpn.0));
            return false;
        }
        assert(vpn.0 + 1 < 0x10_0000_0000_0000) by (nonlinear_arith)
            requires vpn.0 * 4096 < end_va.0, end_va.0 <= 0x80_0000_0000;
        vpn.step();
    }
    proof {
        assert forall|p: u64| page_in_range(start_va.0, end_va.0, p as int) implies #[trigger] page_mapped(mem@, token, p) by {
            if p >= vpn.0 {
                assert(p * 4096 >= vpn.0 * 4096) by (nonlinear_arith)
                    requires p >= vpn.0;
            }
        }
    }
    true
}


/// Bytes `start..end` of frame `ppn`.
#[derive(Copy, Clone, Debug, PartialEq, Eq, Structural)]
pub struct PageSlice {
    pub ppn: PhysPageNum,
    pub start: u64,
    pub end: u64,
}

/// The number of pages the user buffer `ptr..ptr + len` touches.
pub open spec fn buffer_page_count(ptr: u64, len: u64) -> int {
    if len == 0 {
        0
    } else {
        (ptr + len - 1) / 4096 - ptr / 4096 + 1
    }
}

/// The pieces of the user buffer `ptr..ptr + len`, page by page: the frame
/// each page maps to, and the part of the page the buffer covers.
pub open spec fn buffer_slices(m: Seq<Seq<u64>>, token: u64, ptr: u64, len: u64) -> Seq<PageSlice> {
    let first = ptr / 4096;
    let count = buffer_page_count(ptr, len);
    Seq::new(count as nat, |k: int| PageSlice {
        ppn: PhysPageNum(pte_ppn(translation(m, token_root(token), (first + k) as u64).unwrap())),
        start: if k == 0 { (ptr % 4096) as u64 } else { 0u64 },
        end: if k == count - 1 { ((ptr + len - 1) % 4096 + 1) as u64 } else { 4096u64 },
    })
}

/// The number of bytes the slices `s` cover together.
pub open spec fn slices_len(s: Seq<PageSlice>) -> int
    decreases s.len(),
{
    if s.len() == 0 {
        0
    } else {
        slices_len(s.drop_last()) + s.last().end - s.last().start
    }
}

/// The first `j` slices of a buffer of more than `j` pages cover the bytes
/// from `ptr` to the end of its `j`-th page.
proof fn lemma_slices_prefix_len(m: Seq<Seq<u64>>, token: u64, ptr: u64, len: u64, j: int)
    requires
        len > 0,
        1 <= j <= buffer_page_count(ptr, len),
    ensures
        slices_len(buffer_slices(m, token, ptr, len).take(j)) == if j < buffer_page_count(ptr, len) {
            (ptr / 4096 + j) * 4096 - ptr
        } else {
            len as int
        },
    decreases j,
{
    let s = buffer_slices(m, token, ptr, len);
    let count = buffer_page_count(ptr, len);
    let first = ptr / 4096;
    let last = (ptr + len - 1) / 4096;
    assert(ptr == first * 4096 + ptr % 4096);
    assert(ptr + len - 1 == last * 4096 + (ptr + len - 1) % 4096);
    assert(s.take(j).drop_last() =~= s.take(j - 1));
    assert(s.take(j).last() == s[j - 1]);
    assert(slices_len(s.take(j)) == slices_len(s.take(j - 1)) + s[j - 1].end - s[j - 1].start);
    let e = if j - 1 == count - 1 { (ptr + len - 1) % 4096 + 1 } else { 4096 };
    assert(s[j - 1].end == e);
    if j > 1 {
        lemma_slices_prefix_len(m, token, ptr, len, j - 1);
        assert(s[j - 1].start == 0);
    } else {
        assert(slices_len(s.take(0)) == 0);
        assert(s[0].start == ptr % 4096);
    }
}

/// The slices of a user buffer cover exactly its bytes: one slice per page
/// it touches, in page order, each naming the frame its page maps to; the
/// first starts at the buffer's offset in its page, the last ends right
/// after its last byte, the ones between cover whole pages, and together
/// they hold `len` bytes.
pub proof fn lemma_buffer_slices_cover_buffer(m: Seq<Seq<u64>>, token: u64, ptr: u64, len: u64)
    ensures
        len == 0 ==> buffer_slices(m, token, ptr, len).len() == 0,
        len > 0 ==> buffer_slices(m, token, ptr, len).len() == (ptr + len - 1) / 4096 - ptr / 4096 + 1,
        len > 0 ==> buffer_slices(m, token, ptr, len)[0].start == ptr % 4096,
        len > 0 ==> buffer_slices(m, token, ptr, len).last().end == (ptr + len - 1) % 4096 + 1,
        forall|k: int| 0 < k < buffer_slices(m, token, ptr, len).len() ==> #[trigger] buffer_slices(m, token, ptr,
            len)[k].start == 0,
        forall|k: int| 0 <= k < buffer_slices(m, token, ptr, len).len() - 1 ==> #[trigger] buffer_slices(m, token, ptr,
            len)[k].end == 4096,
        forall|k: int| 0 <= k < buffer_slices(m, token, ptr, len).len() ==> (#[trigger] buffer_slices(m, token, ptr,
            len)[k]).ppn.0 == pte_ppn(translation(m, token_root(token), (ptr / 4096 + k) as u64).unwrap()),
        forall|k: int| 0 <= k < buffer_slices(m, token, ptr, len).len() ==> (#[trigger] buffer_slices(m, token, ptr,
            len)[k]).start < buffer_slices(m, token, ptr, len)[k].end <= 4096,
        slices_len(buffer_slices(m, token, ptr, len)) == len,
{
    let s = buffer_slices(m, token, ptr, len);
    let count = buffer_page_count(ptr, len);
    if len > 0 {
        let first = ptr / 4096;
        let last = (ptr + len - 1) / 4096;
        assert(ptr == first * 4096 + ptr % 4096);
        assert(ptr + len - 1 == last * 4096 + (ptr + len - 1) % 4096);
        assert(first <= last);
        lemma_slices_prefix_len(m, token, ptr, len, count);
        assert(s.take(count) =~= s);
        assert forall|k: int| 0 <= k < s.len() implies (#[trigger] s[k]).start < s[k].end <= 4096 by {
            if k == 0 && k == count - 1 {
                assert(first == last);
            }
        }
    }
}

/// Every page of the buffer `ptr..ptr + len` has an entry, reached within
/// memory.
pub open spec fn buffer_mapped(m: Seq<Seq<u64>>, token: u64, ptr: u64, len: u64) -> bool {
    forall|p: u64| ptr / 4096 <= p < ptr / 4096 + buffer_page_count(ptr, len)
        ==> walk_in_bounds(m, token_root(token), p) && #[trigger] translation(m, token_root(token), p) is Some
}

proof fn lemma_page_step(ptr: u64, end: u64, k: int, start: int)
    requires
        ptr < end,
        k >= 0,
        start == if k == 0 { ptr as int } else { (ptr / 4096 + k) * 4096 },
        start < end,
    ensures
        start / 4096 == ptr / 4096 + k,
        start % 4096 == if k == 0 { ptr % 4096 } else { 0 },
        ptr / 4096 + k <= (end - 1) / 4096,
        (end - 1) / 4096 == ptr / 4096 + k <==> end <= (ptr / 4096 + k + 1) * 4096,
        end <= (ptr / 4096 + k + 1) * 4096 ==> (end % 4096 == 0 <==> (end - 1) % 4096 + 1 == 4096)
            && (end % 4096 != 0 ==> end % 4096 == (end - 1) % 4096 + 1),
        start < (ptr / 4096 + k + 1) * 4096,
{
    let f = ptr / 4096;
    assert(ptr == f * 4096 + ptr % 4096 && 0 <= ptr % 4096 < 4096) by (nonlinear_arith)
        requires f == ptr / 4096;
    if k == 0 {
        assert(start / 4096 == f && start % 4096 == ptr % 4096) by (nonlinear_arith)
            requires start == ptr, f == ptr / 4096;
    } else {
        assert(start / 4096 == f + k && start % 4096 == 0) by (nonlinear_arith)
            requires start == (f + k) * 4096, f + k >= 0;
    }
    let e = end - 1;
    assert(e == (e / 4096) * 4096 + e % 4096 && 0 <= e % 4096 < 4096) by (nonlinear_arith)
        requires e >= 0;
    assert(start / 4096 <= e / 4096) by (nonlinear_arith)
        requires start <= e, start >= 0;
    assert(((end - 1) / 4096 == f + k) <==> end <= (f + k + 1) * 4096) by (nonlinear_arith)
        requires e == end - 1, e == (e / 4096) * 4096 + e % 4096, 0 <= e % 4096 < 4096, f + k <= e / 4096;
    assert(end % 4096 == (e % 4096 + 1) % 4096) by (nonlinear_arith)
        requires e == end - 1, e >= 0;
    assert(start < (f + k + 1) * 4096) by (nonlinear_arith)
        requires start / 4096 == f + k, start >= 0;
}

/// Translate a user buffer `ptr..ptr + len` through the page table named by
/// `token` into the slices of frames that hold it, page by page.
pub fn translated_byte_buffer(mem: &PhysMemory, token: u64, ptr: u64, len: u64) -> (v: Vec<PageSlice>)
    requires
        mem.wf(),
        ptr + len < 0x80_0000_0000,
        buffer_mapped(mem@, token, ptr, len),
    ensures
        v@ == buffer_slices(mem@, token, ptr, len),
{
    let page_table = PageTable::from_token(token);
    let mut start = ptr;
    let end = ptr + len;
    let mut v: Vec<PageSlice> = Vec::new();
    let ghost slices = buffer_slices(mem@, token, ptr, len);
    let ghost count = buffer_page_count(ptr, len);
    while start < end
        invariant
            mem.wf(),
            ptr + len < 0x80_0000_0000,
            end == ptr + len,
            page_table.root_ppn.0 == token_root(token),
            buffer_mapped(mem@, token, ptr, len),
            slices == buffer_slices(mem@, token, ptr, len),
            count == buffer_page_count(ptr, len),
            ptr <= start <= end,
            v@.len() <= count,
            v@.len() == 0 ==> start == ptr,
            v@.len() > 0 && start < end ==> start == (ptr / 4096 + v@.len()) * 4096,
            start < end ==> v@.len() < count,
            start == end ==> v@.len() == count,
            v@ == slices.take(v@.len() as int),
        decreases end - start,
    {
        let ghost k = v@.len() as int;
        proof {
            lemma_page_step(ptr, end, k, start as int);
        }
        let start_va = VirtAddr::from_raw(start);
        assert(start & 0x7f_ffff_ffffu64 == start) by (bit_vector)
            requires start < 0x80_0000_0000;
        let mut vpn = start_va.floor();
        assert(walk_in_bounds(mem@, token_root(token), vpn.0) && translation(mem@, token_root(token), vpn.0) is Some);
        let ppn = page_table.translate(mem, vpn).unwrap().ppn();
        vpn.step();
        let mut end_va = VirtAddr::from_vpn(vpn);
        let end_cap = VirtAddr::from_raw(end);
        assert(end & 0x7f_ffff_ffffu64 == end) by (bit_vector)
            requires end < 0x80_0000_0000;
        if end_cap.0 < end_va.0 {
            end_va = end_cap;
        }
        let slice = if end_va.page_offset() == 0 {
            PageSlice { ppn, start: start_va.page_offset(), end: 4096 }
        } else {
            PageSlice { ppn, start: start_va.page_offset(), end: end_va.page_offset() }
        };
        v.push(slice);
        proof {
            assert(slice == slices[k]);
            assert(v@ =~= slices.take(k + 1));
        }
        start = end_va.0;
    }
    assert(v@ =~= slices);
    v
}


/// A line of a page-table dump.
#[derive(Copy, Clone, Debug, PartialEq, Eq, Structural)]
pub enum DumpLine {
    /// A valid entry: its level, its index, its bits, the frame it names.
    Entry { level: u64, idx: u64, bits: u64, ppn: u64 },
    /// A leaf entry maps `va_start..va_end` to `pa_start..pa_end`.
    Leaf { va_start: u64, va_end: u64, pa_start: u64, pa_end: u64 },
    /// A valid entry of the last level that is not a leaf.
    NonLeafAtLevelZero,
}

/// An entry with one of R, W and X set maps memory; others point at tables.
pub open spec fn pte_is_leaf(bits: u64) -> bool {
    pte_has(bits, 2) || pte_has(bits, 4) || pte_has(bits, 8)
}

/// The page-number prefix of the entries below entry `idx` of a table at
/// `level` whose own prefix is `prefix`.
pub open spec fn next_prefix(prefix: u64, idx: int, level: nat) -> u64 {
    prefix | ((idx as u64) << (9 * level) as u64)
}

/// Bytes mapped by a leaf at `level`.
pub open spec fn level_size(level: nat) -> int {
    if level == 0 { 0x1000 } else if level == 1 { 0x20_0000 } else { 0x4000_0000 }
}

/// The lines for entry `idx` of the table `t` at `level`.
pub open spec fn dump_entry(m: Seq<Seq<u64>>, t: int, level: nat, prefix: u64, idx: int) -> Seq<DumpLine>
    decreases level, idx, 0int,
{
    let bits = entry(m, t, idx);
    if !pte_valid(bits) {
        Seq::empty()
    } else {
        let child = pte_ppn(bits);
        let next = next_prefix(prefix, idx, level);
        let head = seq![DumpLine::Entry { level: level as u64, idx: idx as u64, bits, ppn: child }];
        if pte_is_leaf(bits) {
            let va = next as int * 4096;
            let pa = child as int * 4096;
            head.push(DumpLine::Leaf {
                va_start: va as u64,
                va_end: (va + level_size(level)) as u64,
                pa_start: pa as u64,
                pa_end: (pa + level_size(level)) as u64,
            })
        } else if level > 0 {
            head + dump_upto(m, child as int, (level - 1) as nat, next, 512)
        } else {
            head.push(DumpLine::NonLeafAtLevelZero)
        }
    }
}

/// The lines for entries `0..n` of the table `t` at `level`.
pub open spec fn dump_upto(m: Seq<Seq<u64>>, t: int, level: nat, prefix: u64, n: int) -> Seq<DumpLine>
    decreases level, n, 1int,
{
    if n <= 0 {
        Seq::empty()
    } else {
        dump_upto(m, t, level, prefix, n - 1) + dump_entry(m, t, level, prefix, n - 1)
    }
}

/// Every table the dump of `t` at `level` visits lies in memory.
pub open spec fn dump_in_bounds(m: Seq<Seq<u64>>, t: int, level: nat) -> bool
    decreases level,
{
    &&& 0 <= t < m.len()
    &&& level > 0 ==> forall|i: int| 0 <= i < 512 && pte_valid(#[trigger] entry(m, t, i)) && !pte_is_leaf(entry(m, t, i))
        ==> dump_in_bounds(m, pte_ppn(entry(m, t, i)) as int, (level - 1) as nat)
}

/// A tree-shaped page table can be dumped from its root.
pub proof fn lemma_tree_dump_in_bounds(m: Seq<Seq<u64>>, root: int)
    requires
        tree_shaped(m, root),
    ensures
        dump_in_bounds(m, root, 2),
{
    assert forall|i: int| 0 <= i < 512 && pte_valid(#[trigger] entry(m, root, i)) && !pte_is_leaf(entry(m, root, i))
        implies dump_in_bounds(m, pte_ppn(entry(m, root, i)) as int, 1) by {
        assert(path_valid1(m, root, i));
        let c = level1_table(m, root, i);
        assert(0 <= c < m.len());
        assert forall|j: int| 0 <= j < 512 && pte_valid(#[trigger] entry(m, c, j)) && !pte_is_leaf(entry(m, c, j))
            implies dump_in_bounds(m, pte_ppn(entry(m, c, j)) as int, 0) by {
            assert(path_valid0(m, root, i, j));
            assert(0 <= level0_table(m, root, i, j) < m.len());
        }
    }
}

/// dump the table at `table_ppn`, of `level` (2 is the root), whose
/// entries cover the page numbers starting with `vpn_prefix`
pub fn dump_page_table_level(mem: &PhysMemory, table_ppn: PhysPageNum, level: u64, vpn_prefix: u64) -> (v: Vec<DumpLine>)
    requires
        mem.wf(),
        level <= 2,
        vpn_prefix < 0x800_0000,
        dump_in_bounds(mem@, table_ppn.0 as int, level as nat),
    ensures
        v@ == dump_upto(mem@, table_ppn.0 as int, level as nat, vpn_prefix, 512),
    decreases level,
{
    let mut v: Vec<DumpLine> = Vec::new();
    let mut idx: usize = 0;
    let ghost m = mem@;
    let ghost t = table_ppn.0 as int;
    while idx < 512
        invariant
            m == mem@,
            t == table_ppn.0 as int,
            mem.wf(),
            level <= 2,
            vpn_prefix < 0x800_0000,
            dump_in_bounds(m, t, level as nat),
            idx <= 512,
            v@ == dump_upto(m, t, level as nat, vpn_prefix, idx as int),
        decreases 512 - idx,
    {
        let pte = PageTableEntry { bits: mem.read_word(table_ppn.0, idx) };
        let ghost before = v@;
        if pte.is_valid() {
            let child_ppn = pte.ppn();
            let i = idx as u64;
            let shift = level * 9;
            let next_vpn_prefix = vpn_prefix | (i << shift);
            assert(next_vpn_prefix < 0x800_0000) by (bit_vector)
                requires
                    next_vpn_prefix == vpn_prefix | (i << shift),
                    vpn_prefix < 0x800_0000,
                    i < 512,
                    shift <= 18;
            let is_leaf = pte.readable() || pte.writable() || pte.executable();
            v.push(DumpLine::Entry { level, idx: i, bits: pte.bits, ppn: child_ppn.0 });
            if is_leaf {
                let va_start = next_vpn_prefix << 12;
                let size: u64 = 1u64 << (12 + level * 9);
                let ghost lvl = level;
                assert(va_start == next_vpn_prefix * 4096) by (bit_vector)
                    requires va_start == next_vpn_prefix << 12, next_vpn_prefix < 0x800_0000;
                assert(size == level_size(level as nat)) by {
                    if lvl == 0 {
                        assert(1u64 << 12u64 == 0x1000) by (bit_vector);
                    } else if lvl == 1 {
                        assert(1u64 << 21u64 == 0x20_0000) by (bit_vector);
                    } else {
                        assert(1u64 << 30u64 == 0x4000_0000) by (bit_vector);
                    }
                }
                let va_end = va_start + size;
                let cp = child_ppn.0;
                let pa_start = cp << 12;
                assert(pa_start == cp * 4096) by (bit_vector)
                    requires pa_start == cp << 12, cp < 0x1000_0000_0000;
                let pa_end = pa_start + size;
                v.push(DumpLine::Leaf { va_start, va_end, pa_start, pa_end });
            } else if level > 0 {
                proof {
                    assert(dump_in_bounds(m, pte_ppn(entry(m, t, idx as int)) as int, (level - 1) as nat));
                }
                let mut sub = dump_page_table_level(mem, child_ppn, level - 1, next_vpn_prefix);
                v.append(&mut sub);
            } else {
                v.push(DumpLine::NonLeafAtLevelZero);
            }
            proof {
                assert(next_vpn_prefix == next_prefix(vpn_prefix, idx as int, level as nat));
                assert(v@ =~= before + dump_entry(m, t, level as nat, vpn_prefix, idx as int));
            }
        } else {
            proof {
                assert(dump_entry(m, t, level as nat, vpn_prefix, idx as int) =~= Seq::<DumpLine>::empty());
                assert(v@ =~= before + dump_entry(m, t, level as nat, vpn_prefix, idx as int));
            }
        }
        idx = idx + 1;
    }
    v
}

/// The character shown for a flag: its letter when set, `-` otherwise.
pub fn flag_char(cond: bool, c: char) -> (r: char)
    ensures
        r == if cond { c } else { '-' },
{
    if cond {
        c
    } else {
        '-'
    }
}

/// The eight flags of an entry as letters, `VRWXUGAD`, with `-` for each
/// flag not set.
pub fn dump_flags(flags: PTEFlags) -> (r: [char; 8])
    ensures
        r@ == seq![
            if flags.bits & 1 != 0 { 'V' } else { '-' },
            if flags.bits & 2 != 0 { 'R' } else { '-' },
            if flags.bits & 4 != 0 { 'W' } else { '-' },
            if flags.bits & 8 != 0 { 'X' } else { '-' },
            if flags.bits & 16 != 0 { 'U' } else { '-' },
            if flags.bits & 32 != 0 { 'G' } else { '-' },
            if flags.bits & 64 != 0 { 'A' } else { '-' },
            if flags.bits & 128 != 0 { 'D' } else { '-' },
        ],
{
    let b = flags.bits;
    let r = [
        flag_char(flags.contains(PTEFlags { bits: PTEFlags::V }), 'V'),
        flag_char(flags.contains(PTEFlags { bits: PTEFlags::R }), 'R'),
        flag_char(flags.contains(PTEFlags { bits: PTEFlags::W }), 'W'),
        flag_char(flags.contains(PTEFlags { bits: PTEFlags::X }), 'X'),
        flag_char(flags.contains(PTEFlags { bits: PTEFlags::U }), 'U'),
        flag_char(flags.contains(PTEFlags { bits: PTEFlags::G }), 'G'),
        flag_char(flags.contains(PTEFlags { bits: PTEFlags::A }), 'A'),
        flag_char(flags.contains(PTEFlags { bits: PTEFlags::D }), 'D'),
    ];
    assert((b & 1u8 == 1u8) == (b & 1u8 != 0) && (b & 2u8 == 2u8) == (b & 2u8 != 0) && (b & 4u8 == 4u8) == (b & 4u8
        != 0) && (b & 8u8 == 8u8) == (b & 8u8 != 0) && (b & 16u8 == 16u8) == (b & 16u8 != 0) && (b & 32u8 == 32u8) == (b
        & 32u8 != 0) && (b & 64u8 == 64u8) == (b & 64u8 != 0) && (b & 128u8 == 128u8) == (b & 128u8 != 0)) by (bit_vector);
    assert(r@ =~= seq![
        if flags.bits & 1 != 0 { 'V' } else { '-' },
        if flags.bits & 2 != 0 { 'R' } else { '-' },
        if flags.bits & 4 != 0 { 'W' } else { '-' },
        if flags.bits & 8 != 0 { 'X' } else { '-' },
        if flags.bits & 16 != 0 { 'U' } else { '-' },
        if flags.bits & 32 != 0 { 'G' } else { '-' },
        if flags.bits & 64 != 0 { 'A' } else { '-' },
        if flags.bits & 128 != 0 { 'D' } else { '-' },
    ]);
    r
}

} // verus!
