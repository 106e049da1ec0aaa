//! Process management syscalls
use vstd::prelude::*;
use crate::mm::memory::{PhysMemory, byte_of, mem_with_byte};
use crate::mm::page_table::{PageSlice, translation, token_root, pte_ppn, buffer_mapped, buffer_slices,
    buffer_page_count, translated_byte_buffer, read_translated_byte, write_translated_byte, readable_byte,
    writable_at, data_frame, va_offset, user_access_in_bounds};

verus! {

/// Seconds and microseconds, laid out as two machine words.
#[derive(Copy, Clone, Debug, PartialEq, Eq, Structural)]
pub struct TimeVal {
    pub sec: usize,
    pub usec: usize,
}

impl TimeVal {
    /// The time `us` microseconds after the start.
    pub fn from_us(us: usize) -> (r: Self)
        ensures
            r.sec == us / 1_000_000,
            r.usec == us % 1_000_000,
    {
        TimeVal { sec: us / 1_000_000, usec: us % 1_000_000 }
    }
}

/// The result of `sbrk`, given the old break that changing the program
/// break returned: the old break, or -1 when it could not change.
pub fn sys_sbrk(old_brk: Option<usize>) -> (r: isize)
    ensures
        r == match old_brk {
            Some(b) => b as isize,
            None => -1isize,
        },
{
    if let Some(old_brk) = old_brk {
        #[verifier::truncate] (old_brk as isize)
    } else {
        -1
    }
}


impl TimeVal {
    /// The bytes of the time as the user sees it: seconds, then
    /// microseconds, each a little-endian 64-bit word.
    pub open spec fn bytes_spec(self) -> Seq<u8> {
        Seq::new(16, |i: int| if i < 8 { byte_of(self.sec as u64, i as u64) } else { byte_of(self.usec as u64, (i - 8) as u64) })
    }

    /// The bytes of the time as the user sees it.
    pub fn to_bytes(&self) -> (r: Vec<u8>)
        ensures
            r@ == self.bytes_spec(),
    {
        let mut r: Vec<u8> = Vec::new();
        let words: [u64; 2] = [self.sec as u64, self.usec as u64];
        let mut i: usize = 0;
        while i < 16
            invariant
                i <= 16,
                words@[0] == self.sec as u64,
                words@[1] == self.usec as u64,
                r@ == self.bytes_spec().take(i as int),
            decreases 16 - i,
        {
            let w = words[i / 8];
            let k = (i % 8) as u64;
            let b = (w >> (8 * k)) & 0xff;
            assert(b < 256) by (bit_vector)
                requires b == (w >> (8 * k)) & 0xff;
            r.push(b as u8);
            proof {
                assert(r@ =~= self.bytes_spec().take(i as int + 1));
            }
            i = i + 1;
        }
        r
    }
}

/// Where byte `i` of the user buffer at `ptr` lies in memory `m`: the frame
/// its page maps to, and its offset.
pub open spec fn user_byte_target(m: Seq<Seq<u64>>, token: u64, ptr: u64, i: int) -> (int, int) {
    (pte_ppn(translation(m, token_root(token), ((ptr + i) / 4096) as u64).unwrap()) as int, (ptr + i) % 4096)
}

/// `m` after writing the first `n` of `bytes`, byte `i` at the place where
/// `m0` maps the user address `ptr + i`.
pub open spec fn with_user_bytes(m: Seq<Seq<u64>>, m0: Seq<Seq<u64>>, token: u64, ptr: u64, bytes: Seq<u8>, n: int) -> Seq<Seq<u64>>
    decreases n,
{
    if n <= 0 {
        m
    } else {
        let t = user_byte_target(m0, token, ptr, n - 1);
        mem_with_byte(with_user_bytes(m, m0, token, ptr, bytes, n - 1), t.0, t.1, bytes[n - 1])
    }
}

/// Every page of the buffer maps to a frame in memory.
pub open spec fn buffer_frames_in_memory(m: Seq<Seq<u64>>, token: u64, ptr: u64, len: u64) -> bool {
    forall|p: u64| ptr / 4096 <= p < ptr / 4096 + buffer_page_count(ptr, len)
        ==> pte_ppn(#[trigger] translation(m, token_root(token), p).unwrap()) < m.len()
}

proof fn lemma_slice_math(ptr: u64, len: u64, k: int)
    requires
        len > 0,
        0 <= k < buffer_page_count(ptr, len),
    ensures
        ({
            let f = ptr / 4096;
            let count = buffer_page_count(ptr, len);
            let base = (f + k) * 4096;
            let s = if k == 0 { ptr % 4096 } else { 0 };
            let e = if k == count - 1 { (ptr + len - 1) % 4096 + 1 } else { 4096 };
            &&& base + s == if k == 0 { ptr as int } else { base }
            &&& base + e == if k == count - 1 { ptr + len } else { base + 4096 }
            &&& k < count - 1 ==> base + 4096 < ptr + len
            &&& 0 <= s < e <= 4096
            &&& forall|off: int| 0 <= off < 4096 ==> #[trigger] ((base + off) / 4096) == f + k && (base + off) % 4096 == off
        }),
{
    let f = ptr / 4096;
    let count = buffer_page_count(ptr, len);
    let base = (f + k) * 4096;
    let e1 = ptr + len - 1;
    assert(ptr == f * 4096 + ptr % 4096 && 0 <= ptr % 4096 < 4096) by (nonlinear_arith)
        requires f == ptr / 4096;
    assert(e1 == (e1 / 4096) * 4096 + e1 % 4096 && 0 <= e1 % 4096 < 4096) by (nonlinear_arith)
        requires e1 >= 0;
    assert(count == e1 / 4096 - f + 1);
    assert forall|off: int| 0 <= off < 4096 implies #[trigger] ((base + off) / 4096) == f + k && (base + off) % 4096
        == off by {
        assert((base + off) / 4096 == f + k && (base + off) % 4096 == off) by (nonlinear_arith)
            requires base == (f + k) * 4096, 0 <= off < 4096, f + k >= 0;
    }
    assert((f + k) * 4096 + 4096 == (f + k + 1) * 4096) by (nonlinear_arith);
    if k < count - 1 {
        assert((f + k + 1) * 4096 <= (e1 / 4096) * 4096) by (nonlinear_arith)
            requires f + k + 1 <= e1 / 4096;
    }
    if k == count - 1 && k > 0 {
        assert(ptr < base) by (nonlinear_arith)
            requires ptr == f * 4096 + ptr % 4096, ptr % 4096 < 4096, base == (f + k) * 4096, k >= 1;
    }
    if k == count - 1 {
        assert(base == (e1 / 4096) * 4096);
    }
}

/// Copies `bytes` to the user buffer at `ptr`, page by page, through the
/// page table named by `token`; the places are found before any byte is
/// written.
pub fn copy_to_user(mem: &mut PhysMemory, token: u64, ptr: u64, bytes: &Vec<u8>)
    requires
        old(mem).wf(),
        ptr + bytes@.len() < 0x80_0000_0000,
        buffer_mapped(old(mem)@, token, ptr, bytes@.len() as u64),
        buffer_frames_in_memory(old(mem)@, token, ptr, bytes@.len() as u64),
    ensures
        final(mem).wf(),
        final(mem)@ == with_user_bytes(old(mem)@, old(mem)@, token, ptr, bytes@, bytes@.len() as int),
{
    let ghost m0 = mem@;
    let len = bytes.len() as u64;
    let buffers = translated_byte_buffer(mem, token, ptr, len);
    let ghost slices = buffer_slices(m0, token, ptr, len);
    let ghost f = ptr / 4096;
    let ghost count = buffer_page_count(ptr, len);
    let mut written: usize = 0;
    let mut k: usize = 0;
    while k < buffers.len()
        invariant
            mem.wf(),
            mem@.len() == m0.len(),
            buffers@ == slices,
            slices == buffer_slices(m0, token, ptr, len),
            count == buffer_page_count(ptr, len),
            f == ptr / 4096,
            len == bytes@.len(),
            ptr + len < 0x80_0000_0000,
            buffer_mapped(m0, token, ptr, len),
            buffer_frames_in_memory(m0, token, ptr, len),
            k <= buffers@.len(),
            written <= len,
            k == 0 ==> written == 0,
            0 < k < count ==> ptr + written == (f + k) * 4096 && written < len,
            k == count ==> written == len,
            mem@ == with_user_bytes(m0, m0, token, ptr, bytes@, written as int),
        decreases buffers@.len() - k,
    {
        let b = buffers[k];
        proof {
            lemma_slice_math(ptr, len, k as int);
            assert(b == slices[k as int]);
            assert(translation(m0, token_root(token), (f + k) as u64) is Some);
            assert(pte_ppn(translation(m0, token_root(token), (f + k) as u64).unwrap()) < m0.len());
        }
        let mut off = b.start;
        while off < b.end && written < bytes.len()
            invariant
                mem.wf(),
                mem@.len() == m0.len(),
                b == slices[k as int],
                k < count,
                b.ppn.0 == pte_ppn(translation(m0, token_root(token), (f + k) as u64).unwrap()),
                b.ppn.0 < m0.len(),
                f == ptr / 4096,
                len == bytes@.len(),
                b.start <= off <= b.end <= 4096,
                ptr + written == (f + k) * 4096 + off,
                written <= len,
                forall|o: int| 0 <= o < 4096 ==> #[trigger] (((f + k) * 4096 + o) / 4096) == f + k && ((f + k) * 4096 + o) % 4096 == o,
                mem@ == with_user_bytes(m0, m0, token, ptr, bytes@, written as int),
            decreases b.end - off,
        {
            proof {
                assert((((f + k) * 4096 + off) / 4096) == f + k);
                assert(user_byte_target(m0, token, ptr, written as int) == (b.ppn.0 as int, off as int));
            }
            mem.write_byte(b.ppn.0, off, bytes[written]);
            off = off + 1;
            written = written + 1;
        }
        if written >= bytes.len() {
            proof {
                if k + 1 < count {
                    assert(false);
                }
            }
            k = buffers.len();
        } else {
            k = k + 1;
        }
    }
    proof {
        if len == 0 {
            assert(written == 0);
        }
    }
}

/// get time with second and microsecond: writes the time `us` microseconds
/// after the start to the user's `TimeVal` at `ts`, even across a page
/// boundary. Returns 0.
pub fn sys_get_time(mem: &mut PhysMemory, token: u64, ts: u64, us: usize) -> (r: isize)
    requires
        old(mem).wf(),
        ts + 16 < 0x80_0000_0000,
        buffer_mapped(old(mem)@, token, ts, 16),
        buffer_frames_in_memory(old(mem)@, token, ts, 16),
    ensures
        final(mem).wf(),
        final(mem)@ == with_user_bytes(old(mem)@, old(mem)@, token, ts, TimeVal::from_us_spec(us).bytes_spec(), 16),
        r == 0,
{
    let tv = TimeVal::from_us(us);
    let bytes = tv.to_bytes();
    copy_to_user(mem, token, ts, &bytes);
    0
}

impl TimeVal {
    pub open spec fn from_us_spec(us: usize) -> TimeVal {
        TimeVal { sec: (us / 1_000_000) as usize, usec: (us % 1_000_000) as usize }
    }
}

/// trace: 0 reads the user byte at `id`, 1 writes `data`'s low byte there,
/// 2 gives `syscall_count`, the count of calls of syscall `id` by the
/// current task; anything else gives -1.
pub fn sys_trace(mem: &mut PhysMemory, token: u64, trace_request: usize, id: usize, data: usize, syscall_count: usize) -> (r: isize)
    requires
        old(mem).wf(),
        trace_request == 0 || trace_request == 1 ==> user_access_in_bounds(old(mem)@, token, id as u64),
    ensures
        final(mem).wf(),
        trace_request == 0 ==> r == readable_byte(old(mem)@, token, id as u64) && final(mem)@ == old(mem)@,
        trace_request == 1 ==> {
            &&& writable_at(old(mem)@, token, id as u64) ==> r == 0 && final(mem)@ == mem_with_byte(old(mem)@,
                data_frame(old(mem)@, token, id as u64), va_offset(id as u64), data as u8)
            &&& !writable_at(old(mem)@, token, id as u64) ==> r == -1 && final(mem)@ == old(mem)@
        },
        trace_request == 2 ==> r == syscall_count as isize && final(mem)@ == old(mem)@,
        trace_request > 2 ==> r == -1 && final(mem)@ == old(mem)@,
{
    match trace_request {
        0 => read_translated_byte(mem, token, id as u64),
        1 => write_translated_byte(mem, token, id as u64, #[verifier::truncate] (data as u8)),
        2 => #[verifier::truncate] (syscall_count as isize),
        _ => -1,
    }
}

/// The time written for `us` microseconds is whole seconds and the
/// microseconds left over: `sec * 1_000_000 + usec == us` with
/// `usec < 1_000_000`; the user sees the seconds in the first eight bytes
/// and the microseconds in the next eight, each least significant first.
pub proof fn lemma_time_val_of_us(us: usize)
    ensures
        TimeVal::from_us_spec(us).sec * 1_000_000 + TimeVal::from_us_spec(us).usec == us,
        TimeVal::from_us_spec(us).usec < 1_000_000,
        TimeVal::from_us_spec(us).sec == us / 1_000_000,
        TimeVal::from_us_spec(us).bytes_spec().len() == 16,
        forall|i: int| 0 <= i < 8 ==> #[trigger] TimeVal::from_us_spec(us).bytes_spec()[i] == byte_of((us / 1_000_000) as u64,
            i as u64),
        forall|i: int| 8 <= i < 16 ==> #[trigger] TimeVal::from_us_spec(us).bytes_spec()[i] == byte_of((us % 1_000_000) as u64,
            (i - 8) as u64),
{
}

} // verus!
