//! A flat, paged address space and the block operations on it.
//!
//! An address is an index into the bytes of [`Memory`]; address `0` is the null
//! pointer. The space consists of whole pages, so a read that stays inside the
//! page of a mapped byte is itself mapped.
use vstd::prelude::*;

verus! {

/// Bytes in one page.
pub const SCAN_PAGE: usize = 4096;

/// The bytes of the address space.
pub struct Memory {
    bytes: Vec<u8>,
}

/// A pointer argument together with what the allocation registry knows of it.
///
/// `remaining` is the number of bytes from `addr` to the end of the live
/// allocation that holds it, or `None` where the address is not tracked;
/// `owned` tells whether the allocator claims the address.
#[derive(Clone, Copy, Debug)]
pub struct Ptr {
    pub addr: usize,
    pub remaining: Option<usize>,
    pub owned: bool,
}

impl Ptr {
    pub open spec fn at(self) -> int {
        self.addr as int
    }

    pub open spec fn null(self) -> bool {
        self.addr == 0
    }

    /// Whether this is the null pointer.
    pub fn is_null(&self) -> (r: bool)
        ensures
            r == self.null(),
    {
        self.addr == 0
    }
}

impl View for Memory {
    type V = Seq<u8>;

    closed spec fn view(&self) -> Seq<u8> {
        self.bytes@
    }
}

/// `m` with the bytes `b` written from address `d` on.
pub open spec fn put(m: Seq<u8>, d: int, b: Seq<u8>) -> Seq<u8> {
    Seq::new(
        m.len(),
        |i: int|
            if d <= i < d + b.len() {
                b[i - d]
            } else {
                m[i]
            },
    )
}

/// The `n` bytes of `m` from address `a` on.
pub open spec fn block(m: Seq<u8>, a: int, n: int) -> Seq<u8> {
    Seq::new(n as nat, |i: int| m[a + i])
}

/// `n` copies of the byte `c`.
pub open spec fn filled(c: u8, n: int) -> Seq<u8> {
    Seq::new(n as nat, |i: int| c)
}

/// The `n` bytes from `a` on lie inside the address space.
pub open spec fn mapped(m: Seq<u8>, a: int, n: int) -> bool {
    0 <= a && 0 <= n && a + n <= m.len()
}

/// The two blocks of `n` bytes share an address.
pub open spec fn blocks_meet(a: int, b: int, n: int) -> bool {
    n > 0 && a < b + n && b < a + n
}

/// No address lies both in the `n` bytes at `a` and the `k` bytes at `b`.
pub open spec fn apart(a: int, n: int, b: int, k: int) -> bool {
    a + n <= b || b + k <= a || n <= 0 || k <= 0
}

/// Byte `k` of the word `w`, counted from the least significant one.
pub open spec fn lane(w: u64, k: int) -> u8 {
    ((w >> ((8 * k) as u64)) & 0xff) as u8
}

/// The word whose bytes, from the least significant one, are `b0` to `b7`.
fn word_of(b0: u8, b1: u8, b2: u8, b3: u8, b4: u8, b5: u8, b6: u8, b7: u8) -> (w: u64)
    ensures
        lane(w, 0) == b0,
        lane(w, 1) == b1,
        lane(w, 2) == b2,
        lane(w, 3) == b3,
        lane(w, 4) == b4,
        lane(w, 5) == b5,
        lane(w, 6) == b6,
        lane(w, 7) == b7,
{
    let w: u64 = (b0 as u64) | ((b1 as u64) << 8u64) | ((b2 as u64) << 16u64) | ((b3 as u64)
        << 24u64) | ((b4 as u64) << 32u64) | ((b5 as u64) << 40u64) | ((b6 as u64) << 48u64) | ((
    b7 as u64) << 56u64);
    assert(((w >> 0u64) & 0xff) as u8 == b0 && ((w >> 8u64) & 0xff) as u8 == b1 && ((w >> 16u64)
        & 0xff) as u8 == b2 && ((w >> 24u64) & 0xff) as u8 == b3 && ((w >> 32u64) & 0xff) as u8
        == b4 && ((w >> 40u64) & 0xff) as u8 == b5 && ((w >> 48u64) & 0xff) as u8 == b6 && ((w
        >> 56u64) & 0xff) as u8 == b7) by (bit_vector)
        requires
            w == (b0 as u64) | ((b1 as u64) << 8u64) | ((b2 as u64) << 16u64) | ((b3 as u64)
                << 24u64) | ((b4 as u64) << 32u64) | ((b5 as u64) << 40u64) | ((b6 as u64)
                << 48u64) | ((b7 as u64) << 56u64),
    ;
    w
}

/// Whether the eight bytes from `addr` on lie in one page.
pub fn wide_read_within_page(addr: usize) -> (r: bool)
    ensures
        r == (addr as int % SCAN_PAGE as int <= SCAN_PAGE - 8),
{
    assert(addr & 0xfff == addr % 4096) by (bit_vector);
    (addr & 0xfff) <= 0x1000 - 8
}

/// Whether the blocks of `len` bytes at `dst` and `src` share an address, with
/// the end of a block held at the top of the address range.
pub fn regions_overlap(dst: usize, src: usize, len: usize) -> (r: bool)
    ensures
        r == (len != 0 && dst < sat_sum(src, len) && src < sat_sum(dst, len)),
        dst + len <= usize::MAX && src + len <= usize::MAX ==> r == blocks_meet(
            dst as int,
            src as int,
            len as int,
        ),
{
    if len == 0 {
        return false;
    }
    dst < src.saturating_add(len) && src < dst.saturating_add(len)
}

/// The sum of two sizes, held at the largest size.
pub open spec fn sat_sum(a: usize, b: usize) -> usize {
    if a + b > usize::MAX {
        usize::MAX
    } else {
        (a + b) as usize
    }
}

impl Memory {
    #[verifier::type_invariant]
    spec fn whole_pages(&self) -> bool {
        self.bytes@.len() % 4096 == 0 && self.bytes@.len() <= usize::MAX / 2
    }

    /// A space of `pages` pages filled with zero bytes.
    pub fn new(pages: usize) -> (r: Memory)
        requires
            pages * SCAN_PAGE <= usize::MAX / 2,
        ensures
            r@ == filled(0, pages * SCAN_PAGE),
    {
        let n: usize = pages * SCAN_PAGE;
        let bytes: Vec<u8> = vec![0u8; n];
        assert(bytes@ =~= filled(0, pages * SCAN_PAGE));
        assert((pages * 4096) % 4096 == 0) by (nonlinear_arith);
        Memory { bytes }
    }

    /// The number of bytes in the space.
    pub fn size(&self) -> (r: usize)
        ensures
            r == self@.len(),
            r % SCAN_PAGE == 0,
            r <= usize::MAX / 2,
    {
        proof {
            use_type_invariant(self);
        }
        self.bytes.len()
    }

    /// The byte at `a`.
    pub fn load(&self, a: usize) -> (r: u8)
        requires
            a < self@.len(),
        ensures
            r == self@[a as int],
    {
        self.bytes[a]
    }

    /// Sets the byte at `a`.
    pub fn store(&mut self, a: usize, b: u8)
        requires
            a < old(self)@.len(),
        ensures
            final(self)@ == old(self)@.update(a as int, b),
    {
        proof {
            use_type_invariant(&*self);
        }
        self.bytes[a] = b;
    }

    /// The eight bytes at `a` as one little-endian word.
    pub fn word(&self, a: usize) -> (w: u64)
        requires
            a < self@.len(),
            a as int % SCAN_PAGE as int <= SCAN_PAGE - 8,
        ensures
            a + 8 <= self@.len(),
            forall|k: int| 0 <= k < 8 ==> #[trigger] lane(w, k) == self@[a + k],
    {
        let n: usize = self.size();
        assert(a + 8 <= n) by {
            let q = n as int / 4096;
            let p = a as int / 4096;
            assert(p < q) by (nonlinear_arith)
                requires
                    q == n as int / 4096,
                    p == a as int / 4096,
                    n as int % 4096 == 0,
                    a < n,
            ;
            assert(4096 * p + 4096 <= 4096 * q) by (nonlinear_arith)
                requires
                    p < q,
            ;
        }
        let b = &self.bytes;
        word_of(b[a], b[a + 1], b[a + 2], b[a + 3], b[a + 4], b[a + 5], b[a + 6], b[a + 7])
    }

    /// Whether the `n` bytes from `a` on lie inside the space.
    pub fn maps(&self, a: usize, n: usize) -> (r: bool)
        ensures
            r == mapped(self@, a as int, n as int),
    {
        let size: usize = self.size();
        a <= size && n <= size - a
    }

    /// Writes `b` from address `a` on.
    pub fn write(&mut self, a: usize, b: &[u8])
        requires
            mapped(old(self)@, a as int, b@.len() as int),
        ensures
            final(self)@ == put(old(self)@, a as int, b@),
    {
        let n: usize = b.len();
        let mut i: usize = 0;
        let size: usize = self.size();
        while i < n
            invariant
                i <= n,
                n == b@.len(),
                a + n <= size,
                size == self@.len(),
                self@ == put(old(self)@, a as int, b@.take(i as int)),
            decreases n - i,
        {
            self.store(a + i, b[i]);
            i += 1;
            assert(self@ =~= put(old(self)@, a as int, b@.take(i as int)));
        }
        assert(b@.take(n as int) =~= b@);
        assert(self@ =~= put(old(self)@, a as int, b@));
    }

    /// A copy of the `n` bytes from `a` on.
    pub fn read(&self, a: usize, n: usize) -> (r: Vec<u8>)
        requires
            mapped(self@, a as int, n as int),
        ensures
            r@ == block(self@, a as int, n as int),
    {
        let size: usize = self.size();
        let mut r: Vec<u8> = Vec::new();
        let mut i: usize = 0;
        while i < n
            invariant
                i <= n,
                a + n <= size,
                size == self@.len(),
                r@ == block(self@, a as int, i as int),
            decreases n - i,
        {
            r.push(self.load(a + i));
            i += 1;
            assert(r@ =~= block(self@, a as int, i as int));
        }
        r
    }
}

/// Copies `n` bytes from `src` to the block at `dst`, which it does not meet.
pub fn raw_memcpy_bytes(mem: &mut Memory, dst: usize, src: usize, n: usize)
    requires
        mapped(old(mem)@, dst as int, n as int),
        mapped(old(mem)@, src as int, n as int),
        !blocks_meet(dst as int, src as int, n as int),
    ensures
        final(mem)@ == put(old(mem)@, dst as int, block(old(mem)@, src as int, n as int)),
{
    let size: usize = mem.size();
    let mut i: usize = 0;
    while i < n
        invariant
            i <= n,
            dst + n <= size,
            src + n <= size,
            size == mem@.len(),
            !blocks_meet(dst as int, src as int, n as int),
            old(mem)@.len() == size,
            mem@ == put(old(mem)@, dst as int, block(old(mem)@, src as int, i as int)),
        decreases n - i,
    {
        let b: u8 = mem.load(src + i);
        mem.store(dst + i, b);
        i += 1;
        assert(mem@ =~= put(old(mem)@, dst as int, block(old(mem)@, src as int, i as int)));
    }
    assert(mem@ =~= put(old(mem)@, dst as int, block(old(mem)@, src as int, n as int)));
}

/// As [`raw_memcpy_bytes`].
pub fn bench_raw_memcpy_bytes(mem: &mut Memory, dst: usize, src: usize, n: usize)
    requires
        mapped(old(mem)@, dst as int, n as int),
        mapped(old(mem)@, src as int, n as int),
        !blocks_meet(dst as int, src as int, n as int),
    ensures
        final(mem)@ == put(old(mem)@, dst as int, block(old(mem)@, src as int, n as int)),
{
    raw_memcpy_bytes(mem, dst, src, n)
}

/// Moves `n` bytes from `src` to `dst`; the two blocks may meet.
///
/// Bytes go upwards where the destination starts at or below the source or
/// behind its end, and downwards otherwise.
pub fn raw_memmove_bytes(mem: &mut Memory, dst: usize, src: usize, n: usize)
    requires
        mapped(old(mem)@, dst as int, n as int),
        mapped(old(mem)@, src as int, n as int),
    ensures
        final(mem)@ == put(old(mem)@, dst as int, block(old(mem)@, src as int, n as int)),
{
    let size: usize = mem.size();
    if dst <= src || dst >= src + n {
        let mut i: usize = 0;
        while i < n
            invariant
                i <= n,
                dst + n <= size,
                src + n <= size,
                size == mem@.len(),
                dst <= src || dst >= src + n,
                old(mem)@.len() == size,
                mem@ == put(old(mem)@, dst as int, block(old(mem)@, src as int, i as int)),
            decreases n - i,
        {
            let b: u8 = mem.load(src + i);
            mem.store(dst + i, b);
            i += 1;
            assert(mem@ =~= put(old(mem)@, dst as int, block(old(mem)@, src as int, i as int)));
        }
        assert(mem@ =~= put(old(mem)@, dst as int, block(old(mem)@, src as int, n as int)));
    } else {
        let mut i: usize = n;
        while i > 0
            invariant
                i <= n,
                dst + n <= size,
                src + n <= size,
                size == mem@.len(),
                src < dst,
                old(mem)@.len() == size,
                mem@ == put(
                    old(mem)@,
                    dst + i,
                    block(old(mem)@, src + i, n - i),
                ),
            decreases i,
        {
            i -= 1;
            let b: u8 = mem.load(src + i);
            mem.store(dst + i, b);
            assert(mem@ =~= put(old(mem)@, dst + i, block(old(mem)@, src + i, n - i)));
        }
    }
}

/// As [`raw_memmove_bytes`].
pub fn bench_raw_memmove_bytes(mem: &mut Memory, dst: usize, src: usize, n: usize)
    requires
        mapped(old(mem)@, dst as int, n as int),
        mapped(old(mem)@, src as int, n as int),
    ensures
        final(mem)@ == put(old(mem)@, dst as int, block(old(mem)@, src as int, n as int)),
{
    raw_memmove_bytes(mem, dst, src, n)
}

/// Sets `n` bytes from `dst` on to `c`.
pub fn raw_memset_bytes(mem: &mut Memory, dst: usize, c: u8, n: usize)
    requires
        mapped(old(mem)@, dst as int, n as int),
    ensures
        final(mem)@ == put(old(mem)@, dst as int, filled(c, n as int)),
{
    let size: usize = mem.size();
    let mut i: usize = 0;
    while i < n
        invariant
            i <= n,
            dst + n <= size,
            size == mem@.len(),
            old(mem)@.len() == size,
            mem@ == put(old(mem)@, dst as int, filled(c, i as int)),
        decreases n - i,
    {
        mem.store(dst + i, c);
        i += 1;
        assert(mem@ =~= put(old(mem)@, dst as int, filled(c, i as int)));
    }
    assert(mem@ =~= put(old(mem)@, dst as int, filled(c, n as int)));
}

/// As [`raw_memset_bytes`].
pub fn bench_raw_memset_bytes(mem: &mut Memory, dst: usize, c: u8, n: usize)
    requires
        mapped(old(mem)@, dst as int, n as int),
    ensures
        final(mem)@ == put(old(mem)@, dst as int, filled(c, n as int)),
{
    raw_memset_bytes(mem, dst, c, n)
}

/// Moving a block of memory and then reading it back at the destination gives
/// the bytes that the source held before the move.
pub proof fn law_moved_block_reads_back(m: Seq<u8>, d: int, s: int, n: int)
    requires
        mapped(m, d, n),
        mapped(m, s, n),
    ensures
        block(put(m, d, block(m, s, n)), d, n) == block(m, s, n),
{
    assert(block(put(m, d, block(m, s, n)), d, n) =~= block(m, s, n));
}

/// A write leaves every address outside its block as it was.
pub proof fn law_write_keeps_the_rest(m: Seq<u8>, d: int, b: Seq<u8>, a: int, n: int)
    requires
        mapped(m, d, b.len() as int),
        mapped(m, a, n),
        a + n <= d || d + b.len() <= a,
    ensures
        block(put(m, d, b), a, n) == block(m, a, n),
        put(m, d, b).len() == m.len(),
{
    assert(block(put(m, d, b), a, n) =~= block(m, a, n));
}

/// Eight bytes that may be read at once lie in one page, so none of them is
/// missing where the first is mapped.
pub proof fn law_wide_read_stays_in_its_page(addr: int)
    requires
        addr >= 0,
        addr % SCAN_PAGE as int <= SCAN_PAGE - 8,
    ensures
        (addr + 7) / SCAN_PAGE as int == addr / SCAN_PAGE as int,
{
    let p = addr / 4096;
    assert(addr == 4096 * p + addr % 4096) by (nonlinear_arith)
        requires
            p == addr / 4096,
            addr >= 0,
    ;
    assert((addr + 7) / 4096 == p) by (nonlinear_arith)
        requires
            addr == 4096 * p + addr % 4096,
            addr % 4096 <= 4088,
            addr >= 0,
    ;
}

/// Writing bytes changes those addresses and no others, and reading them gives
/// them back.
pub proof fn law_written_bytes_read_back(m: Seq<u8>, d: int, b: Seq<u8>, i: int)
    requires
        mapped(m, d, b.len() as int),
    ensures
        put(m, d, b).len() == m.len(),
        block(put(m, d, b), d, b.len() as int) == b,
        0 <= i < m.len() && (i < d || d + b.len() <= i) ==> put(m, d, b)[i] == m[i],
        0 <= i < b.len() ==> put(m, d, b)[d + i] == b[i],
{
    assert(block(put(m, d, b), d, b.len() as int) =~= b);
}

/// A block is the bytes of memory from its address on, and a filled one holds the
/// byte at every place.
pub proof fn law_block_bytes(m: Seq<u8>, a: int, n: int, c: u8, i: int)
    requires
        0 <= i < n,
    ensures
        block(m, a, n).len() == n,
        block(m, a, n)[i] == m[a + i],
        filled(c, n).len() == n,
        filled(c, n)[i] == c,
{
}

} // verus!
