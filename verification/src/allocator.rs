//! A first-fit heap allocator over firmware-reported memory regions.
//!
//! The heap is a single chain of blocks. Every block starts with a
//! header of [`HEADER_SIZE`] bytes recording the block's total size
//! (header included), whether it is allocated, and a link to the next
//! block. The chain partitions all address space ever handed to the
//! allocator: blocks never overlap, are never destroyed, and are never
//! coalesced, so repeated allocate/free cycles fragment the heap by
//! design.
//!
//! Headers are kept in an arena (one growable array), and the chain
//! links are arena indices; the address each header describes is
//! recorded in the header itself.

use vstd::prelude::*;
use vstd::arithmetic::div_mod::lemma_fundamental_div_mod;
use vstd::set_lib::lemma_subset_equality;
use vstd::set_lib::lemma_int_range;
use vstd::set_lib::set_int_range;
use crate::Error;
use crate::uefi::EfiMemoryType;
use crate::uefi::MemoryDescriptor;
use crate::uefi::MemoryMapHolder;

verus! {

/// Bytes a block header occupies in the managed address space; also
/// the minimum allocation granularity and alignment of the heap.
pub const HEADER_SIZE: usize = 32;

/// Size in bytes of one firmware page.
pub const PAGE_SIZE: usize = 4096;

/// Whether `x` is a power of two.
pub open spec fn spec_is_pow2(x: int) -> bool
    decreases x,
{
    if x <= 0 {
        false
    } else if x == 1 {
        true
    } else {
        x % 2 == 0 && spec_is_pow2(x / 2)
    }
}

/// The smallest power of two that is at least `v`, for `v >= 1`.
pub open spec fn clp2(v: int) -> int
    decreases v,
{
    if v <= 1 {
        1
    } else {
        2 * clp2((v + 1) / 2)
    }
}

/// `clp2` indeed yields the smallest power of two at or above its
/// argument: it is a power of two, at least `v`, and below `2 * v`.
pub proof fn lemma_clp2_props(v: int)
    requires
        v >= 1,
    ensures
        spec_is_pow2(clp2(v)),
        clp2(v) >= v,
        v > 1 ==> clp2(v) < 2 * v,
        v == 1 ==> clp2(v) == 1,
    decreases v,
{
    if v > 1 {
        let h = (v + 1) / 2;
        lemma_clp2_props(h);
        let p = clp2(h);
        assert(spec_is_pow2(2 * p)) by {
            assert((2 * p) % 2 == 0);
            assert((2 * p) / 2 == p);
        }
        assert(2 * p >= v);
        // Strictness of the upper bound: `p < v` in both parity cases.
        if v % 2 == 0 {
            assert(h == v / 2);
            if h == 1 {
                assert(p == 1 && v >= 2);
            } else {
                assert(p < 2 * h);
                assert(2 * h == v);
            }
        } else {
            assert(2 * h == v + 1);
            if h == 1 {
                assert(p == 1 && v >= 2);
            } else {
                assert(p < v + 1);
                // `p` is even here while `v` is odd, so `p != v`.
                assert(p % 2 == 0);
                assert(v % 2 == 1);
            }
        }
        assert(p < v);
    }
}

/// A power of two divides every power of two at or above it.
pub proof fn lemma_pow2_divides(a: int, b: int)
    requires
        spec_is_pow2(a),
        spec_is_pow2(b),
        a <= b,
    ensures
        b % a == 0,
    decreases a,
{
    if a == 1 {
        assert(b % 1 == 0);
    } else {
        assert(b > 1);
        lemma_pow2_divides(a / 2, b / 2);
        let ka = a / 2;
        let kb = b / 2;
        let q = kb / ka;
        lemma_fundamental_div_mod(kb, ka);
        assert(kb == ka * q);
        assert(b == 2 * kb && a == 2 * ka);
        assert(b == a * q) by (nonlinear_arith)
            requires
                kb == ka * q,
                b == 2 * kb,
                a == 2 * ka,
        ;
        assert((a * q) % a == 0) by (nonlinear_arith)
            requires
                a > 0,
        ;
    }
}

/// Distinct powers of two differ by at least a factor of two: a power
/// of two strictly below another is at most half of it.
pub proof fn lemma_pow2_half(q: int, p: int)
    requires
        spec_is_pow2(q),
        spec_is_pow2(p),
        q < p,
    ensures
        2 * q <= p,
{
    lemma_pow2_divides(q, p);
    let m = p / q;
    lemma_fundamental_div_mod(p, q);
    assert(p == q * m);
    assert(m >= 2) by (nonlinear_arith)
        requires
            p == q * m,
            q < p,
            q > 0,
    ;
    assert(q * m >= q * 2) by (nonlinear_arith)
        requires
            m >= 2,
            q > 0,
    ;
}

/// The small powers of two, spelled out for callers that pass a
/// literal alignment.
pub proof fn lemma_small_pow2()
    ensures
        spec_is_pow2(1),
        spec_is_pow2(2),
        spec_is_pow2(4),
        spec_is_pow2(8),
        spec_is_pow2(16),
        spec_is_pow2(32),
        spec_is_pow2(64),
        spec_is_pow2(128),
        spec_is_pow2(256),
        spec_is_pow2(512),
        spec_is_pow2(1024),
        spec_is_pow2(2048),
        spec_is_pow2(4096),
        spec_is_pow2(8192),
        spec_is_pow2(16384),
        spec_is_pow2(32768),
        spec_is_pow2(65536),
{
    assert(spec_is_pow2(1));
    assert(spec_is_pow2(2));
    assert(spec_is_pow2(4));
    assert(spec_is_pow2(8));
    assert(spec_is_pow2(16));
    assert(spec_is_pow2(32));
    assert(spec_is_pow2(64));
    assert(spec_is_pow2(128));
    assert(spec_is_pow2(256));
    assert(spec_is_pow2(512));
    assert(spec_is_pow2(1024));
    assert(spec_is_pow2(2048));
    assert(spec_is_pow2(4096));
    assert(spec_is_pow2(8192));
    assert(spec_is_pow2(16384));
    assert(spec_is_pow2(32768));
    assert(spec_is_pow2(65536));
}

proof fn lemma_spec_is_pow2_pow2(e: nat)
    ensures
        spec_is_pow2(vstd::arithmetic::power2::pow2(e) as int),
    decreases e,
{
    vstd::arithmetic::power2::lemma_pow2_pos(e);
    if e == 0 {
        assert(vstd::arithmetic::power2::pow2(0) == 1) by {
            vstd::arithmetic::power2::lemma2_to64();
        }
    } else {
        lemma_spec_is_pow2_pow2((e - 1) as nat);
        vstd::arithmetic::power2::lemma_pow2_unfold(e);
        vstd::arithmetic::power2::lemma_pow2_pos((e - 1) as nat);
        let p = vstd::arithmetic::power2::pow2((e - 1) as nat) as int;
        assert(vstd::arithmetic::power2::pow2(e) as int == 2 * p);
        assert(spec_is_pow2(2 * p)) by {
            assert((2 * p) % 2 == 0);
            assert((2 * p) / 2 == p);
        }
    }
}

/// Half the unsigned range, rounded up, is the largest representable
/// power of two (the architecture word is 32 or 64 bits wide).
proof fn lemma_half_max_is_pow2()
    ensures
        spec_is_pow2(usize::MAX as int / 2 + 1),
        usize::MAX as int % 2 == 1,
{
    vstd::layout::unsigned_int_max_values();
    if usize::BITS == 32 {
        assert(usize::MAX as nat == vstd::arithmetic::power2::pow2(32) - 1);
        assert(vstd::arithmetic::power2::pow2(32) == 0x100000000
            && vstd::arithmetic::power2::pow2(31) == 0x80000000) by {
            vstd::arithmetic::power2::lemma2_to64();
        }
        lemma_spec_is_pow2_pow2(31);
    } else {
        assert(usize::BITS == 64);
        assert(usize::MAX as nat == vstd::arithmetic::power2::pow2(64) - 1);
        assert(vstd::arithmetic::power2::pow2(64) == 0x10000000000000000
            && vstd::arithmetic::power2::pow2(63) == 0x8000000000000000) by {
            vstd::arithmetic::power2::lemma2_to64_rest();
        }
        lemma_spec_is_pow2_pow2(63);
    }
}

/// Rounds `v` up to the nearest power of two. Fails for zero and for
/// values above the largest power of two a `usize` can hold.
pub fn round_up_to_nearest_pow2(v: usize) -> (r: Result<usize, Error>)
    ensures
        r matches Ok(p) <==> 1 <= v <= usize::MAX / 2 + 1,
        r matches Err(e) ==> e == Error::OutOfRange,
        r matches Ok(p) ==> {
            &&& p == clp2(v as int)
            &&& spec_is_pow2(p as int)
            &&& p >= v
            &&& forall|q: int| spec_is_pow2(q) && q >= v ==> p <= q
        },
{
    if v == 0 {
        return Err(Error::OutOfRange);
    }
    let mut p: usize = 1;
    while p < v
        invariant
            1 <= v,
            1 <= p,
            spec_is_pow2(p as int),
            (p as int) < 2 * (v as int),
        decreases 2 * (v as int) - p as int,
    {
        if p > usize::MAX / 2 {
            proof {
                // The next power of two would not be representable,
                // so no power of two at or above `v` is.
                assert(v as int > usize::MAX as int / 2 + 1);
            }
            return Err(Error::OutOfRange);
        }
        assert(spec_is_pow2(2 * p as int)) by {
            assert((2 * p as int) % 2 == 0);
            assert((2 * p as int) / 2 == p as int);
        }
        p = p * 2;
    }
    proof {
        lemma_clp2_props(v as int);
        let c = clp2(v as int);
        // `p` and `c` are powers of two in `[v, 2 * v)`, hence equal.
        if (p as int) < c {
            lemma_pow2_half(p as int, c);
        }
        if c < (p as int) {
            lemma_pow2_half(c, p as int);
        }
        assert(p as int == c);
        assert forall|q: int| spec_is_pow2(q) && q >= v implies p as int <= q by {
            if q < (p as int) {
                lemma_pow2_half(q, p as int);
            }
        }
        // Representability bound for the iff: a power of two that fits
        // in a `usize` is at most `usize::MAX / 2 + 1`.
        lemma_half_max_is_pow2();
        let m = usize::MAX as int / 2 + 1;
        if m < (p as int) {
            lemma_pow2_half(m, p as int);
        }
        assert(v as int <= usize::MAX as int / 2 + 1);
    }
    Ok(p)
}

/// One block header. The block it describes starts at `addr` and
/// spans `size` bytes, the header's own [`HEADER_SIZE`] bytes
/// included; `next` is the arena index of the next block in the
/// chain.
#[derive(Clone, Copy, Debug)]
pub struct Header {
    pub addr: usize,
    pub size: usize,
    pub is_allocated: bool,
    pub next: Option<usize>,
}

impl Header {
    /// First address past the block.
    pub open spec fn end(self) -> int {
        self.addr + self.size
    }

    /// A header describes a sound block: a nonzero address, header
    /// granularity for both address and size, and no wrap-around.
    pub open spec fn wf(self) -> bool {
        &&& 0 < self.addr
        &&& self.addr as int % (HEADER_SIZE as int) == 0
        &&& self.size as int % (HEADER_SIZE as int) == 0
        &&& HEADER_SIZE <= self.size
        &&& self.addr + self.size <= usize::MAX
    }

    /// The byte ranges of the two blocks do not intersect.
    pub open spec fn disjoint(self, other: Header) -> bool {
        self.end() <= other.addr || other.end() <= self.addr
    }

    /// Whether the block is large enough to be split into an
    /// allocation of `size` bytes at alignment `align`: room is needed
    /// for the new header, a possible remainder header, and the
    /// alignment slack.
    pub fn can_provide(&self, size: usize, align: usize) -> (r: bool)
        ensures
            r == (self.size >= size + 2 * HEADER_SIZE + align),
    {
        self.size as u128 >= size as u128 + 2 * (HEADER_SIZE as u128) + align as u128
    }

    /// Whether the block currently backs an allocation.
    pub fn is_allocated(&self) -> (r: bool)
        ensures
            r == self.is_allocated,
    {
        self.is_allocated
    }

    /// First address past the block.
    pub fn end_addr(&self) -> (r: usize)
        requires
            self.addr + self.size <= usize::MAX,
        ensures
            r == self.end(),
    {
        self.addr + self.size
    }

    /// A fresh, empty, free header describing address `addr`.
    fn new_from_addr(addr: usize) -> (r: Header)
        ensures
            r == (Header { addr, size: 0, is_allocated: false, next: None::<usize> }),
    {
        Header { addr, size: 0, is_allocated: false, next: None }
    }
}

/// The free size a block contributes to the heap total: its full
/// span if free, nothing if allocated.
pub open spec fn free_size_of(h: Header) -> int {
    if h.is_allocated {
        0
    } else {
        h.size as int
    }
}

/// The usable bytes a free block contributes: its span less its own
/// header.
pub open spec fn free_payload_of(h: Header) -> int {
    if h.is_allocated {
        0
    } else {
        h.size - HEADER_SIZE
    }
}

/// Total span of the free blocks in `bs`.
pub open spec fn free_block_bytes(bs: Seq<Header>) -> int
    decreases bs.len(),
{
    if bs.len() == 0 {
        0
    } else {
        free_block_bytes(bs.drop_last()) + free_size_of(bs.last())
    }
}

/// Total usable bytes of the free blocks in `bs`.
pub open spec fn free_payload_bytes(bs: Seq<Header>) -> int
    decreases bs.len(),
{
    if bs.len() == 0 {
        0
    } else {
        free_payload_bytes(bs.drop_last()) + free_payload_of(bs.last())
    }
}

proof fn lemma_free_bytes_push(bs: Seq<Header>, h: Header)
    ensures
        free_block_bytes(bs.push(h)) == free_block_bytes(bs) + free_size_of(h),
        free_payload_bytes(bs.push(h)) == free_payload_bytes(bs) + free_payload_of(h),
{
    assert(bs.push(h).drop_last() =~= bs);
}

proof fn lemma_free_bytes_update(bs: Seq<Header>, i: int, h: Header)
    requires
        0 <= i < bs.len(),
    ensures
        free_block_bytes(bs.update(i, h)) == free_block_bytes(bs) - free_size_of(bs[i])
            + free_size_of(h),
        free_payload_bytes(bs.update(i, h)) == free_payload_bytes(bs) - free_payload_of(bs[i])
            + free_payload_of(h),
    decreases bs.len(),
{
    let bs2 = bs.update(i, h);
    if i == bs.len() - 1 {
        assert(bs2.drop_last() =~= bs.drop_last());
    } else {
        assert(bs2.drop_last() =~= bs.drop_last().update(i, h));
        lemma_free_bytes_update(bs.drop_last(), i, h);
    }
}

/// A sequence of `n` pairwise-distinct indices below `n` visits every
/// index below `n`.
proof fn lemma_chain_onto(ch: Seq<int>, n: int, t: int)
    requires
        ch.len() == n,
        ch.no_duplicates(),
        forall|k: int| 0 <= k < ch.len() ==> 0 <= #[trigger] ch[k] < n,
        0 <= t < n,
    ensures
        ch.contains(t),
{
    ch.unique_seq_to_set();
    let s = ch.to_set();
    lemma_int_range(0, n);
    assert(s.subset_of(set_int_range(0, n)));
    lemma_subset_equality(s, set_int_range(0, n));
    assert(set_int_range(0, n).contains(t));
}

/// The alignment actually used for a request: at least the header
/// granularity.
pub open spec fn eff_align(align: int) -> int {
    if align < HEADER_SIZE {
        HEADER_SIZE as int
    } else {
        align
    }
}

/// Whether power-of-two rounding succeeds for a request of `size`
/// bytes.
pub open spec fn spec_round_ok(size: int) -> bool {
    1 <= size <= usize::MAX as int / 2 + 1
}

/// The size actually carved out for a request: the next power of two,
/// and at least the header granularity.
pub open spec fn spec_rounded_size(size: int) -> int {
    if clp2(size) < HEADER_SIZE {
        HEADER_SIZE as int
    } else {
        clp2(size)
    }
}

/// `x` rounded down to a multiple of `a`.
pub open spec fn align_down(x: int, a: int) -> int {
    x - x % a
}

/// Whether the free block `h` can satisfy a request of `size` bytes at
/// alignment `align` once both are rounded: room for the rounded
/// payload, the new header, a possible remainder header, and the
/// alignment slack.
pub open spec fn spec_fits(h: Header, size: int, align: int) -> bool {
    &&& !h.is_allocated
    &&& h.size >= spec_rounded_size(size) + 2 * HEADER_SIZE + eff_align(align)
}

/// An allocation of `size` bytes at alignment `align` can be carved
/// out of block `h`.
pub open spec fn spec_can_allocate(h: Header, size: int, align: int) -> bool {
    spec_round_ok(size) && spec_fits(h, size, align)
}

/// The payload address carved from the top of `h`: the rounded size is
/// taken off the block's end and the result is masked down to the
/// effective alignment.
pub open spec fn payload_addr(h: Header, size: int, align: int) -> int {
    align_down(h.end() - spec_rounded_size(size), eff_align(align))
}

/// How a successful split of the block at arena index `i` rewrites the
/// arena: the block shrinks to the bytes below the new allocation, the
/// allocated block is appended at index `n`, and any bytes left
/// between the allocation and the block's old end become a free
/// remainder block at index `n + 1`. The three parts partition the old
/// block exactly; every other block is untouched.
pub open spec fn provide_post(
    old_bs: Seq<Header>,
    new_bs: Seq<Header>,
    i: int,
    size: int,
    align: int,
    p: int,
) -> bool {
    let h = old_bs[i];
    let rsz = spec_rounded_size(size);
    let pa = payload_addr(h, size, align);
    let ha = pa - HEADER_SIZE;
    let pe = pa + rsz;
    let n = old_bs.len() as int;
    let pad = h.end() - pe;
    &&& p == pa
    &&& new_bs.len() == n + (if pad == 0 {
        1int
    } else {
        2int
    })
    &&& new_bs[i] == (Header {
        addr: h.addr,
        size: (ha - h.addr) as usize,
        is_allocated: false,
        next: Some(n as usize),
    })
    &&& new_bs[n] == (Header {
        addr: ha as usize,
        size: (rsz + HEADER_SIZE) as usize,
        is_allocated: true,
        next: if pad == 0 {
            h.next
        } else {
            Some((n + 1) as usize)
        },
    })
    &&& (pad != 0 ==> new_bs[n + 1] == (Header {
        addr: pe as usize,
        size: pad as usize,
        is_allocated: false,
        next: h.next,
    }))
    &&& (forall|j: int| 0 <= j < n && j != i ==> new_bs[j] == old_bs[j])
}

proof fn lemma_pow2_32()
    ensures
        spec_is_pow2(HEADER_SIZE as int),
        spec_is_pow2(PAGE_SIZE as int),
{
    assert(spec_is_pow2(1));
    assert(spec_is_pow2(2));
    assert(spec_is_pow2(4));
    assert(spec_is_pow2(8));
    assert(spec_is_pow2(16));
    assert(spec_is_pow2(32));
    assert(spec_is_pow2(64));
    assert(spec_is_pow2(128));
    assert(spec_is_pow2(256));
    assert(spec_is_pow2(512));
    assert(spec_is_pow2(1024));
    assert(spec_is_pow2(2048));
    assert(spec_is_pow2(4096));
}

/// `b` a positive multiple of `m`, `a` a multiple of `b`: then `a` is
/// a multiple of `m`.
proof fn lemma_mod_transitive(a: int, b: int, m: int)
    requires
        b > 0,
        m > 0,
        b % m == 0,
        a % b == 0,
    ensures
        a % m == 0,
{
    lemma_fundamental_div_mod(a, b);
    lemma_fundamental_div_mod(b, m);
    let q = a / b;
    let w = b / m;
    assert(a == (w * q) * m) by (nonlinear_arith)
        requires
            a == b * q,
            b == m * w,
    ;
    vstd::arithmetic::div_mod::lemma_mod_multiples_basic(w * q, m);
}

/// The arithmetic facts of one split, all phrased over the carve spec
/// functions.
proof fn lemma_carve(h: Header, size: int, align: int)
    requires
        h.wf(),
        spec_is_pow2(align),
        spec_round_ok(size),
        spec_fits(h, size, align),
    ensures
        spec_is_pow2(spec_rounded_size(size)),
        HEADER_SIZE <= spec_rounded_size(size),
        spec_rounded_size(size) % (HEADER_SIZE as int) == 0,
        spec_is_pow2(eff_align(align)),
        HEADER_SIZE <= eff_align(align),
        eff_align(align) % (HEADER_SIZE as int) == 0,
        h.addr + 2 * HEADER_SIZE < payload_addr(h, size, align),
        payload_addr(h, size, align) + spec_rounded_size(size) <= h.end(),
        payload_addr(h, size, align) % eff_align(align) == 0,
        payload_addr(h, size, align) % align == 0,
        payload_addr(h, size, align) % (HEADER_SIZE as int) == 0,
        (payload_addr(h, size, align) - HEADER_SIZE - h.addr) % (HEADER_SIZE as int) == 0,
        (h.end() - (payload_addr(h, size, align) + spec_rounded_size(size))) % (
        HEADER_SIZE as int) == 0,
{
    let hs = HEADER_SIZE as int;
    let rsz = spec_rounded_size(size);
    let aal = eff_align(align);
    let x = h.end() - rsz;
    let pa = payload_addr(h, size, align);
    lemma_pow2_32();
    lemma_clp2_props(size);
    // Rounded size: a power of two, multiple of the granularity.
    if clp2(size) < hs {
        assert(rsz == hs);
    } else {
        lemma_pow2_divides(hs, clp2(size));
    }
    // Effective alignment likewise.
    if align < hs {
        assert(aal == hs);
    } else {
        lemma_pow2_divides(hs, align);
    }
    // The mask: `pa` is the largest multiple of `aal` at most `x`.
    vstd::arithmetic::div_mod::lemma_mod_bound(x, aal);
    assert(x - aal < pa <= x);
    lemma_fundamental_div_mod(x, aal);
    assert(pa == aal * (x / aal));
    vstd::arithmetic::div_mod::lemma_mod_multiples_basic(x / aal, aal);
    assert(pa == (x / aal) * aal) by (nonlinear_arith)
        requires
            pa == aal * (x / aal),
    ;
    assert(pa % aal == 0);
    // Alignment facts carried down to the caller's `align` and to the
    // header granularity.
    lemma_mod_transitive(pa, aal, hs);
    if align < hs {
        lemma_pow2_divides(align, hs);
        lemma_mod_transitive(pa, aal, align);
    } else {
        assert(aal == align);
    }
    // Placement bounds.
    assert(x >= h.addr + 2 * hs + aal);
    assert(pa > h.addr + 2 * hs);
    // Granularity of the block's end and of the two cut points.
    vstd::arithmetic::div_mod::lemma_add_mod_noop(h.addr as int, h.size as int, hs);
    assert(h.end() % hs == 0);
    vstd::arithmetic::div_mod::lemma_sub_mod_noop(pa, hs, hs);
    vstd::arithmetic::div_mod::lemma_sub_mod_noop(pa - hs, h.addr as int, hs);
    vstd::arithmetic::div_mod::lemma_add_mod_noop(pa, rsz, hs);
    vstd::arithmetic::div_mod::lemma_sub_mod_noop(h.end(), pa + rsz, hs);
}

/// The chain order after the block at chain position `k` (arena index
/// `ch0[k]`) is split: the allocated block (arena index `n`) follows
/// it, then the remainder block (arena index `n + 1`) if one was
/// carved, then the old successors.
pub open spec fn chain_after_split(ch0: Seq<int>, k: int, n: int, two: bool) -> Seq<int> {
    ch0.subrange(0, k + 1) + (if two {
        seq![n, n + 1]
    } else {
        seq![n]
    }) + ch0.subrange(k + 1, ch0.len() as int)
}

/// Distinct positive multiples of the header granularity below the
/// address limit are few: a heap of pairwise-disjoint blocks can hold
/// at most `usize::MAX / HEADER_SIZE` of them.
proof fn lemma_block_count_bound(bs: Seq<Header>)
    requires
        forall|i: int| 0 <= i < bs.len() ==> (#[trigger] bs[i]).wf(),
        forall|i: int, j: int|
            0 <= i < bs.len() && 0 <= j < bs.len() && i != j ==> (#[trigger] bs[i]).disjoint(
                #[trigger] bs[j],
            ),
    ensures
        bs.len() <= usize::MAX as int / (HEADER_SIZE as int),
{
    let hs = HEADER_SIZE as int;
    let slots = Seq::new(bs.len(), |i: int| bs[i].addr as int / hs);
    assert forall|i: int, j: int|
        0 <= i < slots.len() && 0 <= j < slots.len() && i != j implies slots[i] != slots[j] by {
        assert(bs[i].disjoint(bs[j]));
        assert(bs[i].addr != bs[j].addr);
        lemma_fundamental_div_mod(bs[i].addr as int, hs);
        lemma_fundamental_div_mod(bs[j].addr as int, hs);
    }
    assert(slots.no_duplicates());
    slots.unique_seq_to_set();
    let bound = usize::MAX as int / hs;
    assert forall|i: int| 0 <= i < slots.len() implies 1 <= #[trigger] slots[i] < bound + 1 by {
        lemma_fundamental_div_mod(bs[i].addr as int, hs);
        vstd::arithmetic::div_mod::lemma_mod_bound(bs[i].addr as int, hs);
        vstd::arithmetic::div_mod::lemma_div_is_ordered(bs[i].addr as int, usize::MAX as int, hs);
        lemma_fundamental_div_mod(usize::MAX as int, hs);
        vstd::arithmetic::div_mod::lemma_mod_bound(usize::MAX as int, hs);
    }
    lemma_int_range(1, bound + 1);
    vstd::set_lib::lemma_len_subset(slots.to_set(), set_int_range(1, bound + 1));
}

/// The heap: an arena of block headers plus the index of the chain's
/// first block. The ghost `chain` records the traversal order of the
/// block chain; it is a permutation of the arena indices.
pub struct FirstFitAllocator {
    headers: Vec<Header>,
    first_header: Option<usize>,
    chain: Ghost<Seq<int>>,
}

impl FirstFitAllocator {
    /// The blocks of the heap, by arena index.
    pub closed spec fn blocks(&self) -> Seq<Header> {
        self.headers@
    }

    /// The arena indices of the blocks in chain order.
    pub closed spec fn chain(&self) -> Seq<int> {
        self.chain@
    }

    /// The arena index of the first block of the chain.
    pub closed spec fn head(&self) -> Option<usize> {
        self.first_header
    }

    /// The chain is a permutation of the arena: every block appears in
    /// it exactly once, the links agree with it, and it ends on the
    /// block whose link is `None`.
    pub open spec fn wf_chain(&self) -> bool {
        let bs = self.blocks();
        let ch = self.chain();
        &&& ch.len() == bs.len()
        &&& (forall|k: int| 0 <= k < ch.len() ==> 0 <= #[trigger] ch[k] < bs.len())
        &&& ch.no_duplicates()
        &&& (ch.len() == 0 ==> self.head() is None)
        &&& (ch.len() > 0 ==> self.head() == Some(ch[0] as usize))
        &&& (forall|k: int| 0 <= k < ch.len() - 1 ==> #[trigger] bs[ch[k]].next == Some(
            ch[k + 1] as usize,
        ))
        &&& (ch.len() > 0 ==> bs[ch[ch.len() - 1]].next is None)
    }

    /// Every block is sound and no two blocks overlap: the heap's
    /// blocks partition the address space handed to the allocator.
    pub open spec fn wf_blocks(&self) -> bool {
        let bs = self.blocks();
        &&& (forall|i: int| 0 <= i < bs.len() ==> (#[trigger] bs[i]).wf())
        &&& (forall|i: int, j: int|
            0 <= i < bs.len() && 0 <= j < bs.len() && i != j ==> (#[trigger] bs[i]).disjoint(
                #[trigger] bs[j],
            ))
    }

    /// The allocator invariant, established by [`FirstFitAllocator::new`]
    /// and preserved by every operation.
    pub open spec fn wf(&self) -> bool {
        self.wf_chain() && self.wf_blocks()
    }

    /// An allocator with no heap space at all.
    pub fn new() -> (r: FirstFitAllocator)
        ensures
            r.wf(),
            r.blocks() == Seq::<Header>::empty(),
            r.head() is None,
    {
        FirstFitAllocator { headers: Vec::new(), first_header: None, chain: Ghost(Seq::empty()) }
    }

    /// How many blocks the heap currently holds.
    pub fn block_count(&self) -> (r: usize)
        ensures
            r == self.blocks().len(),
    {
        self.headers.len()
    }

    /// The block at arena index `i`.
    pub fn block_at(&self, i: usize) -> (r: Header)
        requires
            i < self.blocks().len(),
        ensures
            r == self.blocks()[i as int],
    {
        self.headers[i]
    }

    /// The arena index of the chain's first block.
    pub fn head_index(&self) -> (r: Option<usize>)
        ensures
            r == self.head(),
    {
        self.first_header
    }

    /// Tries to carve an allocation of `size` bytes at alignment
    /// `align` out of the block at arena index `i`, splitting it in
    /// place as [`provide_post`] describes. Returns the payload
    /// address on success and leaves the heap untouched on failure.
    #[verifier::rlimit(100)]
    fn provide(&mut self, i: usize, size: usize, align: usize) -> (r: Option<usize>)
        requires
            old(self).wf(),
            i < old(self).blocks().len(),
            spec_is_pow2(align as int),
        ensures
            final(self).wf(),
            r is None ==> {
                &&& final(self).blocks() == old(self).blocks()
                &&& final(self).chain() == old(self).chain()
                &&& final(self).head() == old(self).head()
            },
            (r is None) <==> !spec_can_allocate(
                old(self).blocks()[i as int],
                size as int,
                align as int,
            ),
            r matches Some(p) ==> provide_post(
                old(self).blocks(),
                final(self).blocks(),
                i as int,
                size as int,
                align as int,
                p as int,
            ),
            r matches Some(p) ==> final(self).head() == old(self).head(),
            r matches Some(p) ==> free_block_bytes(final(self).blocks()) == free_block_bytes(
                old(self).blocks(),
            ) - spec_rounded_size(size as int) - HEADER_SIZE,
    {
        let rounded = match round_up_to_nearest_pow2(size) {
            Ok(s) => s,
            Err(_) => {
                return None;
            },
        };
        let size2 = if rounded < HEADER_SIZE {
            HEADER_SIZE
        } else {
            rounded
        };
        let align2 = if align < HEADER_SIZE {
            HEADER_SIZE
        } else {
            align
        };
        let h = self.headers[i];
        if h.is_allocated() || !h.can_provide(size2, align2) {
            return None;
        }
        proof {
            lemma_carve(h, size as int, align as int);
        }
        let end = h.end_addr();
        let x = end - size2;
        proof {
            lemma_fundamental_div_mod(x as int, align2 as int);
            vstd::arithmetic::div_mod::lemma_mod_bound(x as int, align2 as int);
            assert((x as int / align2 as int) * (align2 as int) == x as int - x as int % (
            align2 as int)) by (nonlinear_arith)
                requires
                    x as int == (align2 as int) * (x as int / align2 as int) + x as int % (
                    align2 as int),
            ;
        }
        let pa = (x / align2) * align2;
        assert(pa == payload_addr(h, size as int, align as int));
        let ha = pa - HEADER_SIZE;
        let n = self.headers.len();
        proof {
            lemma_block_count_bound(self.headers@);
        }

        let mut header_for_allocated = Header::new_from_addr(ha);
        header_for_allocated.is_allocated = true;
        header_for_allocated.size = size2 + HEADER_SIZE;
        header_for_allocated.next = h.next;

        let pad_exists = pa + size2 != end;
        if pad_exists {
            header_for_allocated.next = Some(n + 1);
        }
        let mut shrunk = h;
        shrunk.size = ha - h.addr;
        shrunk.next = Some(n);
        self.headers[i] = shrunk;
        self.headers.push(header_for_allocated);
        if pad_exists {
            let mut header_for_padding = Header::new_from_addr(pa + size2);
            header_for_padding.size = end - (pa + size2);
            header_for_padding.next = h.next;
            self.headers.push(header_for_padding);
        }
        proof {
            let bs0 = old(self).blocks();
            let ch0 = old(self).chain();
            let ni = n as int;
            let ii = i as int;
            lemma_chain_onto(ch0, ni, ii);
            let k = choose|k: int| 0 <= k < ch0.len() && ch0[k] == ii;
            assert(0 <= k < ch0.len() && ch0[k] == ii);
            self.chain@ = chain_after_split(ch0, k, ni, pad_exists);
            assert(provide_post(bs0, self.headers@, ii, size as int, align as int, pa as int));
            lemma_split_reestablish(
                *old(self),
                *self,
                k,
                ii,
                size as int,
                align as int,
                pa as int,
            );
        }
        Some(pa)
    }

    /// Whether some block of the heap can satisfy a request of `size`
    /// bytes at alignment `align`.
    pub open spec fn can_satisfy_any(&self, size: int, align: int) -> bool {
        exists|i: int|
            0 <= i < self.blocks().len() && spec_can_allocate(
                #[trigger] self.blocks()[i],
                size,
                align,
            )
    }

    /// Allocates `size` bytes at alignment `align` by first fit: the
    /// chain is walked from the head and the first block that can
    /// satisfy the rounded request is split. Returns the payload
    /// address, or `None` exactly when no block of the heap can
    /// satisfy the request (out of memory, or the rounding failed).
    pub fn alloc_with_options(&mut self, size: usize, align: usize) -> (r: Option<usize>)
        requires
            old(self).wf(),
            spec_is_pow2(align as int),
        ensures
            final(self).wf(),
            r is Some <==> old(self).can_satisfy_any(size as int, align as int),
            r is None ==> {
                &&& final(self).blocks() == old(self).blocks()
                &&& final(self).chain() == old(self).chain()
                &&& final(self).head() == old(self).head()
            },
            r matches Some(p) ==> exists|k: int|
                {
                    &&& 0 <= k < old(self).chain().len()
                    &&& spec_can_allocate(
                        old(self).blocks()[#[trigger] old(self).chain()[k]],
                        size as int,
                        align as int,
                    )
                    &&& (forall|j: int|
                        0 <= j < k ==> !spec_can_allocate(
                            old(self).blocks()[#[trigger] old(self).chain()[j]],
                            size as int,
                            align as int,
                        ))
                    &&& provide_post(
                        old(self).blocks(),
                        final(self).blocks(),
                        old(self).chain()[k],
                        size as int,
                        align as int,
                        p as int,
                    )
                },
            r matches Some(p) ==> (p as int) % (align as int) == 0 && p > 0,
            r matches Some(p) ==> free_block_bytes(final(self).blocks()) == free_block_bytes(
                old(self).blocks(),
            ) - spec_rounded_size(size as int) - HEADER_SIZE,
    {
        let ghost s0 = *self;
        let n = self.headers.len();
        let mut cur: Option<usize> = self.first_header;
        let ghost ch = self.chain@;
        let ghost mut kk: int = 0;
        loop
            invariant
                s0.blocks().len() == n,
                self.wf(),
                self.blocks() == s0.blocks(),
                self.chain() == s0.chain(),
                self.head() == s0.head(),
                s0.blocks() == old(self).blocks(),
                s0.chain() == old(self).chain(),
                s0.head() == old(self).head(),
                s0.wf(),
                spec_is_pow2(align as int),
                ch == s0.chain(),
                0 <= kk <= ch.len(),
                kk < ch.len() ==> cur == Some(ch[kk] as usize),
                kk == ch.len() ==> cur is None,
                forall|j: int|
                    0 <= j < kk ==> !spec_can_allocate(
                        s0.blocks()[#[trigger] ch[j]],
                        size as int,
                        align as int,
                    ),
            decreases ch.len() - kk,
        {
            match cur {
                None => {
                    proof {
                        assert forall|i2: int|
                            0 <= i2 < s0.blocks().len() implies !spec_can_allocate(
                            #[trigger] s0.blocks()[i2],
                            size as int,
                            align as int,
                        ) by {
                            lemma_chain_onto(ch, s0.blocks().len() as int, i2);
                            let j = choose|j: int| 0 <= j < ch.len() && ch[j] == i2;
                            assert(!spec_can_allocate(
                                s0.blocks()[ch[j]],
                                size as int,
                                align as int,
                            ));
                        }
                    }
                    return None;
                },
                Some(idx) => {
                    proof {
                        assert(0 <= ch[kk] < s0.blocks().len());
                        assert(idx as int == ch[kk]);
                    }
                    match self.provide(idx, size, align) {
                        Some(p) => {
                            proof {
                                let h = s0.blocks()[idx as int];
                                lemma_carve(h, size as int, align as int);
                                assert(spec_can_allocate(
                                    s0.blocks()[ch[kk]],
                                    size as int,
                                    align as int,
                                ));
                                assert(p as int == payload_addr(h, size as int, align as int));
                            }
                            return Some(p);
                        },
                        None => {
                            let h = self.headers[idx];
                            cur = h.next;
                            proof {
                                if kk < ch.len() - 1 {
                                    assert(self.blocks()[ch[kk]].next == Some(
                                        ch[kk + 1] as usize,
                                    ));
                                } else {
                                    assert(self.blocks()[ch[ch.len() - 1]].next is None);
                                }
                                kk = kk + 1;
                            }
                        },
                    }
                },
            }
        }
    }

    /// Releases the allocation whose payload starts at `addr`: the
    /// header [`HEADER_SIZE`] bytes below it is flagged free again.
    /// The block keeps its size and place in the chain; nothing is
    /// coalesced. The caller must pass an address obtained from
    /// [`FirstFitAllocator::alloc_with_options`] and not yet released;
    /// `size` and `align` are accepted for interface symmetry only.
    pub fn dealloc(&mut self, addr: usize, size: usize, align: usize)
        requires
            old(self).wf(),
            exists|i: int|
                0 <= i < old(self).blocks().len() && (#[trigger] old(self).blocks()[i]).addr
                    + HEADER_SIZE == addr && old(self).blocks()[i].is_allocated,
        ensures
            final(self).wf(),
            final(self).chain() == old(self).chain(),
            final(self).head() == old(self).head(),
            forall|i: int|
                0 <= i < old(self).blocks().len() && (#[trigger] old(self).blocks()[i]).addr
                    + HEADER_SIZE == addr ==> {
                    &&& final(self).blocks() == old(self).blocks().update(
                        i,
                        (Header { is_allocated: false, ..old(self).blocks()[i] }),
                    )
                    &&& free_block_bytes(final(self).blocks()) == free_block_bytes(
                        old(self).blocks(),
                    ) + old(self).blocks()[i].size
                },
    {
        let _ = size;
        let _ = align;
        let ghost s0 = *self;
        let n = self.headers.len();
        let mut j: usize = 0;
        while j < n
            invariant
                *self == s0,
                s0.blocks() == old(self).blocks(),
                s0.chain() == old(self).chain(),
                s0.head() == old(self).head(),
                s0.wf(),
                n == s0.blocks().len(),
                0 <= j <= n,
                exists|i: int|
                    0 <= i < s0.blocks().len() && (#[trigger] s0.blocks()[i]).addr + HEADER_SIZE
                        == addr && s0.blocks()[i].is_allocated,
                forall|c: int|
                    0 <= c < j ==> (#[trigger] s0.blocks()[c]).addr + HEADER_SIZE != addr,
            decreases n - j,
        {
            let h = self.headers[j];
            proof {
                assert(h.wf());
            }
            if h.addr + HEADER_SIZE == addr {
                let mut freed = h;
                freed.is_allocated = false;
                self.headers[j] = freed;
                proof {
                    let jj = j as int;
                    lemma_free_bytes_update(s0.blocks(), jj, freed);
                    // The match is unique: two blocks cannot share an
                    // address, so every matching index is `j`.
                    assert forall|i: int|
                        0 <= i < s0.blocks().len() && (#[trigger] s0.blocks()[i]).addr
                            + HEADER_SIZE == addr implies i == jj by {
                        if i != jj {
                            assert(s0.blocks()[i].disjoint(s0.blocks()[jj]));
                            assert(s0.blocks()[i].wf() && s0.blocks()[jj].wf());
                        }
                    }
                    // The required matching block is allocated, and it
                    // is this one, so its span counts as freed.
                    let w = choose|i: int|
                        0 <= i < s0.blocks().len() && (#[trigger] s0.blocks()[i]).addr
                            + HEADER_SIZE == addr && s0.blocks()[i].is_allocated;
                    assert(w == jj);
                }
                return ;
            }
            j = j + 1;
        }
        proof {
            let w = choose|i: int|
                0 <= i < s0.blocks().len() && (#[trigger] s0.blocks()[i]).addr + HEADER_SIZE
                    == addr && s0.blocks()[i].is_allocated;
            assert(false);
        }
    }

    /// Threads one usable firmware region into the free list as a
    /// single free block, installed as the new chain head. Regions at
    /// address zero are pushed forward one page; regions that then
    /// span no more than one page are skipped.
    fn add_free_from_descriptor(&mut self, descriptor: &MemoryDescriptor)
        requires
            old(self).wf(),
            spec_desc_valid(*descriptor),
            spec_seeds(*descriptor) ==> forall|j: int|
                0 <= j < old(self).blocks().len() ==> (spec_adj_start(*descriptor) + spec_adj_size(
                    *descriptor,
                ) <= (#[trigger] old(self).blocks()[j]).addr || old(self).blocks()[j].end()
                    <= spec_adj_start(*descriptor)),
        ensures
            final(self).wf(),
            !spec_seeds(*descriptor) ==> {
                &&& final(self).blocks() == old(self).blocks()
                &&& final(self).chain() == old(self).chain()
                &&& final(self).head() == old(self).head()
            },
            spec_seeds(*descriptor) ==> {
                &&& final(self).blocks() == old(self).blocks().push(
                    (Header {
                        addr: spec_adj_start(*descriptor) as usize,
                        size: spec_adj_size(*descriptor) as usize,
                        is_allocated: false,
                        next: old(self).head(),
                    }),
                )
                &&& final(self).head() == Some(old(self).blocks().len() as usize)
                &&& free_payload_bytes(final(self).blocks()) == free_payload_bytes(
                    old(self).blocks(),
                ) + spec_adj_size(*descriptor) - HEADER_SIZE
            },
    {
        let mut start_addr = descriptor.physical_start() as usize;
        proof {
            assert(descriptor.number_of_pages as int <= descriptor.number_of_pages * (
            PAGE_SIZE as int)) by (nonlinear_arith)
                requires
                    descriptor.number_of_pages >= 0,
            ;
        }
        let mut size = descriptor.number_of_pages() as usize * PAGE_SIZE;
        if start_addr == 0 {
            start_addr = start_addr + PAGE_SIZE;
            size = if size >= PAGE_SIZE {
                size - PAGE_SIZE
            } else {
                0
            };
        }
        if size <= PAGE_SIZE {
            return ;
        }
        let n = self.headers.len();
        let mut header = Header::new_from_addr(start_addr);
        header.is_allocated = false;
        header.size = size;
        header.next = self.first_header;
        self.headers.push(header);
        self.first_header = Some(n);
        proof {
            let bs0 = old(self).blocks();
            let ch0 = old(self).chain();
            let bs1 = self.headers@;
            let ni = n as int;
            let d = *descriptor;
            let newch = seq![ni] + ch0;
            self.chain@ = newch;
            let hs = HEADER_SIZE as int;

            // Granularity of the new block.
            vstd::arithmetic::div_mod::lemma_mod_multiples_basic(
                d.number_of_pages as int,
                PAGE_SIZE as int,
            );
            lemma_mod_transitive(start_addr as int, PAGE_SIZE as int, hs);
            vstd::arithmetic::div_mod::lemma_sub_mod_noop(
                spec_raw_size(d),
                PAGE_SIZE as int,
                PAGE_SIZE as int,
            );
            lemma_mod_transitive(size as int, PAGE_SIZE as int, hs);
            assert(bs1[ni].wf());

            lemma_free_bytes_push(bs0, header);

            // The lengthened chain is a permutation of the arena.
            assert(forall|m: int| 0 < m < newch.len() ==> newch[m] == ch0[m - 1]);
            assert forall|m1: int, m2: int|
                0 <= m1 < newch.len() && 0 <= m2 < newch.len() && m1 != m2 implies newch[m1]
                != newch[m2] by {
                assert(forall|m: int| 0 <= m < ch0.len() ==> 0 <= #[trigger] ch0[m] < ni);
            }
            assert(newch.no_duplicates());

            // Links: the new head points at the old head; the rest of
            // the chain is untouched.
            assert forall|m: int| 0 <= m < newch.len() - 1 implies #[trigger] bs1[newch[m]].next
                == Some(newch[m + 1] as usize) by {
                if m == 0 {
                    assert(newch[0] == ni && newch[1] == ch0[0]);
                } else {
                    assert(newch[m] == ch0[m - 1] && newch[m + 1] == ch0[m]);
                    assert(bs1[ch0[m - 1]] == bs0[ch0[m - 1]]);
                }
            }
            if ch0.len() == 0 {
                assert(newch[newch.len() - 1] == ni);
            } else {
                assert(newch[newch.len() - 1] == ch0[ch0.len() - 1]);
            }

            // Disjointness: the new block spans exactly the adjusted
            // region, which the caller keeps apart from every block.
            assert forall|a: int, b: int|
                0 <= a < bs1.len() && 0 <= b < bs1.len() && a != b implies (
            #[trigger] bs1[a]).disjoint(#[trigger] bs1[b]) by {
                assert(forall|c: int| 0 <= c < ni ==> #[trigger] bs1[c] == bs0[c]);
                assert(bs1[ni].addr == spec_adj_start(d) && bs1[ni].end() == spec_adj_start(d)
                    + spec_adj_size(d));
            }
        }
    }

    /// Seeds the heap from a firmware memory map: every usable region
    /// becomes one free block (in reverse visitation order, which is
    /// harmless since the chain is unordered by address). The usable
    /// free bytes gained are exactly the regions' adjusted spans less
    /// one header each.
    pub fn init_with_mmap(&mut self, memory_map: &MemoryMapHolder)
        requires
            old(self).wf(),
            forall|a: int|
                0 <= a < memory_map.descriptors().len() && spec_usable(
                    #[trigger] memory_map.descriptors()[a],
                ) ==> spec_desc_valid(memory_map.descriptors()[a]),
            forall|a: int, b: int|
                0 <= a < memory_map.descriptors().len() && 0 <= b
                    < memory_map.descriptors().len() && a != b && spec_usable(
                    #[trigger] memory_map.descriptors()[a],
                ) && spec_usable(#[trigger] memory_map.descriptors()[b]) && spec_seeds(
                    memory_map.descriptors()[a],
                ) && spec_seeds(memory_map.descriptors()[b]) ==> regions_disjoint(
                    memory_map.descriptors()[a],
                    memory_map.descriptors()[b],
                ),
            forall|a: int, j: int|
                0 <= a < memory_map.descriptors().len() && spec_usable(
                    #[trigger] memory_map.descriptors()[a],
                ) && spec_seeds(memory_map.descriptors()[a]) && 0 <= j < old(
                    self,
                ).blocks().len() ==> (spec_adj_start(memory_map.descriptors()[a]) + spec_adj_size(
                    memory_map.descriptors()[a],
                ) <= (#[trigger] old(self).blocks()[j]).addr || old(self).blocks()[j].end()
                    <= spec_adj_start(memory_map.descriptors()[a])),
        ensures
            final(self).wf(),
            free_payload_bytes(final(self).blocks()) == free_payload_bytes(old(self).blocks())
                + seeded_payload(memory_map.descriptors()),
    {
        let ghost s0 = *self;
        let ghost ds = memory_map.descriptors();
        let ghost old_len = s0.blocks().len() as int;
        let n = memory_map.len();
        let mut idx: usize = 0;
        while idx < n
            invariant
                self.wf(),
                s0.blocks() == old(self).blocks(),
                s0.chain() == old(self).chain(),
                s0.head() == old(self).head(),
                ds == memory_map.descriptors(),
                n == ds.len(),
                old_len == s0.blocks().len(),
                0 <= idx <= n,
                old_len <= self.blocks().len(),
                forall|j: int| 0 <= j < old_len ==> #[trigger] self.blocks()[j] == s0.blocks()[j],
                forall|j: int|
                    old_len <= j < self.blocks().len() ==> exists|a: int|
                        {
                            &&& 0 <= a < idx
                            &&& spec_usable(ds[a])
                            &&& spec_seeds(ds[a])
                            &&& (#[trigger] self.blocks()[j]).addr == spec_adj_start(ds[a])
                            &&& self.blocks()[j].end() == spec_adj_start(ds[a]) + spec_adj_size(
                                ds[a],
                            )
                        },
                free_payload_bytes(self.blocks()) == free_payload_bytes(s0.blocks())
                    + seeded_payload(ds.take(idx as int)),
                forall|a: int|
                    0 <= a < ds.len() && spec_usable(#[trigger] ds[a]) ==> spec_desc_valid(ds[a]),
                forall|a: int, b: int|
                    0 <= a < ds.len() && 0 <= b < ds.len() && a != b && spec_usable(
                        #[trigger] ds[a],
                    ) && spec_usable(#[trigger] ds[b]) && spec_seeds(ds[a]) && spec_seeds(ds[b])
                        ==> regions_disjoint(ds[a], ds[b]),
                forall|a: int, j: int|
                    0 <= a < ds.len() && spec_usable(#[trigger] ds[a]) && spec_seeds(ds[a]) && 0
                        <= j < old_len ==> (spec_adj_start(ds[a]) + spec_adj_size(ds[a]) <= (
                    #[trigger] s0.blocks()[j]).addr || s0.blocks()[j].end() <= spec_adj_start(
                        ds[a],
                    )),
            decreases n - idx,
        {
            let e = memory_map.get(idx);
            let ghost prev = *self;
            if e.memory_type() == EfiMemoryType::CONVENTIONAL_MEMORY {
                proof {
                    if spec_seeds(e) {
                        assert forall|j: int|
                            0 <= j < self.blocks().len() implies (spec_adj_start(e)
                            + spec_adj_size(e) <= (#[trigger] self.blocks()[j]).addr
                            || self.blocks()[j].end() <= spec_adj_start(e)) by {
                            if j < old_len {
                                assert(self.blocks()[j] == s0.blocks()[j]);
                            } else {
                                let a = choose|a: int|
                                    {
                                        &&& 0 <= a < idx
                                        &&& spec_usable(ds[a])
                                        &&& spec_seeds(ds[a])
                                        &&& (#[trigger] self.blocks()[j]).addr == spec_adj_start(
                                            ds[a],
                                        )
                                        &&& self.blocks()[j].end() == spec_adj_start(ds[a])
                                            + spec_adj_size(ds[a])
                                    };
                                assert(regions_disjoint(ds[a], ds[idx as int]));
                            }
                        }
                    }
                }
                self.add_free_from_descriptor(&e);
            }
            proof {
                lemma_seeded_payload_take(ds, idx as int);
                if self.blocks().len() > prev.blocks().len() {
                    // One block was appended for this region; it is
                    // the witness for the new index.
                    assert forall|j: int|
                        old_len <= j < self.blocks().len() implies exists|a: int|
                        {
                            &&& 0 <= a < idx + 1
                            &&& spec_usable(ds[a])
                            &&& spec_seeds(ds[a])
                            &&& (#[trigger] self.blocks()[j]).addr == spec_adj_start(ds[a])
                            &&& self.blocks()[j].end() == spec_adj_start(ds[a]) + spec_adj_size(
                                ds[a],
                            )
                        } by {
                        if j < prev.blocks().len() {
                            assert(self.blocks()[j] == prev.blocks()[j]);
                            let a = choose|a: int|
                                {
                                    &&& 0 <= a < idx
                                    &&& spec_usable(ds[a])
                                    &&& spec_seeds(ds[a])
                                    &&& (#[trigger] prev.blocks()[j]).addr == spec_adj_start(
                                        ds[a],
                                    )
                                    &&& prev.blocks()[j].end() == spec_adj_start(ds[a])
                                        + spec_adj_size(ds[a])
                                };
                            assert(0 <= a < idx + 1 && spec_usable(ds[a]) && spec_seeds(ds[a])
                                && self.blocks()[j].addr == spec_adj_start(ds[a])
                                && self.blocks()[j].end() == spec_adj_start(ds[a])
                                + spec_adj_size(ds[a]));
                        } else {
                            let a = idx as int;
                            assert(0 <= a < idx + 1 && spec_usable(ds[a]) && spec_seeds(ds[a])
                                && self.blocks()[j].addr == spec_adj_start(ds[a])
                                && self.blocks()[j].end() == spec_adj_start(ds[a])
                                + spec_adj_size(ds[a]));
                        }
                    }
                }
            }
            idx = idx + 1;
        }
        proof {
            assert(ds.take(n as int) =~= ds);
        }
    }
}

/// Whether a firmware region may be turned into heap space at all.
pub open spec fn spec_usable(d: MemoryDescriptor) -> bool {
    d.memory_type == EfiMemoryType::CONVENTIONAL_MEMORY
}

/// The region's byte count as reported.
pub open spec fn spec_raw_size(d: MemoryDescriptor) -> int {
    d.number_of_pages * (PAGE_SIZE as int)
}

/// Start of the region once address zero is avoided: a region at
/// address zero is pushed forward by one page, since zero must never
/// become allocatable.
pub open spec fn spec_adj_start(d: MemoryDescriptor) -> int {
    if d.physical_start == 0 {
        PAGE_SIZE as int
    } else {
        d.physical_start as int
    }
}

/// Size of the region once address zero is avoided.
pub open spec fn spec_adj_size(d: MemoryDescriptor) -> int {
    if d.physical_start == 0 {
        if spec_raw_size(d) >= PAGE_SIZE {
            spec_raw_size(d) - PAGE_SIZE
        } else {
            0
        }
    } else {
        spec_raw_size(d)
    }
}

/// The machine limits a descriptor must respect before it can be
/// seeded: page-aligned start, and an end that fits the address
/// space.
pub open spec fn spec_desc_valid(d: MemoryDescriptor) -> bool {
    &&& d.physical_start as int % (PAGE_SIZE as int) == 0
    &&& d.physical_start + d.number_of_pages * (PAGE_SIZE as int) <= usize::MAX
}

/// Whether the (adjusted) region is big enough to become a free
/// block: strictly more than one page.
pub open spec fn spec_seeds(d: MemoryDescriptor) -> bool {
    spec_adj_size(d) > PAGE_SIZE
}

/// The byte ranges of two adjusted regions do not intersect.
pub open spec fn regions_disjoint(c: MemoryDescriptor, d: MemoryDescriptor) -> bool {
    spec_adj_start(c) + spec_adj_size(c) <= spec_adj_start(d) || spec_adj_start(d)
        + spec_adj_size(d) <= spec_adj_start(c)
}

/// The usable bytes one region contributes to the heap when the map
/// is seeded: its adjusted span less one header, or nothing if it is
/// not usable or too small.
pub open spec fn region_contribution(d: MemoryDescriptor) -> int {
    if spec_usable(d) && spec_seeds(d) {
        spec_adj_size(d) - HEADER_SIZE
    } else {
        0
    }
}

/// Total usable bytes a whole memory map contributes when seeded.
pub open spec fn seeded_payload(ds: Seq<MemoryDescriptor>) -> int
    decreases ds.len(),
{
    if ds.len() == 0 {
        0
    } else {
        seeded_payload(ds.drop_last()) + region_contribution(ds.last())
    }
}

proof fn lemma_seeded_payload_take(ds: Seq<MemoryDescriptor>, idx: int)
    requires
        0 <= idx < ds.len(),
    ensures
        seeded_payload(ds.take(idx + 1)) == seeded_payload(ds.take(idx)) + region_contribution(
            ds[idx],
        ),
{
    assert(ds.take(idx + 1).drop_last() =~= ds.take(idx));
    assert(ds.take(idx + 1).last() == ds[idx]);
}

/// The free totals of a heap of sound blocks are never negative.
/// Together with the `ensures` of
/// [`FirstFitAllocator::alloc_with_options`] — every successful
/// allocation takes at least the rounded size plus one header off
/// the free total — this bounds the number of allocations that can
/// succeed: repeated requests must eventually return the failure
/// sentinel.
pub proof fn lemma_free_bytes_nonnegative(bs: Seq<Header>)
    requires
        forall|i: int| 0 <= i < bs.len() ==> (#[trigger] bs[i]).wf(),
    ensures
        0 <= free_payload_bytes(bs) <= free_block_bytes(bs),
    decreases bs.len(),
{
    if bs.len() > 0 {
        assert forall|i: int| 0 <= i < bs.drop_last().len() implies (
        #[trigger] bs.drop_last()[i]).wf() by {
            assert(bs.drop_last()[i] == bs[i]);
        }
        lemma_free_bytes_nonnegative(bs.drop_last());
        assert(bs.last().wf());
    }
}

/// In a well-formed heap no two blocks overlap, so in particular the
/// payload ranges of any two distinct allocated blocks — the ranges
/// [`FirstFitAllocator::alloc_with_options`] hands out — are pairwise
/// disjoint.
pub proof fn lemma_allocated_ranges_disjoint(s: FirstFitAllocator, i: int, j: int)
    requires
        s.wf(),
        0 <= i < s.blocks().len(),
        0 <= j < s.blocks().len(),
        i != j,
    ensures
        s.blocks()[i].addr + s.blocks()[i].size <= s.blocks()[j].addr || s.blocks()[j].addr
            + s.blocks()[j].size <= s.blocks()[i].addr,
{
    assert(s.blocks()[i].disjoint(s.blocks()[j]));
}

/// Allocate, deallocate, allocate: once an allocation carved out of
/// block `i` is released again, an identical request can still be
/// satisfied, provided block `i` was big enough to leave room for a
/// second split (its span covered two rounded requests, two alignment
/// slacks and three headers). The address may differ: nothing is
/// coalesced.
///
/// `s1` is the heap after the first allocation (so
/// [`provide_post`] relates it to `s0`, as the `ensures` of
/// [`FirstFitAllocator::alloc_with_options`] states), and `s2` is the
/// heap after the new allocated block — the one whose payload starts
/// at `p` — is released, as the `ensures` of
/// [`FirstFitAllocator::dealloc`] states. By the `ensures` of
/// `alloc_with_options`, a further call on `s2` with the same request
/// returns an address.
pub proof fn lemma_alloc_dealloc_alloc(
    s0: FirstFitAllocator,
    s1: FirstFitAllocator,
    s2: FirstFitAllocator,
    i: int,
    size: int,
    align: int,
    p: int,
)
    requires
        s0.wf(),
        0 <= i < s0.blocks().len(),
        spec_is_pow2(align),
        spec_can_allocate(s0.blocks()[i], size, align),
        provide_post(s0.blocks(), s1.blocks(), i, size, align, p),
        s2.blocks() == s1.blocks().update(
            s0.blocks().len() as int,
            (Header { is_allocated: false, ..s1.blocks()[s0.blocks().len() as int] }),
        ),
        s0.blocks()[i].size >= 2 * spec_rounded_size(size) + 2 * eff_align(align) + 3
            * HEADER_SIZE,
    ensures
        s2.can_satisfy_any(size, align),
{
    let h = s0.blocks()[i];
    let n = s0.blocks().len() as int;
    lemma_carve(h, size, align);
    let rsz = spec_rounded_size(size);
    let aal = eff_align(align);
    let pa = payload_addr(h, size, align);
    let x = h.end() - rsz;
    // The mask takes off less than one alignment unit, so the shrunk
    // block keeps room for a whole second request.
    vstd::arithmetic::div_mod::lemma_mod_bound(x, aal);
    assert(pa > x - aal);
    let shrunk = s2.blocks()[i];
    assert(shrunk == s1.blocks()[i]);
    assert(shrunk.size == pa - HEADER_SIZE - h.addr);
    assert(shrunk.size >= rsz + 2 * HEADER_SIZE + aal);
    assert(!shrunk.is_allocated);
    assert(spec_can_allocate(s2.blocks()[i], size, align));
}

/// After one split, the allocator invariant holds again and the free
/// total has gone down by exactly the allocated block's span.
#[verifier::rlimit(100)]
proof fn lemma_split_reestablish(
    s0: FirstFitAllocator,
    s1: FirstFitAllocator,
    k: int,
    i: int,
    size: int,
    align: int,
    p: int,
)
    requires
        s0.wf(),
        0 <= i < s0.blocks().len(),
        0 <= k < s0.chain().len(),
        s0.chain()[k] == i,
        spec_is_pow2(align),
        spec_can_allocate(s0.blocks()[i], size, align),
        provide_post(s0.blocks(), s1.blocks(), i, size, align, p),
        s1.head() == s0.head(),
        s1.chain() == chain_after_split(
            s0.chain(),
            k,
            s0.blocks().len() as int,
            s1.blocks().len() == s0.blocks().len() + 2,
        ),
    ensures
        s1.wf(),
        free_block_bytes(s1.blocks()) == free_block_bytes(s0.blocks()) - spec_rounded_size(size)
            - HEADER_SIZE,
{
    let bs0 = s0.blocks();
    let ch0 = s0.chain();
    let bs1 = s1.blocks();
    let newch = s1.chain();
    let ni = bs0.len() as int;
    let h = bs0[i];
    let rsz = spec_rounded_size(size);
    let pa = payload_addr(h, size, align);
    let pe = pa + rsz;
    let pad_exists = bs1.len() == ni + 2;
    let ins: Seq<int> = if pad_exists {
        seq![ni, ni + 1]
    } else {
        seq![ni]
    };
    let w = ins.len() as int;
    lemma_carve(h, size, align);
    assert(h.end() - pe == 0 <==> !pad_exists);
    assert(newch == ch0.subrange(0, k + 1) + ins + ch0.subrange(k + 1, ch0.len() as int));
    assert(newch.len() == bs1.len());

    // Accounting for the free-byte totals.
    lemma_free_bytes_update(bs0, i, bs1[i]);
    lemma_free_bytes_push(bs0.update(i, bs1[i]), bs1[ni]);
    assert(bs0.update(i, bs1[i]).push(bs1[ni]) =~= bs1.subrange(0, ni + 1));
    if pad_exists {
        lemma_free_bytes_push(bs0.update(i, bs1[i]).push(bs1[ni]), bs1[ni + 1]);
        assert(bs0.update(i, bs1[i]).push(bs1[ni]).push(bs1[ni + 1]) =~= bs1);
    } else {
        assert(bs0.update(i, bs1[i]).push(bs1[ni]) =~= bs1);
    }

    // The new chain is a permutation of the grown arena.
    assert forall|m1: int, m2: int|
        0 <= m1 < newch.len() && 0 <= m2 < newch.len() && m1 != m2 implies newch[m1] != newch[m2] by {
        assert(forall|m: int| 0 <= m <= k ==> newch[m] == ch0[m]);
        assert(forall|m: int| k + w < m < newch.len() ==> newch[m] == ch0[m - w]);
        assert(forall|m: int| 0 <= m < ch0.len() ==> 0 <= #[trigger] ch0[m] < ni);
    }
    assert(newch.no_duplicates());
    assert(forall|m: int| 0 <= m < newch.len() ==> 0 <= #[trigger] newch[m] < bs1.len());

    // Links along the new chain.
    assert forall|m: int| 0 <= m < newch.len() - 1 implies #[trigger] bs1[newch[m]].next == Some(
        newch[m + 1] as usize,
    ) by {
        if m < k {
            assert(newch[m] == ch0[m] && newch[m + 1] == ch0[m + 1]);
            assert(ch0[m] != i);
            assert(bs1[ch0[m]] == bs0[ch0[m]]);
        } else if m == k {
            assert(newch[m] == i && newch[m + 1] == ni);
        } else if m == k + 1 {
            assert(newch[m] == ni);
            if pad_exists {
                assert(newch[m + 1] == ni + 1);
            } else {
                assert(newch[m + 1] == ch0[k + 1]);
                assert(bs0[i].next == Some(ch0[k + 1] as usize));
            }
        } else if pad_exists && m == k + 2 {
            assert(newch[m] == ni + 1 && newch[m + 1] == ch0[k + 1]);
            assert(bs0[i].next == Some(ch0[k + 1] as usize));
        } else {
            assert(newch[m] == ch0[m - w] && newch[m + 1] == ch0[m + 1 - w]);
            assert(ch0[m - w] != i);
            assert(bs1[ch0[m - w]] == bs0[ch0[m - w]]);
        }
    }
    // The chain still ends on a block whose link is `None`.
    let last = newch.len() - 1;
    if k == ch0.len() - 1 {
        if pad_exists {
            assert(newch[last] == ni + 1);
        } else {
            assert(newch[last] == ni);
        }
        assert(bs0[i].next is None);
    } else {
        assert(newch[last] == ch0[ch0.len() - 1]);
        assert(ch0[ch0.len() - 1] != i);
        assert(bs1[newch[last]] == bs0[newch[last]]);
    }

    // The head is unchanged and the chain is nonempty.
    assert(newch[0] == ch0[0]);

    // Every block is sound and the blocks stay pairwise disjoint: the
    // three parts of the split partition the old block's span.
    assert(bs1[i].wf());
    assert(bs1[ni].wf());
    if pad_exists {
        assert(bs1[ni + 1].wf());
    }
    assert forall|a: int, b: int|
        0 <= a < bs1.len() && 0 <= b < bs1.len() && a != b implies (#[trigger] bs1[a]).disjoint(
        #[trigger] bs1[b]) by {
        assert(forall|c: int| 0 <= c < ni && c != i ==> #[trigger] bs1[c] == bs0[c]);
        assert(forall|c: int| 0 <= c < ni && c != i ==> bs0[i].disjoint(#[trigger] bs0[c]));
        // Each piece of the split stays inside the old span.
        assert(h.addr <= bs1[i].addr && bs1[i].end() <= h.end());
        assert(h.addr <= bs1[ni].addr && bs1[ni].end() <= h.end());
        if pad_exists {
            assert(h.addr <= bs1[ni + 1].addr && bs1[ni + 1].end() <= h.end());
        }
    }
}

} // verus!
