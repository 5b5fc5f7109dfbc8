//! Kernels over fixed column buffers: filter, arithmetic, radix sort and merge join.

use vstd::prelude::*;
use crate::storage::{SelectionVector, BATCH_ROWS, MAX_ROWS};

verus! {

/// Lanes of an unrolled group.
pub const UNROLL: usize = 8;

/// Buckets of a radix pass.
pub const RADIX: usize = 256;

/// Arithmetic of a derived column.
#[derive(Copy, Clone, Debug, PartialEq, Eq, Structural)]
pub enum ArithOp {
    Mul,
    Add,
    Sub,
}

impl ArithOp {
    /// `a op b`, wrapping at the ends of the 64-bit range.
    pub open spec fn apply(self, a: i64, b: i64) -> i64 {
        match self {
            ArithOp::Mul => a.wrapping_mul(b),
            ArithOp::Add => a.wrapping_add(b),
            ArithOp::Sub => a.wrapping_sub(b),
        }
    }
}

/// `a op b`, wrapping at the ends of the 64-bit range.
pub fn arith_i64(op: ArithOp, a: i64, b: i64) -> (r: i64)
    ensures
        r == op.apply(a, b),
{
    match op {
        ArithOp::Mul => a.wrapping_mul(b),
        ArithOp::Add => a.wrapping_add(b),
        ArithOp::Sub => a.wrapping_sub(b),
    }
}

/// Working set of one chunk.
pub struct ChunkScratch {
    pub buf: [i64; BATCH_ROWS],
    pub mask: [u8; BATCH_ROWS],
}

impl ChunkScratch {
    pub fn new() -> (r: Self)
        ensures
            r.buf@ == Seq::new(BATCH_ROWS as nat, |i: int| 0i64),
            r.mask@ == Seq::new(BATCH_ROWS as nat, |i: int| 0u8),
    {
        let r = ChunkScratch { buf: [0i64; BATCH_ROWS], mask: [0u8; BATCH_ROWS] };
        assert(r.buf@ =~= Seq::new(BATCH_ROWS as nat, |i: int| 0i64));
        assert(r.mask@ =~= Seq::new(BATCH_ROWS as nat, |i: int| 0u8));
        r
    }
}

/// Full-width working set for dense transforms.
pub struct EngineScratchPad {
    pub dense: [i64; MAX_ROWS],
    pub order: [u16; MAX_ROWS],
}

impl EngineScratchPad {
    pub fn new() -> (r: Self)
        ensures
            r.dense@ == Seq::new(MAX_ROWS as nat, |i: int| 0i64),
            r.order@ == Seq::new(MAX_ROWS as nat, |i: int| 0u16),
    {
        let r = EngineScratchPad { dense: [0i64; MAX_ROWS], order: [0u16; MAX_ROWS] };
        assert(r.dense@ =~= Seq::new(MAX_ROWS as nat, |i: int| 0i64));
        assert(r.order@ =~= Seq::new(MAX_ROWS as nat, |i: int| 0u16));
        r
    }
}

/// Histogram and scatter buffer of a radix sort.
pub struct RadixScratchPad {
    pub hist: [u32; RADIX],
    pub tmp: [u16; MAX_ROWS],
}

impl RadixScratchPad {
    pub fn new() -> (r: Self)
        ensures
            r.hist@ == Seq::new(RADIX as nat, |i: int| 0u32),
            r.tmp@ == Seq::new(MAX_ROWS as nat, |i: int| 0u16),
    {
        let r = RadixScratchPad { hist: [0u32; RADIX], tmp: [0u16; MAX_ROWS] };
        assert(r.hist@ =~= Seq::new(RADIX as nat, |i: int| 0u32));
        assert(r.tmp@ =~= Seq::new(MAX_ROWS as nat, |i: int| 0u16));
        r
    }
}

/// Writes `src[i] op lit` to `dst[i]` for the rows of `start..end`, at most one batch of them.
pub fn derive_chunk(
    src: &[i64],
    dst: &mut [i64],
    start: usize,
    end: usize,
    op: ArithOp,
    lit: i64,
)
    requires
        start <= end <= src@.len(),
        end <= old(dst)@.len(),
        end - start <= BATCH_ROWS,
    ensures
        final(dst)@.len() == old(dst)@.len(),
        forall|i: int|
            0 <= i < old(dst)@.len() ==> #[trigger] final(dst)@[i] == if start <= i < end {
                op.apply(src@[i], lit)
            } else {
                old(dst)@[i]
            },
{
    let mut scratch = ChunkScratch::new();
    let mut i: usize = start;
    while end - i >= UNROLL
        invariant
            start <= i <= end <= src@.len(),
            end <= dst@.len(),
            end - start <= BATCH_ROWS,
            dst@.len() == old(dst)@.len(),
            forall|k: int|
                0 <= k < old(dst)@.len() ==> #[trigger] dst@[k] == if start <= k < i {
                    op.apply(src@[k], lit)
                } else {
                    old(dst)@[k]
                },
        decreases end - i,
    {
        let mut lane: usize = 0;
        while lane < UNROLL
            invariant
                lane <= UNROLL,
                start <= i,
                i + UNROLL <= end <= src@.len(),
                end <= dst@.len(),
                end - start <= BATCH_ROWS,
                dst@.len() == old(dst)@.len(),
                forall|k: int|
                    0 <= k < old(dst)@.len() ==> #[trigger] dst@[k] == if start <= k < i + lane {
                        op.apply(src@[k], lit)
                    } else {
                        old(dst)@[k]
                    },
            decreases UNROLL - lane,
        {
            let idx: usize = i + lane;
            let v: i64 = arith_i64(op, src[idx], lit);
            scratch.buf[idx - start] = v;
            dst[idx] = v;
            lane += 1;
        }
        i += UNROLL;
    }
    while i < end
        invariant
            start <= i <= end <= src@.len(),
            end <= dst@.len(),
            end - start <= BATCH_ROWS,
            dst@.len() == old(dst)@.len(),
            forall|k: int|
                0 <= k < old(dst)@.len() ==> #[trigger] dst@[k] == if start <= k < i {
                    op.apply(src@[k], lit)
                } else {
                    old(dst)@[k]
                },
        decreases end - i,
    {
        let v: i64 = arith_i64(op, src[i], lit);
        scratch.buf[i - start] = v;
        dst[i] = v;
        i += 1;
    }
}

/// Writes `src[i] op lit` to `dst[i]` for the first `n` rows, batch by batch.
pub fn execute_chunk_parallel(
    src: &[i64; MAX_ROWS],
    dst: &mut [i64; MAX_ROWS],
    n: usize,
    op: ArithOp,
    lit: i64,
)
    ensures
        forall|i: int|
            0 <= i < MAX_ROWS ==> #[trigger] final(dst)@[i] == if i < n {
                op.apply(src@[i], lit)
            } else {
                old(dst)@[i]
            },
{
    let n: usize = if n < MAX_ROWS {
        n
    } else {
        MAX_ROWS
    };
    let mut start: usize = 0;
    while start < n
        invariant
            start <= n <= MAX_ROWS,
            forall|k: int|
                0 <= k < MAX_ROWS ==> #[trigger] dst@[k] == if k < start {
                    op.apply(src@[k], lit)
                } else {
                    old(dst)@[k]
                },
        decreases n - start,
    {
        let end: usize = if n - start < BATCH_ROWS {
            n
        } else {
            start + BATCH_ROWS
        };
        derive_chunk(src, dst, start, end, op, lit);
        start = end;
    }
}

/// A comparison of a filter.
#[derive(Copy, Clone, Debug, PartialEq, Eq, Structural)]
pub enum CompareOp {
    Gt,
    Lt,
    Eq,
}

impl CompareOp {
    /// Whether `v op lit` holds.
    pub open spec fn holds(self, v: i64, lit: i64) -> bool {
        match self {
            CompareOp::Gt => v > lit,
            CompareOp::Lt => v < lit,
            CompareOp::Eq => v == lit,
        }
    }
}

/// `1` if `v op lit` holds, else `0`.
pub fn compare_i64(op: CompareOp, v: i64, lit: i64) -> (r: u8)
    ensures
        r == if op.holds(v, lit) {
            1u8
        } else {
            0u8
        },
{
    let hit = match op {
        CompareOp::Gt => v > lit,
        CompareOp::Lt => v < lit,
        CompareOp::Eq => v == lit,
    };
    if hit {
        1
    } else {
        0
    }
}

/// The byte a filter leaves in the mask: what was there, and-ed with the comparison.
pub open spec fn masked(m: u8, op: CompareOp, v: i64, lit: i64) -> u8 {
    m & (if op.holds(v, lit) {
        1u8
    } else {
        0u8
    })
}

/// The rows a filter looks at: those of the table, of the selection and of the buffer.
pub open spec fn filter_rows(rows: usize, len: u16) -> int {
    let a: int = if rows < len {
        rows as int
    } else {
        len as int
    };
    if a < MAX_ROWS {
        a
    } else {
        MAX_ROWS as int
    }
}

/// A mask after a filter of its first `n` rows.
pub open spec fn filtered_mask(
    mask: Seq<u8>,
    values: Seq<i64>,
    n: int,
    op: CompareOp,
    lit: i64,
) -> Seq<u8> {
    Seq::new(
        mask.len(),
        |i: int|
            if i < n {
                masked(mask[i], op, values[i], lit)
            } else {
                mask[i]
            },
    )
}

/// Filters the eight rows from `i` on.
fn apply_unroll8(
    values: &[i64; MAX_ROWS],
    sel: &mut SelectionVector,
    i: usize,
    lit: i64,
    op: CompareOp,
)
    requires
        i + UNROLL <= MAX_ROWS,
    ensures
        final(sel).len == old(sel).len,
        forall|k: int|
            0 <= k < MAX_ROWS ==> #[trigger] final(sel).mask@[k] == if i <= k < i + UNROLL {
                masked(old(sel).mask@[k], op, values@[k], lit)
            } else {
                old(sel).mask@[k]
            },
{
    let p0: u8 = compare_i64(op, values[i], lit);
    let p1: u8 = compare_i64(op, values[i + 1], lit);
    let p2: u8 = compare_i64(op, values[i + 2], lit);
    let p3: u8 = compare_i64(op, values[i + 3], lit);
    let p4: u8 = compare_i64(op, values[i + 4], lit);
    let p5: u8 = compare_i64(op, values[i + 5], lit);
    let p6: u8 = compare_i64(op, values[i + 6], lit);
    let p7: u8 = compare_i64(op, values[i + 7], lit);
    sel.mask[i] &= p0;
    sel.mask[i + 1] &= p1;
    sel.mask[i + 2] &= p2;
    sel.mask[i + 3] &= p3;
    sel.mask[i + 4] &= p4;
    sel.mask[i + 5] &= p5;
    sel.mask[i + 6] &= p6;
    sel.mask[i + 7] &= p7;
}

/// And-s the mask of the rows in view with `values[i] op lit`: whole batches, then groups of
/// eight, then the rows that are left. Nothing behind the rows in view is touched.
pub fn filter_i64_chunked(
    values: &[i64; MAX_ROWS],
    sel: &mut SelectionVector,
    rows: usize,
    lit: i64,
    op: CompareOp,
)
    ensures
        final(sel).len == old(sel).len,
        final(sel).mask@ == filtered_mask(
            old(sel).mask@,
            values@,
            filter_rows(rows, old(sel).len),
            op,
            lit,
        ),
{
    let shorter: usize = if rows < sel.len as usize {
        rows
    } else {
        sel.len as usize
    };
    let n: usize = if shorter < MAX_ROWS {
        shorter
    } else {
        MAX_ROWS
    };
    let mut i: usize = 0;
    while n - i >= BATCH_ROWS
        invariant
            i <= n <= MAX_ROWS,
            sel.len == old(sel).len,
            forall|k: int|
                0 <= k < MAX_ROWS ==> #[trigger] sel.mask@[k] == if k < i {
                    masked(old(sel).mask@[k], op, values@[k], lit)
                } else {
                    old(sel).mask@[k]
                },
        decreases n - i,
    {
        let mut j: usize = 0;
        while j < BATCH_ROWS
            invariant
                j <= BATCH_ROWS,
                j % 8 == 0,
                i + BATCH_ROWS <= n <= MAX_ROWS,
                sel.len == old(sel).len,
                forall|k: int|
                    0 <= k < MAX_ROWS ==> #[trigger] sel.mask@[k] == if k < i + j {
                        masked(old(sel).mask@[k], op, values@[k], lit)
                    } else {
                        old(sel).mask@[k]
                    },
            decreases BATCH_ROWS - j,
        {
            apply_unroll8(values, sel, i + j, lit, op);
            j += UNROLL;
        }
        i += BATCH_ROWS;
    }
    while n - i >= UNROLL
        invariant
            i <= n <= MAX_ROWS,
            sel.len == old(sel).len,
            forall|k: int|
                0 <= k < MAX_ROWS ==> #[trigger] sel.mask@[k] == if k < i {
                    masked(old(sel).mask@[k], op, values@[k], lit)
                } else {
                    old(sel).mask@[k]
                },
        decreases n - i,
    {
        apply_unroll8(values, sel, i, lit, op);
        i += UNROLL;
    }
    while i < n
        invariant
            i <= n <= MAX_ROWS,
            sel.len == old(sel).len,
            forall|k: int|
                0 <= k < MAX_ROWS ==> #[trigger] sel.mask@[k] == if k < i {
                    masked(old(sel).mask@[k], op, values@[k], lit)
                } else {
                    old(sel).mask@[k]
                },
        decreases n - i,
    {
        sel.mask[i] &= compare_i64(op, values[i], lit);
        i += 1;
    }
    assert(sel.mask@ =~= filtered_mask(
        old(sel).mask@,
        values@,
        filter_rows(rows, old(sel).len),
        op,
        lit,
    ));
}

/// The unsigned key whose order is the order of `v`.
pub open spec fn sort_key(v: i64) -> u64 {
    (v as u64) ^ 0x8000_0000_0000_0000u64
}

/// The low `bits` bits of a key.
pub open spec fn low_bits(key: u64, bits: u64) -> u64 {
    if bits >= 64 {
        key
    } else {
        key & !(0xFFFF_FFFF_FFFF_FFFFu64 << bits)
    }
}

/// The byte of a key that a pass looks at.
pub open spec fn key_byte(key: u64, shift: u64) -> u64 {
    (key >> shift) & 0xFFu64
}

spec fn by_low_bits(values: Seq<i64>, bits: u64) -> spec_fn(u16) -> int {
    |x: u16| low_bits(sort_key(values[x as int]), bits) as int
}

spec fn by_byte(values: Seq<i64>, shift: u64) -> spec_fn(u16) -> int {
    |x: u16| key_byte(sort_key(values[x as int]), shift) as int
}


proof fn lemma_key_order(a: i64, b: i64)
    ensures
        a < b <==> sort_key(a) < sort_key(b),
        a == b <==> sort_key(a) == sort_key(b),
{
    assert(a < b <==> ((a as u64) ^ 0x8000_0000_0000_0000u64) < ((b as u64)
        ^ 0x8000_0000_0000_0000u64)) by (bit_vector);
    assert(a == b <==> ((a as u64) ^ 0x8000_0000_0000_0000u64) == ((b as u64)
        ^ 0x8000_0000_0000_0000u64)) by (bit_vector);
}

proof fn lemma_byte_step(a: u64, b: u64, shift: u64)
    requires
        shift <= 56,
    ensures
        low_bits(a, (shift + 8) as u64) < low_bits(b, (shift + 8) as u64) ==> key_byte(a, shift)
            < key_byte(b, shift) || (key_byte(a, shift) == key_byte(b, shift) && low_bits(a, shift)
            < low_bits(b, shift)),
        low_bits(a, (shift + 8) as u64) == low_bits(b, (shift + 8) as u64) ==> key_byte(a, shift)
            == key_byte(b, shift) && low_bits(a, shift) == low_bits(b, shift),
{
    let m: u64 = 0xFFFF_FFFF_FFFF_FFFFu64;
    let s2: u64 = (shift + 8) as u64;
    if shift == 56 {
        assert((a < b ==> ((a >> 56) & 0xFFu64) < ((b >> 56) & 0xFFu64) || (((a >> 56) & 0xFFu64)
            == ((b >> 56) & 0xFFu64) && (a & !(m << 56)) < (b & !(m << 56))))) by (bit_vector)
            requires
                m == 0xFFFF_FFFF_FFFF_FFFFu64,
        ;
    } else {
        assert((a & !(m << s2)) < (b & !(m << s2)) ==> ((a >> shift) & 0xFFu64) < ((b >> shift)
            & 0xFFu64) || (((a >> shift) & 0xFFu64) == ((b >> shift) & 0xFFu64) && (a & !(m
            << shift)) < (b & !(m << shift)))) by (bit_vector)
            requires
                m == 0xFFFF_FFFF_FFFF_FFFFu64,
                shift < 56,
                s2 == shift + 8,
        ;
        assert((a & !(m << s2)) == (b & !(m << s2)) ==> ((a >> shift) & 0xFFu64) == ((b >> shift)
            & 0xFFu64) && (a & !(m << shift)) == (b & !(m << shift))) by (bit_vector)
            requires
                m == 0xFFFF_FFFF_FFFF_FFFFu64,
                shift < 56,
                s2 == shift + 8,
        ;
    }
}

/// How many of the first `n` elements have key `b`.
spec fn bucket_count(key: spec_fn(u16) -> int, s: Seq<u16>, n: int, b: int) -> int
    decreases n,
{
    if n <= 0 {
        0
    } else {
        bucket_count(key, s, n - 1, b) + if key(s[n - 1]) == b {
            1int
        } else {
            0
        }
    }
}

/// How many of the first `n` elements have a key below `b`.
spec fn below_count(key: spec_fn(u16) -> int, s: Seq<u16>, n: int, b: int) -> int
    decreases n,
{
    if n <= 0 {
        0
    } else {
        below_count(key, s, n - 1, b) + if key(s[n - 1]) < b {
            1int
        } else {
            0
        }
    }
}

proof fn lemma_counts(key: spec_fn(u16) -> int, s: Seq<u16>, n: int, b: int)
    requires
        0 <= n,
    ensures
        0 <= bucket_count(key, s, n, b),
        0 <= below_count(key, s, n, b) <= n,
        below_count(key, s, n, b + 1) == below_count(key, s, n, b) + bucket_count(key, s, n, b),
    decreases n,
{
    if n > 0 {
        lemma_counts(key, s, n - 1, b);
    }
}

proof fn lemma_below_monotone(key: spec_fn(u16) -> int, s: Seq<u16>, n: int, b: int, c: int)
    requires
        b <= c,
    ensures
        below_count(key, s, n, b) <= below_count(key, s, n, c),
    decreases n,
{
    if n > 0 {
        lemma_below_monotone(key, s, n - 1, b, c);
    }
}

proof fn lemma_below_zero(key: spec_fn(u16) -> int, s: Seq<u16>, n: int)
    requires
        n <= s.len(),
        forall|i: int| 0 <= i < s.len() ==> 0 <= key(#[trigger] s[i]),
    ensures
        below_count(key, s, n, 0) == 0,
    decreases n,
{
    if n > 0 {
        lemma_below_zero(key, s, n - 1);
        assert(0 <= key(s[n - 1]));
    }
}

proof fn lemma_bucket_monotone(key: spec_fn(u16) -> int, s: Seq<u16>, i: int, j: int, b: int)
    requires
        0 <= i <= j,
    ensures
        bucket_count(key, s, i, b) <= bucket_count(key, s, j, b),
    decreases j,
{
    if i < j {
        lemma_bucket_monotone(key, s, i, j - 1, b);
    }
}

/// Where element `i` goes in a stable distribution by key.
spec fn destination(key: spec_fn(u16) -> int, s: Seq<u16>, i: int) -> int {
    below_count(key, s, s.len() as int, key(s[i])) + bucket_count(key, s, i, key(s[i]))
}

proof fn lemma_destination_range(key: spec_fn(u16) -> int, s: Seq<u16>, i: int)
    requires
        0 <= i < s.len(),
    ensures
        0 <= destination(key, s, i) < s.len(),
        destination(key, s, i) < below_count(key, s, s.len() as int, key(s[i]) + 1),
{
    let n = s.len() as int;
    let b = key(s[i]);
    lemma_counts(key, s, n, b);
    lemma_counts(key, s, n, b + 1);
    lemma_counts(key, s, i, b);
    lemma_bucket_monotone(key, s, i + 1, n, b);
}

proof fn lemma_destination_order(key: spec_fn(u16) -> int, s: Seq<u16>, i: int, j: int)
    requires
        0 <= i < s.len(),
        0 <= j < s.len(),
        crate::order::precedes(key, s, i, j),
    ensures
        destination(key, s, i) < destination(key, s, j),
{
    let n = s.len() as int;
    if key(s[i]) < key(s[j]) {
        lemma_destination_range(key, s, i);
        lemma_below_monotone(key, s, n, key(s[i]) + 1, key(s[j]));
        lemma_counts(key, s, j, key(s[j]));
    } else {
        lemma_bucket_monotone(key, s, i + 1, j, key(s[i]));
    }
}

/// The bucket of row `idx` in the pass at `shift`.
fn bucket_of(values: &[i64; MAX_ROWS], idx: u16, shift: u64) -> (b: usize)
    requires
        idx < MAX_ROWS,
        shift <= 56,
    ensures
        b < RADIX,
        b == by_byte(values@, shift)(idx),
{
    let key: u64 = #[verifier::truncate]
    (values[idx as usize] as u64) ^ 0x8000_0000_0000_0000u64;
    let byte: u64 = (key >> shift) & 0xFFu64;
    assert(byte < 256) by (bit_vector)
        requires
            byte == (key >> shift) & 0xFFu64,
    ;
    byte as usize
}

/// One stable distribution of `order[0..order_len]` by the byte of the key at `shift`.
fn radix_pass(
    values: &[i64; MAX_ROWS],
    order: &mut [u16; MAX_ROWS],
    order_len: usize,
    tmp: &mut [u16; MAX_ROWS],
    hist: &mut [u32; RADIX],
    shift: u64,
) -> (place: Ghost<Seq<int>>)
    requires
        order_len <= MAX_ROWS,
        shift <= 56,
        forall|j: int| 0 <= j < order_len ==> #[trigger] old(order)@[j] < MAX_ROWS,
    ensures
        crate::order::placed(
            by_byte(values@, shift),
            old(order)@.take(order_len as int),
            final(order)@.take(order_len as int),
            place@,
        ),
        final(order)@.skip(order_len as int) == old(order)@.skip(order_len as int),
        final(tmp)@ == final(order)@.take(order_len as int) + old(tmp)@.skip(order_len as int),
{
    let ghost key = by_byte(values@, shift);
    let ghost s = order@.take(order_len as int);
    let mut b: usize = 0;
    while b < RADIX
        invariant
            b <= RADIX,
            forall|c: int| 0 <= c < b ==> hist@[c] == 0,
        decreases RADIX - b,
    {
        hist[b] = 0;
        b += 1;
    }
    let mut j: usize = 0;
    while j < order_len
        invariant
            j <= order_len <= MAX_ROWS,
            shift <= 56,
            key == by_byte(values@, shift),
            s == order@.take(order_len as int),
            forall|k: int| 0 <= k < order_len ==> #[trigger] order@[k] < MAX_ROWS,
            forall|c: int| 0 <= c < RADIX ==> #[trigger] hist@[c] == bucket_count(key, s, j as int, c),
            forall|c: int| 0 <= c < RADIX ==> #[trigger] hist@[c] <= j,
        decreases order_len - j,
    {
        let bucket: usize = bucket_of(values, order[j], shift);
        assert(s[j as int] == order@[j as int]);
        hist[bucket] = hist[bucket] + 1;
        j += 1;
    }
    proof {
        assert forall|i: int| 0 <= i < s.len() implies 0 <= key(#[trigger] s[i]) by {}
        lemma_below_zero(key, s, order_len as int);
    }
    let mut sum: u32 = 0;
    let mut b: usize = 0;
    while b < RADIX
        invariant
            b <= RADIX,
            order_len <= MAX_ROWS,
            s.len() == order_len,
            sum == below_count(key, s, order_len as int, b as int),
            sum <= order_len,
            forall|c: int|
                b <= c < RADIX ==> #[trigger] hist@[c] == bucket_count(key, s, order_len as int, c),
            forall|c: int|
                0 <= c < b ==> #[trigger] hist@[c] == below_count(key, s, order_len as int, c),
        decreases RADIX - b,
    {
        let c: u32 = hist[b];
        hist[b] = sum;
        proof {
            lemma_counts(key, s, order_len as int, b as int);
            lemma_counts(key, s, order_len as int, b as int + 1);
        }
        sum = sum + c;
        b += 1;
    }
    let ghost place = Seq::new(s.len(), |i: int| destination(key, s, i));
    let mut j: usize = 0;
    while j < order_len
        invariant
            j <= order_len <= MAX_ROWS,
            shift <= 56,
            key == by_byte(values@, shift),
            s == order@.take(order_len as int),
            order@ == old(order)@,
            place == Seq::new(s.len(), |i: int| destination(key, s, i)),
            forall|k: int| 0 <= k < order_len ==> #[trigger] order@[k] < MAX_ROWS,
            forall|c: int|
                0 <= c < RADIX ==> #[trigger] hist@[c] == below_count(key, s, order_len as int, c)
                    + bucket_count(key, s, j as int, c),
            forall|i: int| 0 <= i < j ==> tmp@[#[trigger] place[i]] == s[i],
            tmp@.skip(order_len as int) == old(tmp)@.skip(order_len as int),
        decreases order_len - j,
    {
        let idx: u16 = order[j];
        let bucket: usize = bucket_of(values, idx, shift);
        assert(s[j as int] == idx);
        let dest: usize = hist[bucket] as usize;
        proof {
            lemma_destination_range(key, s, j as int);
            assert(dest == place[j as int]);
            assert forall|i: int| 0 <= i < j implies #[trigger] place[i] != dest && 0 <= place[i]
                < order_len by {
                lemma_destination_range(key, s, i);
                if crate::order::precedes(key, s, i, j as int) {
                    lemma_destination_order(key, s, i, j as int);
                } else {
                    lemma_destination_order(key, s, j as int, i);
                }
            }
            lemma_counts(key, s, order_len as int, bucket as int);
        }
        tmp[dest] = idx;
        hist[bucket] = hist[bucket] + 1;
        assert(tmp@.skip(order_len as int) =~= old(tmp)@.skip(order_len as int));
        j += 1;
    }
    let mut j: usize = 0;
    while j < order_len
        invariant
            j <= order_len <= MAX_ROWS,
            forall|k: int| 0 <= k < j ==> order@[k] == tmp@[k],
            forall|k: int| order_len <= k < MAX_ROWS ==> order@[k] == old(order)@[k],
        decreases order_len - j,
    {
        order[j] = tmp[j];
        j += 1;
    }
    proof {
        let t = order@.take(order_len as int);
        assert forall|i: int| 0 <= i < s.len() implies 0 <= #[trigger] place[i] < s.len()
            && t[place[i]] == s[i] by {
            lemma_destination_range(key, s, i);
        }
        assert forall|i: int, k: int|
            0 <= i < s.len() && 0 <= k < s.len() && crate::order::precedes(
                key,
                s,
                i,
                k,
            ) implies #[trigger] place[i] < #[trigger] place[k] by {
            lemma_destination_order(key, s, i, k);
        }
        assert(order@.skip(order_len as int) =~= old(order)@.skip(order_len as int));
        assert(tmp@ =~= order@.take(order_len as int) + old(tmp)@.skip(order_len as int)) by {
            assert forall|k: int| order_len <= k < MAX_ROWS implies tmp@[k] == old(tmp)@[k] by {
                assert(tmp@.skip(order_len as int)[k - order_len] == old(tmp)@.skip(
                    order_len as int,
                )[k - order_len]);
            }
        }
    }
    Ghost(place)
}

/// Two stable distributions, by the low bits and then by the byte above them, make one by
/// the longer run of low bits.
proof fn lemma_passes_compose(
    values: Seq<i64>,
    shift: u64,
    s: Seq<u16>,
    t: Seq<u16>,
    u: Seq<u16>,
    p: Seq<int>,
    q: Seq<int>,
) -> (r: Seq<int>)
    requires
        shift <= 56,
        crate::order::placed(by_low_bits(values, shift), s, t, p),
        crate::order::placed(by_byte(values, shift), t, u, q),
    ensures
        crate::order::placed(by_low_bits(values, (shift + 8) as u64), s, u, r),
{
    let r = Seq::new(s.len(), |i: int| q[p[i]]);
    let low = by_low_bits(values, shift);
    let byte = by_byte(values, shift);
    let long = by_low_bits(values, (shift + 8) as u64);
    assert forall|i: int| 0 <= i < s.len() implies 0 <= #[trigger] r[i] < s.len() && u[r[i]]
        == s[i] by {
        assert(0 <= p[i] < s.len());
        assert(0 <= q[p[i]] < s.len());
    }
    assert forall|i: int, j: int|
        0 <= i < s.len() && 0 <= j < s.len() && crate::order::precedes(
            long,
            s,
            i,
            j,
        ) implies #[trigger] r[i] < #[trigger] r[j] by {
        assert(0 <= p[i] < s.len() && t[p[i]] == s[i]);
        assert(0 <= p[j] < s.len() && t[p[j]] == s[j]);
        lemma_byte_step(sort_key(values[s[i] as int]), sort_key(values[s[j] as int]), shift);
        if byte(s[i]) < byte(s[j]) {
            assert(crate::order::precedes(byte, t, p[i], p[j]));
        } else {
            assert(crate::order::precedes(low, s, i, j));
            assert(p[i] < p[j]);
            assert(crate::order::precedes(byte, t, p[i], p[j]));
        }
        assert(q[p[i]] < q[p[j]]);
    }
    r
}

/// What a sort leaves in its scatter buffer `tmp`: the sorted rows, if there is more than one.
pub open spec fn scattered(tmp: Seq<u16>, sorted: Seq<u16>) -> Seq<u16> {
    if sorted.len() <= 1 {
        tmp
    } else {
        sorted + tmp.skip(sorted.len() as int)
    }
}

/// Sorts `order[0..order_len]` stably by the values of the rows it names, ascending, in eight
/// passes over the bytes of the key.
pub fn lsd_radix_sort_ages(
    values: &[i64; MAX_ROWS],
    order: &mut [u16; MAX_ROWS],
    order_len: usize,
    tmp: &mut [u16; MAX_ROWS],
)
    requires
        order_len <= MAX_ROWS,
        order_len > 1 ==> forall|j: int|
            0 <= j < order_len ==> #[trigger] old(order)@[j] < MAX_ROWS,
    ensures
        final(order)@ == crate::order::stable_sort(
            crate::order::by_value(values@),
            old(order)@.take(order_len as int),
        ) + old(order)@.skip(order_len as int),
        final(tmp)@ == scattered(old(tmp)@, final(order)@.take(order_len as int)),
{
    let ghost n = order_len as int;
    let ghost s = order@.take(n);
    if order_len <= 1 {
        proof {
            let key = crate::order::by_value(values@);
            if n == 1 {
                assert(s.drop_last() =~= Seq::<u16>::empty());
                assert(crate::order::stable_sort(key, s.drop_last()) =~= Seq::<u16>::empty());
                assert(crate::order::stable_sort(key, s) =~= s);
            }
            assert(order@ =~= crate::order::stable_sort(key, s) + order@.skip(n));
        }
        return ;
    }
    let mut hist: [u32; RADIX] = [0u32; RADIX];
    let ghost mut place = Seq::new(s.len(), |i: int| i);
    let mut pass: u64 = 0;
    proof {
        let low = by_low_bits(values@, 0);
        assert forall|i: int, j: int|
            0 <= i < s.len() && 0 <= j < s.len() && crate::order::precedes(
                low,
                s,
                i,
                j,
            ) implies #[trigger] place[i] < #[trigger] place[j] by {
            let a = sort_key(values@[s[i] as int]);
            let b = sort_key(values@[s[j] as int]);
            assert((a & !(0xFFFF_FFFF_FFFF_FFFFu64 << 0u64)) == 0) by (bit_vector);
            assert((b & !(0xFFFF_FFFF_FFFF_FFFFu64 << 0u64)) == 0) by (bit_vector);
        }
    }
    while pass < 8
        invariant
            pass <= 8,
            1 < order_len <= MAX_ROWS,
            n == order_len,
            s == old(order)@.take(n),
            forall|j: int| 0 <= j < order_len ==> #[trigger] order@[j] < MAX_ROWS,
            crate::order::placed(by_low_bits(values@, (8 * pass) as u64), s, order@.take(n), place),
            order@.skip(n) == old(order)@.skip(n),
            pass == 0 ==> tmp@ == old(tmp)@,
            pass > 0 ==> tmp@ == order@.take(n) + old(tmp)@.skip(n),
        decreases 8 - pass,
    {
        let ghost before = order@.take(n);
        let ghost tmp_before = tmp@;
        let shift: u64 = pass * 8;
        let Ghost(step) = radix_pass(values, order, order_len, tmp, &mut hist, shift);
        proof {
            let after = order@.take(n);
            assert forall|j: int| 0 <= j < order_len implies #[trigger] order@[j] < MAX_ROWS by {
                lemma_placed_source(by_byte(values@, shift), before, after, step, j);
                let i = choose|i: int| 0 <= i < before.len() && before[i] == after[j];
                assert(before[i] < MAX_ROWS);
            }
            place = lemma_passes_compose(values@, shift, s, before, after, place, step);
            assert(tmp_before.skip(n) =~= old(tmp)@.skip(n));
        }
        pass += 1;
    }
    proof {
        let key = crate::order::by_value(values@);
        let low = by_low_bits(values@, 64);
        let t = order@.take(n);
        assert forall|i: int, j: int|
            0 <= i < s.len() && 0 <= j < s.len() && crate::order::precedes(
                key,
                s,
                i,
                j,
            ) implies #[trigger] place[i] < #[trigger] place[j] by {
            lemma_key_order(values@[s[i] as int], values@[s[j] as int]);
            assert(crate::order::precedes(low, s, i, j));
        }
        crate::order::lemma_placed_is_stable_sort(key, s, t, place);
        assert(order@ =~= t + order@.skip(n));
    }
}

/// Every element of a sorted list stands somewhere in the list it was sorted from.
proof fn lemma_placed_source(
    key: spec_fn(u16) -> int,
    s: Seq<u16>,
    t: Seq<u16>,
    place: Seq<int>,
    d: int,
)
    requires
        crate::order::placed(key, s, t, place),
        0 <= d < t.len(),
    ensures
        exists|i: int| 0 <= i < s.len() && #[trigger] s[i] == t[d],
{
    crate::order::lemma_placed_is_stable_sort(key, s, t, place);
    crate::order::lemma_stable_sort_elements(key, s, d);
    let i = choose|i: int| 0 <= i < s.len() && s[i] == t[d];
    assert(s[i] == t[d]);
}

/// Sorts as [`lsd_radix_sort_ages`] does, with a scatter buffer of its own.
pub fn lsd_radix_sort_ages_tls(
    values: &[i64; MAX_ROWS],
    order: &mut [u16; MAX_ROWS],
    order_len: usize,
)
    requires
        order_len <= MAX_ROWS,
        order_len > 1 ==> forall|j: int|
            0 <= j < order_len ==> #[trigger] old(order)@[j] < MAX_ROWS,
    ensures
        final(order)@ == crate::order::stable_sort(
            crate::order::by_value(values@),
            old(order)@.take(order_len as int),
        ) + old(order)@.skip(order_len as int),
{
    let mut pad = RadixScratchPad::new();
    lsd_radix_sort_ages(values, order, order_len, &mut pad.tmp);
}

/// The rows of a join side: the stable sort of `0..n` by key.
pub open spec fn sorted_rows(keys: Seq<i64>, n: nat) -> Seq<u16> {
    crate::order::stable_sort(crate::order::by_value(keys), crate::order::iota(n))
}

/// The pairs of an equi-join of `left[0..ln]` and `right[0..rn]`: by ascending key, within a
/// key by ascending left row, and for each left row by ascending right row.
pub open spec fn equi_join(left: Seq<i64>, ln: nat, right: Seq<i64>, rn: nat) -> Seq<(u16, u16)> {
    crate::order::join_pairs(
        crate::order::by_value(left),
        sorted_rows(left, ln),
        crate::order::by_value(right),
        crate::order::iota(rn),
    )
}

/// `n` rows, at most [`MAX_ROWS`] of them.
pub open spec fn clamp_rows(n: int) -> nat {
    if n < MAX_ROWS {
        n as nat
    } else {
        MAX_ROWS as nat
    }
}

proof fn lemma_join_by_sorted(
    lkey: spec_fn(u16) -> int,
    ls: Seq<u16>,
    rkey: spec_fn(u16) -> int,
    rs: Seq<u16>,
)
    ensures
        crate::order::join_pairs(lkey, ls, rkey, crate::order::stable_sort(rkey, rs))
            == crate::order::join_pairs(lkey, ls, rkey, rs),
    decreases ls.len(),
{
    if ls.len() > 0 {
        lemma_join_by_sorted(lkey, ls.drop_last(), rkey, rs);
        crate::order::law_stable_sort_is_stable(rkey, rs, lkey(ls.last()));
    }
}

/// Fills `order[0..n]` with the rows `0..n` sorted stably by key.
fn sort_side(
    keys: &[i64; MAX_ROWS],
    n: usize,
    order: &mut [u16; MAX_ROWS],
    tmp: &mut [u16; MAX_ROWS],
)
    requires
        n <= MAX_ROWS,
    ensures
        final(order)@ == sorted_rows(keys@, n as nat) + old(order)@.skip(n as int),
        final(tmp)@ == scattered(old(tmp)@, sorted_rows(keys@, n as nat)),
        sorted_rows(keys@, n as nat).len() == n,
        forall|i: int| 0 <= i < n ==> 0 <= #[trigger] final(order)@[i] < n,
{
    let mut i: usize = 0;
    while i < n
        invariant
            i <= n <= MAX_ROWS,
            forall|k: int| 0 <= k < i ==> #[trigger] order@[k] == k,
            forall|k: int| n <= k < MAX_ROWS ==> order@[k] == old(order)@[k],
        decreases n - i,
    {
        order[i] = i as u16;
        i += 1;
    }
    assert(order@.take(n as int) =~= crate::order::iota(n as nat));
    assert(order@.skip(n as int) =~= old(order)@.skip(n as int));
    lsd_radix_sort_ages(keys, order, n, tmp);
    proof {
        let key = crate::order::by_value(keys@);
        let s = crate::order::iota(n as nat);
        crate::order::law_stable_sort_permutes(key, s);
        assert(order@.take(n as int) =~= sorted_rows(keys@, n as nat));
        assert forall|i: int| 0 <= i < n implies 0 <= #[trigger] order@[i] < n by {
            crate::order::lemma_stable_sort_elements(key, s, i);
            let j = choose|j: int| 0 <= j < s.len() && s[j] == sorted_rows(keys@, n as nat)[i];
            assert(s[j] == j as u16);
        }
    }
}

/// Joins `left_keys[0..left_n]` and `right_keys[0..right_n]` on equal keys and returns the
/// number of pairs written: all of them, or the first [`MAX_ROWS`] if there are more.
///
/// Both sides are sorted and then merged; neither side's position ever moves back but to the
/// start of the run of equal right keys that the next left row shares. `tmp` is the scatter
/// buffer of both sorts.
#[verifier::rlimit(60)]
pub fn vector_merge_join(
    left_keys: &[i64; MAX_ROWS],
    left_n: usize,
    right_keys: &[i64; MAX_ROWS],
    right_n: usize,
    out_left: &mut [u16; MAX_ROWS],
    out_right: &mut [u16; MAX_ROWS],
    left_order: &mut [u16; MAX_ROWS],
    right_order: &mut [u16; MAX_ROWS],
    tmp: &mut [u16; MAX_ROWS],
) -> (r: usize)
    ensures
        ({
            let ln = clamp_rows(left_n as int);
            let rn = clamp_rows(right_n as int);
            let pairs = crate::order::first_of(
                equi_join(left_keys@, ln, right_keys@, rn),
                MAX_ROWS as int,
            );
            &&& r == pairs.len()
            &&& r <= MAX_ROWS
            &&& forall|i: int|
                #![trigger final(out_left)@[i]]
                #![trigger final(out_right)@[i]]
                0 <= i < r ==> (final(out_left)@[i], final(out_right)@[i]) == pairs[i]
                    && final(out_left)@[i] < ln && final(out_right)@[i] < rn
            &&& final(out_left)@.skip(r as int) == old(out_left)@.skip(r as int)
            &&& final(out_right)@.skip(r as int) == old(out_right)@.skip(r as int)
            &&& final(left_order)@ == sorted_rows(left_keys@, ln) + old(left_order)@.skip(ln as int)
            &&& final(right_order)@ == sorted_rows(right_keys@, rn) + old(right_order)@.skip(
                rn as int,
            )
            &&& final(tmp)@ == scattered(
                scattered(old(tmp)@, sorted_rows(left_keys@, ln)),
                sorted_rows(right_keys@, rn),
            )
        }),
{
    let ln: usize = if left_n < MAX_ROWS {
        left_n
    } else {
        MAX_ROWS
    };
    let rn: usize = if right_n < MAX_ROWS {
        right_n
    } else {
        MAX_ROWS
    };
    sort_side(left_keys, ln, left_order, tmp);
    sort_side(right_keys, rn, right_order, tmp);

    let ghost lkey = crate::order::by_value(left_keys@);
    let ghost rkey = crate::order::by_value(right_keys@);
    let ghost ls = sorted_rows(left_keys@, ln as nat);
    let ghost rs = sorted_rows(right_keys@, rn as nat);
    let ghost all = crate::order::join_pairs(lkey, ls, rkey, rs);
    proof {
        lemma_join_by_sorted(lkey, ls, rkey, crate::order::iota(rn as nat));
        crate::order::law_stable_sort_ascends(lkey, crate::order::iota(ln as nat));
        crate::order::law_stable_sort_ascends(rkey, crate::order::iota(rn as nat));
        assert(ls.take(0) =~= Seq::<u16>::empty());
    }
    let ghost mut done = Seq::<(u16, u16)>::empty();
    let mut li: usize = 0;
    let mut ri: usize = 0;
    let mut out_n: usize = 0;
    while li < ln && ri < rn && out_n < MAX_ROWS
        invariant
            li <= ln <= MAX_ROWS,
            ri <= rn <= MAX_ROWS,
            out_n <= MAX_ROWS,
            ls.len() == ln,
            rs.len() == rn,
            lkey == crate::order::by_value(left_keys@),
            rkey == crate::order::by_value(right_keys@),
            all == crate::order::join_pairs(lkey, ls, rkey, rs),
            forall|i: int| 0 <= i < ln ==> #[trigger] left_order@[i] == ls[i] && ls[i] < ln,
            forall|i: int| 0 <= i < rn ==> #[trigger] right_order@[i] == rs[i] && rs[i] < rn,
            forall|i: int, j: int|
                0 <= i <= j < ln ==> lkey(#[trigger] ls[i]) <= lkey(#[trigger] ls[j]),
            forall|i: int, j: int|
                0 <= i <= j < rn ==> rkey(#[trigger] rs[i]) <= rkey(#[trigger] rs[j]),
            done.len() == out_n,
            done == crate::order::join_pairs(lkey, ls.take(li as int), rkey, rs) || (out_n
                == MAX_ROWS && out_n <= all.len() && done == all.take(out_n as int)),
            li < ln ==> forall|j: int| 0 <= j < ri ==> rkey(#[trigger] rs[j]) < lkey(ls[li as int]),
            forall|i: int|
                0 <= i < out_n ==> (#[trigger] out_left@[i], out_right@[i]) == done[i]
                    && out_left@[i] < ln && out_right@[i] < rn,
            forall|i: int| out_n <= i < MAX_ROWS ==> #[trigger] out_left@[i] == old(out_left)@[i],
            forall|i: int| out_n <= i < MAX_ROWS ==> #[trigger] out_right@[i] == old(out_right)@[i],
        decreases (ln - li) + (rn - ri), ln - li,
    {
        let lrow: u16 = left_order[li];
        let lk: i64 = left_keys[lrow as usize];
        let rk: i64 = right_keys[right_order[ri] as usize];
        proof {
            assert(left_order@[li as int] == ls[li as int]);
            assert(right_order@[ri as int] == rs[ri as int]);
            let next = ls.take(li as int + 1);
            assert(next.drop_last() =~= ls.take(li as int));
            assert(next.last() == ls[li as int]);
        }
        if lk < rk {
            proof {
                crate::order::lemma_with_key_run(rkey, rs, lk as int, ri as int, ri as int);
                assert(crate::order::join_pairs(lkey, ls.take(li as int + 1), rkey, rs)
                    =~= crate::order::join_pairs(lkey, ls.take(li as int), rkey, rs));
                if li + 1 < ln {
                    assert(lkey(ls[li as int]) <= lkey(ls[li as int + 1]));
                }
            }
            li += 1;
        } else if lk > rk {
            ri += 1;
        } else {
            let run_start: usize = ri;
            let ghost base = done;
            let mut r2: usize = run_start;
            while r2 < rn && out_n < MAX_ROWS && right_keys[right_order[r2] as usize] == lk
                invariant
                    run_start < rn,
                    run_start <= r2 <= rn <= MAX_ROWS,
                    out_n <= MAX_ROWS,
                    li < ln <= MAX_ROWS,
                    rs.len() == rn,
                    ls.len() == ln,
                    lrow == ls[li as int],
                    lrow < ln,
                    rkey == crate::order::by_value(right_keys@),
                    forall|i: int| 0 <= i < rn ==> #[trigger] right_order@[i] == rs[i] && rs[i] < rn,
                    forall|i: int| run_start <= i < r2 ==> rkey(#[trigger] rs[i]) == lk,
                    done == base + rs.subrange(run_start as int, r2 as int).map_values(
                        |r: u16| (lrow, r),
                    ),
                    done.len() == out_n,
                    forall|i: int|
                        0 <= i < out_n ==> (#[trigger] out_left@[i], out_right@[i]) == done[i]
                            && out_left@[i] < ln && out_right@[i] < rn,
                    forall|i: int|
                        out_n <= i < MAX_ROWS ==> #[trigger] out_left@[i] == old(out_left)@[i],
                    forall|i: int|
                        out_n <= i < MAX_ROWS ==> #[trigger] out_right@[i] == old(out_right)@[i],
                decreases rn - r2,
            {
                out_left[out_n] = lrow;
                out_right[out_n] = right_order[r2];
                proof {
                    assert(right_order@[r2 as int] == rs[r2 as int]);
                    let grown = done.push((lrow, rs[r2 as int]));
                    assert(grown =~= base + rs.subrange(run_start as int, r2 as int + 1).map_values(
                        |r: u16| (lrow, r),
                    ));
                    done = grown;
                }
                out_n += 1;
                r2 += 1;
            }
            proof {
                // The run of equal right keys reaches from `run_start` to `e`.
                let run = crate::order::with_key(rkey, rs, lk as int);
                let e = lemma_run_end(rkey, rs, lk as int, run_start as int, r2 as int);
                crate::order::lemma_with_key_run(rkey, rs, lk as int, run_start as int, e);
                let step = crate::order::join_pairs(lkey, ls.take(li as int + 1), rkey, rs);
                assert(step =~= base + rs.subrange(run_start as int, e).map_values(
                    |r: u16| (lrow, r),
                ));
                if r2 == e {
                    assert(done =~= step);
                } else {
                    assert(out_n == MAX_ROWS);
                    crate::order::lemma_join_prefix(lkey, ls, rkey, rs, li as int + 1);
                    assert(done =~= step.take(out_n as int));
                    assert(all.take(step.len() as int).take(out_n as int) =~= all.take(
                        out_n as int,
                    ));
                }
            }
            li += 1;
            let next_same = li < ln && left_keys[left_order[li] as usize] == lk;
            proof {
                if li < ln {
                    assert(left_order@[li as int] == ls[li as int]);
                    assert(lkey(ls[li as int - 1]) <= lkey(ls[li as int]));
                }
            }
            ri = if next_same {
                run_start
            } else {
                r2
            };
        }
    }
    proof {
        let pairs = crate::order::first_of(all, MAX_ROWS as int);
        if done == crate::order::join_pairs(lkey, ls.take(li as int), rkey, rs) {
            crate::order::lemma_join_prefix(lkey, ls, rkey, rs, li as int);
            if li == ln {
                assert(ls.take(li as int) =~= ls);
            } else if ri == rn {
                assert forall|i: int, j: int| li <= i < ls.len() && 0 <= j < rs.len() implies lkey(
                    #[trigger] ls[i],
                ) != rkey(#[trigger] rs[j]) by {
                    assert(lkey(ls[li as int]) <= lkey(ls[i]));
                    assert(rkey(rs[j]) < lkey(ls[li as int]));
                }
                crate::order::lemma_join_no_more(lkey, ls, rkey, rs, li as int);
            }
        }
        assert(all.take(all.len() as int) =~= all);
        assert(done =~= pairs);
        assert(out_left@.skip(out_n as int) =~= old(out_left)@.skip(out_n as int));
        assert(out_right@.skip(out_n as int) =~= old(out_right)@.skip(out_n as int));
    }
    out_n
}

/// Where the run of key `k` that holds `a..b` ends in a sorted list.
proof fn lemma_run_end(key: spec_fn(u16) -> int, s: Seq<u16>, k: int, a: int, b: int) -> (e: int)
    requires
        0 <= a <= b <= s.len(),
        forall|i: int, j: int|
            0 <= i <= j < s.len() ==> key(#[trigger] s[i]) <= key(#[trigger] s[j]),
        forall|i: int| a <= i < b ==> key(#[trigger] s[i]) == k,
        a < s.len() ==> key(s[a]) >= k,
    ensures
        b <= e <= s.len(),
        forall|i: int| a <= i < e ==> key(#[trigger] s[i]) == k,
        forall|i: int| e <= i < s.len() ==> key(#[trigger] s[i]) > k,
        b < s.len() && key(s[b]) != k ==> e == b,
    decreases s.len() - b,
{
    if b < s.len() && key(s[b]) == k {
        lemma_run_end(key, s, k, a, b + 1)
    } else {
        if b < s.len() {
            assert(key(s[a]) <= key(s[b]));
            assert forall|i: int| b <= i < s.len() implies key(#[trigger] s[i]) > k by {
                assert(key(s[b]) <= key(s[i]));
            }
        }
        b
    }
}

} // verus!
