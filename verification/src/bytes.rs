//! Little-endian numbers and runs of records of one width, as they stand in column files.

use vstd::prelude::*;

verus! {

/// The `n` lowest base-256 digits of `x`, lowest first.
pub open spec fn le(x: nat, n: nat) -> Seq<u8>
    decreases n,
{
    if n == 0 {
        Seq::empty()
    } else {
        seq![(x % 256) as u8] + le(x / 256, (n - 1) as nat)
    }
}

/// The number whose base-256 digits are `s`, lowest first.
pub open spec fn of_le(s: Seq<u8>) -> nat
    decreases s.len(),
{
    if s.len() == 0 {
        0
    } else {
        s[0] as nat + 256 * of_le(s.drop_first())
    }
}

/// How many numbers `n` bytes can tell apart.
pub open spec fn span(n: nat) -> nat
    decreases n,
{
    if n == 0 {
        1
    } else {
        256 * span((n - 1) as nat)
    }
}

/// An `i64` as the unsigned number with the same 64 bits.
pub open spec fn unsigned(v: i64) -> nat {
    if v >= 0 {
        v as nat
    } else {
        (v + 0x1_0000_0000_0000_0000) as nat
    }
}

/// The `i64` with the same 64 bits as `x`.
pub open spec fn signed(x: nat) -> i64 {
    if x < 0x8000_0000_0000_0000 {
        x as i64
    } else {
        (x - 0x1_0000_0000_0000_0000) as i64
    }
}

/// The eight bytes of an `i64`.
pub open spec fn i64_bytes(v: i64) -> Seq<u8> {
    le(unsigned(v), 8)
}

/// The `i64` that eight bytes hold.
pub open spec fn i64_of(s: Seq<u8>) -> i64 {
    signed(of_le(s))
}

/// `n` zero bytes.
pub open spec fn zeros(n: nat) -> Seq<u8> {
    Seq::new(n, |k: int| 0u8)
}

/// How many zero bytes a file of `len` bytes is short of whole pages.
pub open spec fn page_gap(len: nat, page_size: nat) -> nat {
    if len % page_size == 0 {
        0
    } else {
        (page_size - len % page_size) as nat
    }
}

pub proof fn lemma_le_len(x: nat, n: nat)
    ensures
        le(x, n).len() == n,
    decreases n,
{
    if n > 0 {
        lemma_le_len(x / 256, (n - 1) as nat);
    }
}

/// A number that `n` bytes can hold is read back from its `n` bytes.
pub proof fn law_number_reads_back(x: nat, n: nat)
    requires
        x < span(n),
    ensures
        le(x, n).len() == n,
        of_le(le(x, n)) == x,
    decreases n,
{
    if n > 0 {
        law_number_reads_back(x / 256, (n - 1) as nat);
        assert(le(x, n).drop_first() =~= le(x / 256, (n - 1) as nat));
    }
}

pub proof fn lemma_of_le_bound(s: Seq<u8>)
    ensures
        of_le(s) < span(s.len()),
    decreases s.len(),
{
    if s.len() > 0 {
        lemma_of_le_bound(s.drop_first());
    }
}

pub proof fn lemma_span()
    ensures
        span(4) == 0x1_0000_0000,
        span(8) == 0x1_0000_0000_0000_0000,
        forall|n: nat| n < 8 ==> #[trigger] span(n) <= span(7),
{
    reveal_with_fuel(span, 9);
    assert forall|n: nat| n < 8 implies #[trigger] span(n) <= span(7) by {
        if n == 0 {
        } else if n == 1 {
        } else if n == 2 {
        } else if n == 3 {
        } else if n == 4 {
        } else if n == 5 {
        } else if n == 6 {
        }
    }
}

/// An `i64` is read back from its eight bytes.
pub proof fn law_i64_reads_back(v: i64)
    ensures
        i64_bytes(v).len() == 8,
        i64_of(i64_bytes(v)) == v,
{
    lemma_span();
    law_number_reads_back(unsigned(v), 8);
}

/// In a run of records of one width, each record stands at its place.
pub proof fn lemma_even_records(records: Seq<Seq<u8>>, w: nat, i: int)
    requires
        forall|k: int| 0 <= k < records.len() ==> #[trigger] records[k].len() == w,
        0 <= i < records.len(),
    ensures
        records.flatten().len() == w * records.len(),
        w * i + w <= w * records.len(),
        records.flatten().subrange(w * i, w * i + w) == records[i],
    decreases records.len(),
{
    let rest = records.drop_first();
    let n = records.len() as int;
    assert(w * (n - 1) == w * n - w) by (nonlinear_arith);
    assert(w * (i - 1) == w * i - w) by (nonlinear_arith);
    assert(w * i + w <= w * n) by (nonlinear_arith)
        requires
            0 <= i < n,
    ;
    assert(w * i >= 0) by (nonlinear_arith)
        requires
            0 <= i,
    ;
    assert forall|k: int| 0 <= k < rest.len() implies #[trigger] rest[k].len() == w by {
        assert(rest[k] == records[k + 1]);
    }
    lemma_even_len(records, w);
    lemma_even_len(rest, w);
    if i == 0 {
        assert(w * i == 0) by (nonlinear_arith)
            requires
                i == 0,
        ;
        assert(records.flatten().subrange(0, w as int) =~= records[0]);
    } else {
        lemma_even_records(rest, w, i - 1);
        assert(w * i - w >= 0) by (nonlinear_arith)
            requires
                1 <= i,
        ;
        assert(records.flatten().subrange(w * i, w * i + w) =~= rest.flatten().subrange(
            w * (i - 1),
            w * (i - 1) + w,
        ));
    }
}

pub proof fn lemma_even_len(records: Seq<Seq<u8>>, w: nat)
    requires
        forall|k: int| 0 <= k < records.len() ==> #[trigger] records[k].len() == w,
    ensures
        records.flatten().len() == w * records.len(),
    decreases records.len(),
{
    if records.len() > 0 {
        let rest = records.drop_first();
        let n = records.len() as int;
        assert forall|k: int| 0 <= k < rest.len() implies #[trigger] rest[k].len() == w by {
            assert(rest[k] == records[k + 1]);
        }
        lemma_even_len(rest, w);
        assert(w * (n - 1) + w == w * n) by (nonlinear_arith);
    } else {
        assert(w * 0 == 0) by (nonlinear_arith);
    }
}

/// Appends the `n` lowest bytes of `x`.
pub fn push_le(out: &mut Vec<u8>, x: u64, n: usize)
    ensures
        final(out)@ == old(out)@ + le(x as nat, n as nat),
{
    let mut rest: u64 = x;
    let mut k: usize = 0;
    while k < n
        invariant
            k <= n,
            out@ + le(rest as nat, (n - k) as nat) == old(out)@ + le(x as nat, n as nat),
        decreases n - k,
    {
        let ghost before = out@;
        out.push((rest % 256) as u8);
        proof {
            assert(before + le(rest as nat, (n - k) as nat) =~= out@ + le(
                rest as nat / 256,
                (n - k - 1) as nat,
            ));
        }
        rest = rest / 256;
        k += 1;
    }
    assert(out@ + le(rest as nat, 0) =~= out@);
}

/// The number in the `n` bytes at `at`.
pub fn read_le(bytes: &[u8], at: usize, n: usize) -> (r: u64)
    requires
        n <= 8,
        at + n <= bytes@.len(),
    ensures
        r == of_le(bytes@.subrange(at as int, at + n)),
        r < span(n as nat),
{
    let mut acc: u64 = 0;
    let mut k: usize = n;
    proof {
        lemma_span();
        assert(bytes@.subrange(at + n, at + n) =~= Seq::empty());
    }
    while k > 0
        invariant
            k <= n <= 8,
            at + n <= bytes.len(),
            acc == of_le(bytes@.subrange(at + k, at + n)),
        decreases k,
    {
        let ghost tail = bytes@.subrange(at + k, at + n);
        k -= 1;
        proof {
            lemma_span();
            lemma_of_le_bound(tail);
            assert(span(tail.len()) <= span(7));
            assert(span(8) == 256 * span(7));
            assert(bytes@.subrange(at + k, at + n).drop_first() =~= tail);
        }
        acc = acc * 256 + bytes[at + k] as u64;
    }
    proof {
        lemma_of_le_bound(bytes@.subrange(at as int, at + n));
    }
    acc
}

/// The unsigned number with the same 64 bits.
pub fn to_unsigned(v: i64) -> (r: u64)
    ensures
        r == unsigned(v),
{
    if v >= 0 {
        v as u64
    } else {
        u64::MAX - (-(v + 1)) as u64
    }
}

/// The signed number with the same 64 bits.
pub fn to_signed(x: u64) -> (r: i64)
    ensures
        r == signed(x as nat),
{
    if x <= 0x7FFF_FFFF_FFFF_FFFF {
        x as i64
    } else {
        -((u64::MAX - x) as i64) - 1
    }
}

/// Appends zero bytes until the length is a whole number of pages.
pub fn pad_to_page(out: &mut Vec<u8>, page_size: usize)
    requires
        page_size > 0,
    ensures
        final(out)@ == old(out)@ + zeros(page_gap(old(out)@.len(), page_size as nat)),
{
    let rem: usize = out.len() % page_size;
    if rem == 0 {
        assert(out@ + zeros(0) =~= out@);
        return;
    }
    let left: usize = page_size - rem;
    let mut k: usize = 0;
    while k < left
        invariant
            k <= left,
            out@ == old(out)@ + zeros(k as nat),
        decreases left - k,
    {
        out.push(0u8);
        k += 1;
        assert(out@ =~= old(out)@ + zeros(k as nat));
    }
}

} // verus!
