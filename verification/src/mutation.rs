//! Pseudo-random changes to the bytes of a query, for runs on odd input.

use crate::text::chars_of;
use vstd::prelude::*;

verus! {

/// The longest buffer that a change leaves.
pub const MUTATION_CAP: usize = 4096;

/// The query that a change may start again from.
pub const MUTATION_SEED_QUERY: &'static str = "இருந்து பயனர்கள் | வடி வயது > 21 | தேடு வயது;";

/// The state of the generator after `seed`.
pub open spec fn next_state(seed: u64) -> u64 {
    seed.wrapping_mul(6364136223846793005).wrapping_add(1)
}

/// The first `MUTATION_CAP` bytes.
pub open spec fn capped(buf: Seq<u8>) -> Seq<u8> {
    if buf.len() > MUTATION_CAP {
        buf.take(MUTATION_CAP as int)
    } else {
        buf
    }
}

/// What the random number `r` makes of a buffer: one byte replaced, one appended, the last taken
/// off, a run of one byte appended, or the seed query with one bit changed.
pub open spec fn mutated(r: u64, buf: Seq<u8>) -> Seq<u8> {
    let kind = (r >> 8) % 5;
    if kind == 0 {
        if buf.len() > 0 {
            buf.update(r as int % buf.len() as int, (r >> 16) as u8)
        } else {
            buf
        }
    } else if kind == 1 {
        buf.push((r >> 24) as u8)
    } else if kind == 2 {
        if buf.len() > 0 {
            buf.drop_last()
        } else {
            buf
        }
    } else if kind == 3 {
        buf + Seq::new(((r >> 16) % 17) as nat, |k: int| (r >> 8) as u8)
    } else {
        let query = vstd::utf8::encode_utf8(MUTATION_SEED_QUERY@);
        let i = r as int % query.len() as int;
        query.update(i, query[i] ^ 0x20)
    }
}

/// Changes the buffer by the next random number, and never leaves it longer than
/// [`MUTATION_CAP`].
pub fn mutate(seed: &mut u64, buf: &mut Vec<u8>)
    ensures
        *final(seed) == next_state(*old(seed)),
        final(buf)@ == capped(mutated(next_state(*old(seed)), old(buf)@)),
{
    let r: u64 = (*seed).wrapping_mul(6364136223846793005).wrapping_add(1);
    *seed = r;
    let kind: u64 = (r >> 8) % 5;
    if kind == 0 {
        if buf.len() > 0 {
            let i: usize = (r % buf.len() as u64) as usize;
            buf.set(i, #[verifier::truncate] ((r >> 16) as u8));
        }
    } else if kind == 1 {
        buf.push(#[verifier::truncate] ((r >> 24) as u8));
    } else if kind == 2 {
        if buf.len() > 0 {
            buf.pop();
        }
    } else if kind == 3 {
        let n: u64 = (r >> 16) % 17;
        let b: u8 = #[verifier::truncate] ((r >> 8) as u8);
        let mut k: u64 = 0;
        assert(buf@ =~= old(buf)@ + Seq::new(0, |q: int| b));
        while k < n
            invariant
                k <= n,
                buf@ == old(buf)@ + Seq::new(k as nat, |q: int| b),
            decreases n - k,
        {
            buf.push(b);
            k += 1;
            assert(buf@ =~= old(buf)@ + Seq::new(k as nat, |q: int| b));
        }
    } else {
        let query: &str = MUTATION_SEED_QUERY;
        *buf = vstd::slice::slice_to_vec(query.as_bytes());
        proof {
            lemma_seed_query();
        }
        let i: usize = (r % buf.len() as u64) as usize;
        let b: u8 = buf[i];
        buf.set(i, b ^ 0x20);
    }
    assert(buf@ =~= mutated(r, old(buf)@));
    if buf.len() > MUTATION_CAP {
        buf.truncate(MUTATION_CAP);
        assert(buf@ =~= capped(mutated(r, old(buf)@)));
    }
}

/// A change replaces one byte, appends one, takes the last one off, appends up to sixteen times
/// the same one, or starts again from the seed query with one byte changed.
pub proof fn law_a_change_is_one_of_five(r: u64, buf: Seq<u8>)
    ensures
        ({
            let kind = (r >> 8) % 5;
            let after = mutated(r, buf);
            let query = vstd::utf8::encode_utf8(MUTATION_SEED_QUERY@);
            &&& kind == 0 ==> after.len() == buf.len() && forall|i: int|
                0 <= i < buf.len() ==> #[trigger] after[i] == if i == r as int % buf.len() as int {
                    (r >> 16) as u8
                } else {
                    buf[i]
                }
            &&& kind == 1 ==> after.len() == buf.len() + 1 && buf.is_prefix_of(after)
                && after.last() == (r >> 24) as u8
            &&& kind == 2 ==> after.is_prefix_of(buf) && after.len() == if buf.len() == 0 {
                0
            } else {
                buf.len() - 1
            }
            &&& kind == 3 ==> {
                &&& buf.is_prefix_of(after)
                &&& after.len() <= buf.len() + 16
                &&& after.len() == buf.len() + (r >> 16) % 17
                &&& forall|i: int|
                    buf.len() <= i < after.len() ==> #[trigger] after[i] == (r >> 8) as u8
            }
            &&& kind == 4 ==> after.len() == query.len() && forall|i: int|
                0 <= i < query.len() ==> #[trigger] after[i] == if i == r as int
                    % query.len() as int {
                    query[i] ^ 0x20
                } else {
                    query[i]
                }
            &&& capped(after).is_prefix_of(after)
            &&& capped(after).len() <= MUTATION_CAP
            &&& capped(after).len() == after.len() || capped(after).len() == MUTATION_CAP
        }),
{
    let kind = (r >> 8) % 5;
    let after = mutated(r, buf);
    lemma_seed_query();
    assert(kind < 5);
    if kind == 1 || kind == 3 {
        assert(after.subrange(0, buf.len() as int) =~= buf);
    }
    if kind == 2 {
        assert(buf.subrange(0, after.len() as int) =~= after);
    }
    assert(after.subrange(0, capped(after).len() as int) =~= capped(after));
}

proof fn lemma_seed_query()
    ensures
        vstd::utf8::encode_utf8(MUTATION_SEED_QUERY@).len() > 0,
{
    reveal_strlit("இருந்து பயனர்கள் | வடி வயது > 21 | தேடு வயது;");
    let s = MUTATION_SEED_QUERY@;
    assert(s.len() > 0);
    vstd::utf8::encode_utf8_first_scalar(s);
}

} // verus!
