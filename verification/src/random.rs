//! Pseudo-random test vectors for exercising the sort.

use vstd::prelude::*;

verus! {

/// `10^e`: the length of a generated test vector for exponent `e`.
pub open spec fn pow10(e: int) -> int
    decreases e,
{
    if e <= 0 {
        1
    } else {
        10 * pow10(e - 1)
    }
}

proof fn lemma_pow10_vals()
    ensures
        pow10(0) == 1,
        pow10(9) == 1_000_000_000,
{
    assert(pow10(0) == 1);
    assert(pow10(1) == 10);
    assert(pow10(2) == 100);
    assert(pow10(3) == 1000);
    assert(pow10(4) == 10_000);
    assert(pow10(5) == 100_000);
    assert(pow10(6) == 1_000_000);
    assert(pow10(7) == 10_000_000);
    assert(pow10(8) == 100_000_000);
    assert(pow10(9) == 1_000_000_000);
}

proof fn lemma_pow10_pos(e: int)
    ensures
        pow10(e) >= 1,
    decreases e,
{
    if e > 0 {
        lemma_pow10_pos(e - 1);
    }
}

proof fn lemma_pow10_mono(e1: int, e2: int)
    requires
        e1 <= e2,
    ensures
        pow10(e1) <= pow10(e2),
    decreases e2 - e1,
{
    if e1 < e2 {
        lemma_pow10_mono(e1, e2 - 1);
        lemma_pow10_pos(e2 - 1);
    }
}

/// Relies on rand::random, which draws from the thread-local generator: one
/// pseudo-random value.  Nothing is assumed about which value comes back.
#[verifier::external_body]
fn random_i32() -> i32 {
    rand::random::<i32>()
}

/// A vector of `10^zeroes` pseudo-random 32-bit integers, or an empty vector
/// for a zero exponent.  Exponents past 9 would ask for a count beyond
/// `i32::MAX` and are ruled out.
pub fn generate_vector(zeroes: u32) -> (r: Vec<i32>)
    requires
        zeroes <= 9,
    ensures
        r@.len() == (if zeroes == 0 {
            0int
        } else {
            pow10(zeroes as int)
        }),
{
    let mut r: Vec<i32> = Vec::new();
    if zeroes == 0 {
        return r;
    }
    proof {
        lemma_pow10_vals();
    }
    let mut end: u32 = 1;
    for e in 0..zeroes
        invariant
            zeroes <= 9,
            end == pow10(e as int),
    {
        proof {
            lemma_pow10_vals();
            lemma_pow10_mono(e as int + 1, 9);
        }
        end = end * 10;
    }
    let mut c: u32 = 0;
    while c < end
        invariant
            c <= end,
            r@.len() == c,
        decreases end - c,
    {
        r.push(random_i32());
        c = c + 1;
    }
    r
}

} // verus!
