//! The xorshift64 generator that expands a seed into hypervector bytes.

use vstd::prelude::*;

verus! {

/// One step of Marsaglia's xorshift64 (shifts 13, 7, 17).
pub open spec fn xorshift_step(x: u64) -> u64 {
    let a = x ^ (x << 13u64);
    let b = a ^ (a >> 7u64);
    b ^ (b << 17u64)
}

/// The generator state after `n` steps from `seed`.
pub open spec fn xorshift_iter(seed: u64, n: nat) -> u64
    decreases n,
{
    if n == 0 {
        seed
    } else {
        xorshift_step(xorshift_iter(seed, (n - 1) as nat))
    }
}

/// The first `n` bytes that the generator emits from `seed`: the low byte of
/// each successive state.
pub open spec fn xorshift_bytes(seed: u64, n: nat) -> Seq<u8> {
    Seq::new(n, |i: int| xorshift_iter(seed, (i + 1) as nat) as u8)
}

/// Advances the generator state and returns the low byte of the new state.
pub fn xorshift64(state: &mut u64) -> (r: u8)
    ensures
        *final(state) == xorshift_step(*old(state)),
        r == (*final(state)) as u8,
{
    let mut x = *state;
    x ^= x << 13u64;
    x ^= x >> 7u64;
    x ^= x << 17u64;
    *state = x;
    x as u8
}

/// Expands `seed` into `n` bytes by repeated calls of `xorshift64`.
pub fn xorshift_fill(seed: u64, n: usize) -> (out: Vec<u8>)
    ensures
        out@ == xorshift_bytes(seed, n as nat),
{
    let mut state = seed;
    let mut out: Vec<u8> = Vec::with_capacity(n);
    let mut i: usize = 0;
    while i < n
        invariant
            i <= n,
            state == xorshift_iter(seed, i as nat),
            out@.len() == i,
            forall|j: int| 0 <= j < i ==> out@[j] == xorshift_iter(seed, (j + 1) as nat) as u8,
        decreases n - i,
    {
        let b = xorshift64(&mut state);
        out.push(b);
        i = i + 1;
    }
    assert(out@ =~= xorshift_bytes(seed, n as nat));
    out
}

} // verus!
