//! Seeded xorshift64 generator: every random choice in the library flows
//! through it, so a given seed always reproduces the same output.

use vstd::prelude::*;

verus! {

/// State used when the seed is zero (xorshift has a fixed point at 0).
pub const ZERO_SEED_STATE: u64 = 0x9E37_79B9_7F4A_7C15;

/// One xorshift64 step (shifts 13, 7, 17).
pub open spec fn xorshift_step(s: u64) -> u64 {
    let a = s ^ (s << 13u64);
    let b = a ^ (a >> 7u64);
    b ^ (b << 17u64)
}

/// Initial state for `seed`.
pub open spec fn seed_state(seed: u64) -> u64 {
    if seed == 0 {
        ZERO_SEED_STATE
    } else {
        seed
    }
}

pub struct XorShift64 {
    state: u64,
}

impl XorShift64 {
    /// The current generator state.
    pub closed spec fn state(&self) -> u64 {
        self.state
    }

    pub fn new(seed: u64) -> (r: XorShift64)
        ensures
            r.state() == seed_state(seed),
    {
        if seed == 0 {
            XorShift64 { state: ZERO_SEED_STATE }
        } else {
            XorShift64 { state: seed }
        }
    }

    /// Advances the state and returns it.
    pub fn next_u64(&mut self) -> (v: u64)
        ensures
            final(self).state() == xorshift_step(old(self).state()),
            v == final(self).state(),
    {
        let s = self.state;
        let a = s ^ (s << 13u64);
        let b = a ^ (a >> 7u64);
        let c = b ^ (b << 17u64);
        self.state = c;
        c
    }

    /// Uniform-ish draw in `0 .. n`: the next state modulo `n`.
    pub fn gen_range(&mut self, n: usize) -> (v: usize)
        requires
            n > 0,
        ensures
            final(self).state() == xorshift_step(old(self).state()),
            v as int == xorshift_step(old(self).state()) as int % n as int,
            v < n,
    {
        let x = self.next_u64();
        (x % (n as u64)) as usize
    }

    /// One draw of a sample index in `0 .. n` that is kept only when it is
    /// not among `taken` (drawing distinct indices repeats this until enough
    /// are kept).
    pub fn draw_distinct(&mut self, n: usize, taken: &[usize]) -> (r: Option<usize>)
        requires
            n > 0,
        ensures
            final(self).state() == xorshift_step(old(self).state()),
            ({
                let v = (xorshift_step(old(self).state()) as int % n as int) as usize;
                r == if taken@.contains(v) {
                    None::<usize>
                } else {
                    Some(v)
                }
            }),
    {
        let c = self.gen_range(n);
        if index_taken(taken, c) {
            None
        } else {
            Some(c)
        }
    }
}

/// Whether `c` occurs in `taken`.
fn index_taken(taken: &[usize], c: usize) -> (b: bool)
    ensures
        b == taken@.contains(c),
{
    let mut i: usize = 0;
    while i < taken.len()
        invariant
            i <= taken@.len(),
            forall|k: int| 0 <= k < i ==> taken@[k] != c,
        decreases taken@.len() - i,
    {
        if taken[i] == c {
            assert(taken@[i as int] == c);
            return true;
        }
        i = i + 1;
    }
    false
}

} // verus!
