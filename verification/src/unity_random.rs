//! The xorshift128 generator behind the game engine's random numbers, seeded the way
//! the engine seeds it.
use vstd::prelude::*;

verus! {

/// The four 32-bit words of xorshift128 state.
#[derive(Debug, Clone)]
pub struct UnityRandom {
    pub s0: u32,
    pub s1: u32,
    pub s2: u32,
    pub s3: u32,
}

/// One step of the seeding recurrence: `1812433253 * x + 1` modulo 2^32.
pub open spec fn seed_step(x: u32) -> u32 {
    vstd::wrapping::u32_specs::wrapping_add(vstd::wrapping::u32_specs::wrapping_mul(1812433253u32, x), 1u32)
}

/// The value mixed into the last word by one xorshift step.
pub open spec fn mix(s0: u32) -> u32 {
    let t = s0 ^ (s0 << 11u32);
    t ^ (t >> 8u32)
}

/// The new last word after one xorshift step; it is also the value drawn.
pub open spec fn next_word(r: UnityRandom) -> u32 {
    (r.s3 ^ (r.s3 >> 19u32)) ^ mix(r.s0)
}

/// The state after one xorshift step.
pub open spec fn advanced(r: UnityRandom) -> UnityRandom {
    UnityRandom { s0: r.s1, s1: r.s2, s2: r.s3, s3: next_word(r) }
}

/// The state the engine builds from a seed.
pub open spec fn seeded(seed: i32) -> UnityRandom {
    let s0 = seed as u32;
    let s1 = seed_step(s0);
    let s2 = seed_step(s1);
    let s3 = seed_step(s2);
    UnityRandom { s0: if s0 == 0 && s1 == 0 && s2 == 0 && s3 == 0 { 1 } else { s0 }, s1, s2, s3 }
}

impl UnityRandom {
    /// The state for `seed`: the seed's bits, then three steps of the seeding recurrence.
    pub fn init_state(seed: i32) -> (r: Self)
        ensures
            r == seeded(seed),
    {
        let mut s0 = seed as u32;
        let s1 = 1812433253u32.wrapping_mul(s0).wrapping_add(1);
        let s2 = 1812433253u32.wrapping_mul(s1).wrapping_add(1);
        let s3 = 1812433253u32.wrapping_mul(s2).wrapping_add(1);
        if s0 == 0 && s1 == 0 && s2 == 0 && s3 == 0 {
            s0 = 1;
        }
        UnityRandom { s0, s1, s2, s3 }
    }

    /// Advances the state by one xorshift step and returns the new last word.
    pub fn next_u32(&mut self) -> (r: u32)
        ensures
            r == next_word(*old(self)),
            *final(self) == advanced(*old(self)),
    {
        let mut t = self.s0;
        t ^= t << 11;
        t ^= t >> 8;
        self.s0 = self.s1;
        self.s1 = self.s2;
        self.s2 = self.s3;
        self.s3 ^= self.s3 >> 19;
        self.s3 ^= t;
        self.s3
    }

    /// An integer in `[min, max)`: `min` plus the next word modulo the width; `min`
    /// without drawing when the range is empty.
    pub fn range_i32(&mut self, min: i32, max: i32) -> (r: i32)
        ensures
            min >= max ==> r == min && *final(self) == *old(self),
            min < max ==> r == min + (next_word(*old(self)) as int % (max - min)) && *final(self) == advanced(
                *old(self),
            ),
            min < max ==> min <= r < max,
    {
        if min >= max {
            return min;
        }
        let diff = (max as i64 - min as i64) as u64;
        let val = self.next_u32() as u64;
        let off = val % diff;
        assert(off < max - min);
        (min as i64 + off as i64) as i32
    }

    /// An index in `[min, max)`: `min` plus the next word modulo the width; `min`
    /// without drawing when the range is empty.
    pub fn range_usize(&mut self, min: usize, max: usize) -> (r: usize)
        ensures
            min >= max ==> r == min && *final(self) == *old(self),
            min < max ==> r == min + (next_word(*old(self)) as int % (max - min)) && *final(self) == advanced(
                *old(self),
            ),
            min < max ==> min <= r < max,
    {
        if min >= max {
            return min;
        }
        let diff = (max - min) as u64;
        let val = self.next_u32() as u64;
        let off = val % diff;
        assert(off < max - min);
        min + off as usize
    }
}

} // verus!
