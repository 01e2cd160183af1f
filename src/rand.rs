use vstd::prelude::*;

verus! {

const LCG_MODULUS: u128 = 0x1_0000_0000_0000_0000;
const LCG_INCREMENT: u64 = 1442695040888963407;
const LCG_MULTIPLIER: u64 = 6364136223846793005;

/// One step of the linear congruential generator.
pub open spec fn lcg_step(s: u64) -> u64 {
    ((6364136223846793005 * (s as int) + 1442695040888963407) % 0x1_0000_0000_0000_0000) as u64
}

/// The 9 offsets `random_direction` picks from, standing still included.
pub open spec fn dir9(i: int) -> (i32, i32) {
    if i == 0 { (-1i32, 0i32) }
    else if i == 1 { (1i32, 0i32) }
    else if i == 2 { (0i32, -1i32) }
    else if i == 3 { (1i32, -1i32) }
    else if i == 4 { (0i32, 0i32) }
    else if i == 5 { (-1i32, -1i32) }
    else if i == 6 { (0i32, 1i32) }
    else if i == 7 { (1i32, 1i32) }
    else { (-1i32, 1i32) }
}

/// A small deterministic pseudo random number generator.
#[derive(Debug)]
pub struct RandomGenerator {
    seed: u64,
}

impl View for RandomGenerator {
    type V = u64;

    /// The current state.
    closed spec fn view(&self) -> u64 {
        self.seed
    }
}

impl RandomGenerator {
    pub fn new(seed: u64) -> (r: RandomGenerator)
        ensures
            r@ == seed,
    {
        RandomGenerator { seed }
    }

    /// Advances the state and returns its upper 59 bits.
    pub fn next(&mut self) -> (r: u64)
        ensures
            final(self)@ == lcg_step(old(self)@),
            r == lcg_step(old(self)@) / 32,
    {
        proof {
            assert((LCG_MULTIPLIER as u128) * (self.seed as u128) <= 0x8000_0000_0000_0000 * 0x1_0000_0000_0000_0000)
                by (nonlinear_arith)
                requires
                    LCG_MULTIPLIER < 0x8000_0000_0000_0000,
                    self.seed < 0x1_0000_0000_0000_0000,
            ;
        }
        let x = (LCG_MULTIPLIER as u128) * (self.seed as u128) + LCG_INCREMENT as u128;
        self.seed = (x % LCG_MODULUS) as u64;
        let s = self.seed;
        assert(s >> 5 == s / 32) by (bit_vector);
        s >> 5
    }

    /// A number in `from..to`, or `from` when the range is empty.
    pub fn next_in_range(&mut self, from: u64, to: u64) -> (r: u64)
        ensures
            from >= to ==> r == from && final(self)@ == old(self)@,
            from < to ==> final(self)@ == lcg_step(old(self)@) && r == from + (lcg_step(old(self)@) / 32) as int % (
            to - from) as int,
            from < to ==> from <= r < to,
    {
        if from >= to {
            return from;
        }
        let n = self.next();
        from + (n % (to - from))
    }

    /// One of the 8 directions or standing still.
    pub fn random_direction(&mut self) -> (r: (i32, i32))
        ensures
            final(self)@ == lcg_step(old(self)@),
            r == dir9(((lcg_step(old(self)@) / 32) % 9) as int),
            -1 <= r.0 <= 1 && -1 <= r.1 <= 1,
    {
        let index = self.next_in_range(0, 9);
        dir9_exec(index)
    }

    /// One of `options`, chosen at random.
    pub fn pick_random<T: Copy>(&mut self, options: &[T]) -> (r: T)
        requires
            options@.len() > 0,
        ensures
            final(self)@ == lcg_step(old(self)@),
            r == options@[(lcg_step(old(self)@) / 32) as int % options@.len() as int],
    {
        let index = self.next() % options.len() as u64;
        options[index as usize]
    }
}

fn dir9_exec(i: u64) -> (r: (i32, i32))
    requires
        i < 9,
    ensures
        r == dir9(i as int),
{
    if i == 0 { (-1, 0) }
    else if i == 1 { (1, 0) }
    else if i == 2 { (0, -1) }
    else if i == 3 { (1, -1) }
    else if i == 4 { (0, 0) }
    else if i == 5 { (-1, -1) }
    else if i == 6 { (0, 1) }
    else if i == 7 { (1, 1) }
    else { (-1, 1) }
}


/// A generator is its state.
pub proof fn lemma_view_eq(a: RandomGenerator, b: RandomGenerator)
    requires
        a@ == b@,
    ensures
        a == b,
{
}

} // verus!
