//! A seedable source of uniform random values over half-open ranges.
use vstd::prelude::*;
use rand::{Rng, SeedableRng};
use rand::rngs::StdRng;
use crate::color::Color;

verus! {

#[verifier::external_type_specification]
#[verifier::external_body]
pub struct ExStdRng(StdRng);

/// Relies on rand's `SeedableRng::seed_from_u64` for `StdRng`: a generator
/// whose whole stream is fixed by the seed.
#[verifier::external_body]
fn std_rng_from_seed(seed: u64) -> StdRng {
    StdRng::seed_from_u64(seed)
}

/// Relies on rand's `Rng::gen_range` over `lo..hi`: a value in the half-open
/// range, which must not be empty.
#[verifier::external_body]
fn std_rng_u32(rng: &mut StdRng, lo: u32, hi: u32) -> (r: u32)
    requires
        lo < hi,
    ensures
        lo <= r < hi,
{
    rng.gen_range(lo..hi)
}

/// Relies on rand's `Rng::gen_range` over `lo..hi`: a value in the half-open
/// range, which must not be empty.
#[verifier::external_body]
fn std_rng_i64(rng: &mut StdRng, lo: i64, hi: i64) -> (r: i64)
    requires
        lo < hi,
    ensures
        lo <= r < hi,
{
    rng.gen_range(lo..hi)
}

/// The generator that every random choice of a scene is drawn from.
pub struct RandomSource {
    rng: StdRng,
    drawn: Ghost<Seq<(int, int, int)>>,
}

impl RandomSource {
    /// Every draw made so far, in order, as `(lo, hi, value)`: the value
    /// came from the half-open range `lo..hi`.
    pub closed spec fn log(&self) -> Seq<(int, int, int)> {
        self.drawn@
    }

    /// A source whose draws are fixed by `seed`.
    pub fn from_seed(seed: u64) -> (s: RandomSource)
        ensures
            s.log() == Seq::<(int, int, int)>::empty(),
    {
        RandomSource { rng: std_rng_from_seed(seed), drawn: Ghost(Seq::empty()) }
    }

    /// A value drawn uniformly from `lo..hi`.
    pub fn range_u32(&mut self, lo: u32, hi: u32) -> (r: u32)
        requires
            lo < hi,
        ensures
            lo <= r < hi,
            final(self).log() == old(self).log().push((lo as int, hi as int, r as int)),
    {
        let r = std_rng_u32(&mut self.rng, lo, hi);
        self.drawn = Ghost(self.drawn@.push((lo as int, hi as int, r as int)));
        r
    }

    /// A value drawn uniformly from `lo..hi`.
    pub fn range_i64(&mut self, lo: i64, hi: i64) -> (r: i64)
        requires
            lo < hi,
        ensures
            lo <= r < hi,
            final(self).log() == old(self).log().push((lo as int, hi as int, r as int)),
    {
        let r = std_rng_i64(&mut self.rng, lo, hi);
        self.drawn = Ghost(self.drawn@.push((lo as int, hi as int, r as int)));
        r
    }

    /// A fair coin: heads when a draw from `0..2` is zero.
    pub fn coin(&mut self) -> (heads: bool)
        ensures
            exists|v: int|
                final(self).log() == #[trigger] old(self).log().push((0, 2, v)) && (heads <==> v
                    == 0),
    {
        let v = self.range_u32(0, 2);
        v == 0
    }

    /// A colour whose channels are three draws, in order, from the ranges
    /// `r.0..r.1`, `g.0..g.1` and `b.0..b.1`.
    pub fn color_in(&mut self, r: (u8, u8), g: (u8, u8), b: (u8, u8)) -> (c: Color)
        requires
            r.0 < r.1,
            g.0 < g.1,
            b.0 < b.1,
        ensures
            r.0 <= c.r < r.1,
            g.0 <= c.g < g.1,
            b.0 <= c.b < b.1,
            final(self).log() == old(self).log() + seq![
                (r.0 as int, r.1 as int, c.r as int),
                (g.0 as int, g.1 as int, c.g as int),
                (b.0 as int, b.1 as int, c.b as int),
            ],
    {
        let cr = self.range_u32(r.0 as u32, r.1 as u32) as u8;
        let cg = self.range_u32(g.0 as u32, g.1 as u32) as u8;
        let cb = self.range_u32(b.0 as u32, b.1 as u32) as u8;
        let c = Color { r: cr, g: cg, b: cb };
        assert(self.log() =~= old(self).log() + seq![
            (r.0 as int, r.1 as int, c.r as int),
            (g.0 as int, g.1 as int, c.g as int),
            (b.0 as int, b.1 as int, c.b as int),
        ]);
        c
    }
}

} // verus!
