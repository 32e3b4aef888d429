//! Edge-cost evaluation: deterministic, or perturbed per traversal by a
//! uniformly drawn factor, to model terrain or sensor uncertainty.
//!
//! All realized costs are scaled: an edge of base weight `w` costs
//! `w * f`, where the factor `f` is exactly [`SCALE`] in deterministic
//! mode and is drawn from `[lo, hi)` around [`SCALE`] in stochastic mode.

use vstd::prelude::*;

use rand::Rng;
use rand::SeedableRng;
use rand::rngs::StdRng;

verus! {

/// The cost-unit scale: the perturbation factor that leaves a base weight
/// unchanged (in scaled units).
pub const SCALE: u64 = 1000;

/// Default lower bound of the stochastic perturbation factor (0.9 of
/// [`SCALE`]).
pub const PERTURB_LO: u64 = 900;

/// Default upper bound (exclusive) of the stochastic perturbation factor
/// (1.1 of [`SCALE`]).
pub const PERTURB_HI: u64 = 1100;

/// Declares rand's seedable standard generator so it can live in a field;
/// its values are opaque to the verifier.
#[verifier::external_type_specification]
#[verifier::external_body]
pub struct ExStdRng(StdRng);

/// Relies on rand::rngs::StdRng::seed_from_u64 (SeedableRng): builds a
/// generator from the seed; nothing further is assumed of it.
#[verifier::external_body]
fn seeded_rng(seed: u64) -> StdRng {
    StdRng::seed_from_u64(seed)
}

/// Relies on rand::Rng::gen_range over `u64`: a uniform draw from the
/// half-open range `lo..hi`, which must be non-empty.
#[verifier::external_body]
fn draw_factor(rng: &mut StdRng, lo: u64, hi: u64) -> (r: u64)
    requires
        lo < hi,
    ensures
        lo <= r < hi,
{
    rng.gen_range(lo..hi)
}

/// Relies on rand::thread_rng and rand::Rng::gen: a fresh arbitrary seed;
/// nothing is promised of its value.
#[verifier::external_body]
fn random_seed() -> (r: u64) {
    rand::thread_rng().gen()
}

/// Computes the realized cost of traversing an edge. The deterministic
/// variant multiplies the base weight by exactly [`SCALE`]; the stochastic
/// variant draws an independent perturbation factor per call from
/// `[lo, hi)`.
pub struct CostModel {
    stochastic: bool,
    lo: u64,
    hi: u64,
    rng: StdRng,
}

impl CostModel {
    /// The factor bounds are a non-empty range, and deterministic mode
    /// pins the factor to [`SCALE`].
    pub closed spec fn wf(self) -> bool {
        if self.stochastic {
            self.lo < self.hi
        } else {
            self.lo == SCALE && self.hi == SCALE
        }
    }

    /// Least factor this model can apply to a base weight.
    pub closed spec fn lo_spec(self) -> int {
        self.lo as int
    }

    /// Greatest factor this model can apply to a base weight.
    pub closed spec fn hi_spec(self) -> int {
        self.hi as int
    }

    pub closed spec fn is_stochastic(self) -> bool {
        self.stochastic
    }

    /// A model whose factor is always exactly [`SCALE`].
    pub fn deterministic() -> (r: Self)
        ensures
            r.wf(),
            !r.is_stochastic(),
            r.lo_spec() == SCALE,
            r.hi_spec() == SCALE,
    {
        CostModel { stochastic: false, lo: SCALE, hi: SCALE, rng: seeded_rng(0) }
    }

    /// A model that draws a factor from `[lo, hi)` per traversal, seeded
    /// for reproducibility.
    pub fn stochastic(lo: u64, hi: u64, seed: u64) -> (r: Self)
        requires
            lo < hi,
        ensures
            r.wf(),
            r.is_stochastic(),
            r.lo_spec() == lo,
            r.hi_spec() == hi,
    {
        CostModel { stochastic: true, lo, hi, rng: seeded_rng(seed) }
    }

    /// The stochastic model of the default perturbation range
    /// `[0.9, 1.1) * SCALE`, seeded arbitrarily.
    pub fn stochastic_default() -> (r: Self)
        ensures
            r.wf(),
            r.is_stochastic(),
            r.lo_spec() == PERTURB_LO,
            r.hi_spec() == PERTURB_HI,
    {
        CostModel { stochastic: true, lo: PERTURB_LO, hi: PERTURB_HI, rng: seeded_rng(random_seed()) }
    }

    /// The realized cost of one traversal of an edge of base weight `w`:
    /// `w` times a factor in `[lo_spec, hi_spec]`, or `None` where that
    /// product cannot be represented.
    pub fn edge_cost(&mut self, w: u64) -> (r: Option<u64>)
        requires
            old(self).wf(),
        ensures
            final(self).wf(),
            final(self).lo_spec() == old(self).lo_spec(),
            final(self).hi_spec() == old(self).hi_spec(),
            final(self).is_stochastic() == old(self).is_stochastic(),
            r matches Some(c) ==> old(self).lo_spec() * w <= c as int <= old(self).hi_spec() * w,
            r is None ==> old(self).hi_spec() * w > u64::MAX,
    {
        let f: u64 = if self.stochastic {
            let lo = self.lo;
            let hi = self.hi;
            draw_factor(&mut self.rng, lo, hi)
        } else {
            SCALE
        };
        proof {
            assert(old(self).lo_spec() <= f as int <= old(self).hi_spec());
        }
        if w == 0 {
            proof {
                assert(old(self).lo_spec() * w == 0 && old(self).hi_spec() * w == 0);
            }
            Some(0)
        } else if f <= u64::MAX / w {
            proof {
                lemma_mul_bounds(w as int, f as int, old(self).lo_spec(), old(self).hi_spec());
            }
            Some(w * f)
        } else {
            proof {
                lemma_mul_overflow(w as int, f as int, old(self).hi_spec());
            }
            None
        }
    }
}

/// A well-formed model's factor bounds are ordered and non-negative.
pub proof fn lemma_model_bounds(m: CostModel)
    requires
        m.wf(),
    ensures
        0 <= m.lo_spec() <= m.hi_spec(),
{
}

/// If the factor lies within `[lo, hi]` then so does the scaled cost, and
/// `f <= MAX / w` keeps the product representable.
proof fn lemma_mul_bounds(w: int, f: int, lo: int, hi: int)
    requires
        w >= 1,
        0 <= lo <= f <= hi,
        f <= u64::MAX as int / w,
    ensures
        lo * w <= f * w <= hi * w,
        f * w <= u64::MAX as int,
{
    assert(lo * w <= f * w <= hi * w) by (nonlinear_arith)
        requires
            w >= 1,
            lo <= f <= hi,
    ;
    assert(f * w <= u64::MAX as int) by (nonlinear_arith)
        requires
            w >= 1,
            f >= 0,
            f <= u64::MAX as int / w,
    ;
}

/// If the factor exceeds `MAX / w` then even the upper factor bound
/// overflows.
proof fn lemma_mul_overflow(w: int, f: int, hi: int)
    requires
        w >= 1,
        0 <= f <= hi,
        f > u64::MAX as int / w,
    ensures
        hi * w > u64::MAX as int,
{
    assert(f * w > u64::MAX as int) by (nonlinear_arith)
        requires
            w >= 1,
            f > u64::MAX as int / w,
    ;
    assert(hi * w >= f * w) by (nonlinear_arith)
        requires
            w >= 1,
            f <= hi,
    ;
}

} // verus!
