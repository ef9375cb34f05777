//! A (middlegame, endgame) score pair, and the taper that collapses it.
//!
//! Every evaluation term is worth different amounts at different points in the
//! game. Carrying both values and interpolating keeps the evaluation continuous
//! as material comes off.

use vstd::prelude::*;
use vstd::std_specs::ops::{AddSpecImpl, MulSpecImpl, NegSpecImpl, SubSpecImpl};

use crate::chess::abs;

verus! {

/// Phase units: the material on a full board, used to interpolate.
pub const MAX_PHASE: i32 = 24;

#[derive(Clone, Copy, PartialEq, Eq, Structural, Debug)]
pub struct Score {
    pub mg: i32,
    pub eg: i32,
}

pub open spec fn fits(x: int) -> bool {
    i32::MIN <= x <= i32::MAX
}

/// Division that rounds towards zero.
pub open spec fn trunc_div(a: int, b: int) -> int {
    if a < 0 {
        -((-a) / b)
    } else {
        a / b
    }
}

/// A phase brought into the range from 0 to [`MAX_PHASE`].
pub open spec fn clamp_phase(phase: int) -> int {
    if phase < 0 {
        0
    } else if phase > 24 {
        24
    } else {
        phase
    }
}

/// The two values weighted by the phase, not yet divided.
pub open spec fn blend(mg: int, eg: int, phase: int) -> int {
    mg * phase + eg * (24 - phase)
}

/// The interpolation of a middlegame and an endgame value at a phase.
pub open spec fn tapered(mg: int, eg: int, phase: int) -> int {
    trunc_div(blend(mg, eg, clamp_phase(phase)), 24)
}

impl Score {
    /// The weighted sum at this phase stays within the range of an `i32`.
    pub open spec fn can_taper(self, phase: int) -> bool {
        let p = clamp_phase(phase);
        fits(self.mg * p) && fits(self.eg * (24 - p)) && fits(blend(self.mg as int, self.eg as int, p))
    }

    pub fn zero() -> (r: Score)
        ensures
            r.mg == 0,
            r.eg == 0,
    {
        Score { mg: 0, eg: 0 }
    }

    pub fn new(mg: i32, eg: i32) -> (r: Score)
        ensures
            r == (Score { mg, eg }),
    {
        Score { mg, eg }
    }

    /// The same value regardless of phase.
    pub fn flat(value: i32) -> (r: Score)
        ensures
            r == (Score { mg: value, eg: value }),
    {
        Score { mg: value, eg: value }
    }

    /// Collapse to centipawns. `phase` is [`MAX_PHASE`] with everything on the
    /// board and 0 in a bare king-and-pawn endgame.
    pub fn taper(self, phase: i32) -> (r: i32)
        requires
            self.can_taper(phase as int),
        ensures
            r == tapered(self.mg as int, self.eg as int, phase as int),
    {
        let p: i32 = if phase < 0 {
            0
        } else if phase > MAX_PHASE {
            MAX_PHASE
        } else {
            phase
        };
        (self.mg * p + self.eg * (MAX_PHASE - p)) / MAX_PHASE
    }
}

impl Default for Score {
    fn default() -> (r: Score)
        ensures
            r.mg == 0,
            r.eg == 0,
    {
        Score::zero()
    }
}

impl std::ops::Add for Score {
    type Output = Score;

    fn add(self, rhs: Score) -> Score {
        Score { mg: self.mg + rhs.mg, eg: self.eg + rhs.eg }
    }
}

impl AddSpecImpl for Score {
    open spec fn obeys_add_spec() -> bool {
        true
    }

    open spec fn add_req(self, rhs: Score) -> bool {
        fits(self.mg + rhs.mg) && fits(self.eg + rhs.eg)
    }

    open spec fn add_spec(self, rhs: Score) -> Score {
        Score { mg: (self.mg + rhs.mg) as i32, eg: (self.eg + rhs.eg) as i32 }
    }
}

impl std::ops::Sub for Score {
    type Output = Score;

    fn sub(self, rhs: Score) -> Score {
        Score { mg: self.mg - rhs.mg, eg: self.eg - rhs.eg }
    }
}

impl SubSpecImpl for Score {
    open spec fn obeys_sub_spec() -> bool {
        true
    }

    open spec fn sub_req(self, rhs: Score) -> bool {
        fits(self.mg - rhs.mg) && fits(self.eg - rhs.eg)
    }

    open spec fn sub_spec(self, rhs: Score) -> Score {
        Score { mg: (self.mg - rhs.mg) as i32, eg: (self.eg - rhs.eg) as i32 }
    }
}

impl std::ops::Neg for Score {
    type Output = Score;

    fn neg(self) -> Score {
        Score { mg: -self.mg, eg: -self.eg }
    }
}

impl NegSpecImpl for Score {
    open spec fn obeys_neg_spec() -> bool {
        true
    }

    open spec fn neg_req(self) -> bool {
        fits(-self.mg) && fits(-self.eg)
    }

    open spec fn neg_spec(self) -> Score {
        Score { mg: (-self.mg) as i32, eg: (-self.eg) as i32 }
    }
}

impl std::ops::Mul<i32> for Score {
    type Output = Score;

    fn mul(self, rhs: i32) -> Score {
        Score { mg: self.mg * rhs, eg: self.eg * rhs }
    }
}

impl MulSpecImpl<i32> for Score {
    open spec fn obeys_mul_spec() -> bool {
        true
    }

    open spec fn mul_req(self, rhs: i32) -> bool {
        fits(self.mg * rhs) && fits(self.eg * rhs)
    }

    open spec fn mul_spec(self, rhs: i32) -> Score {
        Score { mg: (self.mg * rhs) as i32, eg: (self.eg * rhs) as i32 }
    }
}

/// With everything on the board a score is its middlegame value, with nothing
/// left its endgame value.
pub proof fn law_taper_ends(mg: int, eg: int)
    ensures
        tapered(mg, eg, 24) == mg,
        tapered(mg, eg, 0) == eg,
{
    assert(blend(mg, eg, 24) == 24 * mg && blend(mg, eg, 0) == 24 * eg) by (nonlinear_arith);
}

/// Tapering the negated pair negates the tapered value.
pub proof fn law_taper_negates(mg: int, eg: int, phase: int)
    ensures
        tapered(-mg, -eg, phase) == -tapered(mg, eg, phase),
{
    let p = clamp_phase(phase);
    assert(blend(-mg, -eg, p) == -blend(mg, eg, p)) by (nonlinear_arith);
}

/// The taper has no cliff: one unit of phase moves the value by no more than the
/// twenty-fourth part of the difference of the pair, rounded up.
pub proof fn law_taper_is_continuous(mg: int, eg: int, phase: int)
    ensures
        abs(tapered(mg, eg, phase + 1) - tapered(mg, eg, phase)) <= abs(mg - eg) / 24 + 1,
{
    let p = clamp_phase(phase);
    let q = clamp_phase(phase + 1);
    let a = blend(mg, eg, p);
    let b = blend(mg, eg, q);
    assert(q == p || q == p + 1);
    if q == p + 1 {
        assert(b - a == mg - eg) by (nonlinear_arith)
            requires a == mg * p + eg * (24 - p), b == mg * q + eg * (24 - q), q == p + 1;
    }
    let d = abs(mg - eg);
    assert(-d <= b - a <= d);
    assert(abs(trunc_div(b, 24) - trunc_div(a, 24)) <= d / 24 + 1);
}

/// The taper lies between its two ends, also beyond them, and is the weighted mean
/// rounded towards zero: the twenty-fourths that it drops are fewer than
/// twenty-four, and point away from zero.
pub proof fn law_taper_is_the_weighted_mean(mg: int, eg: int, phase: int)
    ensures
        phase >= 24 ==> tapered(mg, eg, phase) == mg,
        phase <= 0 ==> tapered(mg, eg, phase) == eg,
        0 <= phase <= 24 ==> {
            let sum = phase * mg + (24 - phase) * eg;
            &&& sum >= 0 ==> 24 * tapered(mg, eg, phase) <= sum < 24 * tapered(mg, eg, phase) + 24
            &&& sum <= 0 ==> 24 * tapered(mg, eg, phase) - 24 < sum <= 24 * tapered(mg, eg, phase)
        },
{
    law_taper_ends(mg, eg);
    assert(blend(mg, eg, phase) == phase * mg + (24 - phase) * eg) by (nonlinear_arith)
        requires blend(mg, eg, phase) == mg * phase + eg * (24 - phase);
}

} // verus!
