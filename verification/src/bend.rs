//! How far a bump may bend before its outline folds over.
//!
//! In the plane that a bump leans in, its outline is a curve over the angle
//! from its direction. A bend is safe as long as no tangent of that curve runs
//! through the ghost point, the centre that the bent tip seems to grow from.
//! The greatest safe bend is found by bisection.

use vstd::prelude::*;
use vstd::arithmetic::power2::{
    lemma2_to64, lemma_pow2_adds, lemma_pow2_pos, lemma_pow2_strictly_increases, lemma_pow2_unfold, pow2,
};
use crate::bump::{blend, BumpParams};
use crate::math::{computes, Arithmetic, Math};
use crate::rounding::{
    apart, constants_in_units, correctly_rounded, half_step_error, halved, halved_is_half, nearest, one_in_units,
    product_is_rounded, relative_error, rounding_error, rounding_keeps_numbers, rounding_stays_above,
    rounding_stays_between, sign_of_units, sum_is_rounded, twice, twice_is_double, units_and_sign_fix_bits,
};
use crate::scalar::{lemma_rank_orders, units_of, Scalar, FRAC_PI_2, HALF, ONE, PI, THOUSANDTH, ZERO};

verus! {

/// Intervals of the outline that are searched for a tangent.
pub const SAMPLES: usize = 128;

/// Steps of the bisection.
pub const HALVINGS: usize = 24;

/// Height of a bump at an angle from its direction whose cosine is `alignment`,
/// as a share of its amplitude.
pub open spec fn weight(on: Arithmetic, concentration: Scalar, alignment: Scalar) -> Scalar {
    on.quotient(on.exponential(on.product(concentration, alignment)), on.exponential(concentration))
}

/// The angle of sample `i` of the outline: from just beside the direction of
/// the bump to the point opposite.
pub open spec fn sample_angle(on: Arithmetic, i: int) -> Scalar {
    let first = Scalar(THOUSANDTH);
    if i == 0 {
        first
    } else {
        let reach = on.product(on.difference(Scalar(PI), first), on.integer(i as usize));
        on.sum(first, on.quotient(reach, on.integer(SAMPLES)))
    }
}

/// The point that a tip bent by an angle seems to grow from.
pub open spec fn ghost_point(on: Arithmetic, r_min: Scalar, bend_angle: Scalar) -> (Scalar, Scalar) {
    (
        on.product(on.sine(bend_angle).negated(), r_min),
        on.product(r_min, on.difference(Scalar(ONE), on.cosine(bend_angle))),
    )
}

impl BumpParams {
    /// The point of the bent outline at an angle from the bump's direction.
    pub open spec fn outline(self, on: Arithmetic, r_min: Scalar, theta: Scalar, bend_angle: Scalar) -> (
        Scalar,
        Scalar,
    ) {
        let turn = on.product(bend_angle, weight(on, self.concentration, on.cosine(theta)));
        (
            blend(on, on.sine(theta), r_min, on.sine(turn), self.amplitude),
            blend(on, on.cosine(theta), r_min, on.cosine(turn), self.amplitude),
        )
    }

    /// The direction in which the bent outline runs at that angle.
    pub open spec fn outline_slope(self, on: Arithmetic, r_min: Scalar, theta: Scalar, bend_angle: Scalar) -> (
        Scalar,
        Scalar,
    ) {
        let f = weight(on, self.concentration, on.cosine(theta));
        let turn = on.product(bend_angle, f);
        let fall = on.product(on.product(self.concentration.negated(), on.sine(theta)), f);
        let turn_slope = on.product(bend_angle, fall);
        let across = on.product(on.product(on.cosine(turn), self.amplitude), turn_slope);
        let along = on.product(on.product(on.sine(turn), self.amplitude), turn_slope);
        (
            on.sum(on.product(on.cosine(theta), r_min), across),
            on.difference(on.product(on.sine(theta).negated(), r_min), along),
        )
    }

    /// On which side of the tangent at an angle the ghost point lies, by sign.
    pub open spec fn side(self, on: Arithmetic, r_min: Scalar, theta: Scalar, bend_angle: Scalar) -> Scalar {
        let (px, py) = self.outline(on, r_min, theta, bend_angle);
        let (dpx, dpy) = self.outline_slope(on, r_min, theta, bend_angle);
        let (gx, gy) = ghost_point(on, r_min, bend_angle);
        on.difference(on.product(on.difference(px, gx), dpy), on.product(on.difference(py, gy), dpx))
    }

    /// The ghost point changes sides between sample `i - 1` and sample `i`.
    pub open spec fn crosses(self, on: Arithmetic, r_min: Scalar, bend_angle: Scalar, i: int) -> bool {
        let before = self.side(on, r_min, sample_angle(on, i - 1), bend_angle);
        let after = self.side(on, r_min, sample_angle(on, i), bend_angle);
        on.product(before, after).below(Scalar(ZERO))
    }

    /// Some tangent of the outline runs through the ghost point.
    pub open spec fn folds(self, on: Arithmetic, r_min: Scalar, bend_angle: Scalar) -> bool {
        exists|i: int| 1 <= i <= SAMPLES && #[trigger] self.crosses(on, r_min, bend_angle, i)
    }

    /// The bracket of the greatest safe bend after some steps of the bisection.
    pub open spec fn bracket(self, on: Arithmetic, r_min: Scalar, steps: nat) -> (Scalar, Scalar)
        decreases steps,
    {
        if steps == 0 {
            (Scalar(ZERO), Scalar(FRAC_PI_2))
        } else {
            let (lo, hi) = self.bracket(on, r_min, (steps - 1) as nat);
            let mid = on.product(on.sum(lo, hi), Scalar(HALF));
            if self.folds(on, r_min, mid) {
                (lo, mid)
            } else {
                (mid, hi)
            }
        }
    }

    /// The greatest bend that is allowed.
    pub open spec fn bend_limit(self, on: Arithmetic, r_min: Scalar) -> Scalar {
        if self.folds(on, r_min, Scalar(THOUSANDTH)) {
            Scalar(ZERO)
        } else if !self.folds(on, r_min, Scalar(FRAC_PI_2)) {
            Scalar(FRAC_PI_2)
        } else {
            self.bracket(on, r_min, HALVINGS as nat).0
        }
    }

    /// On which side of the tangent at an angle the ghost point lies, by sign.
    pub fn tangent_cross<M: Math>(&self, math: &M, r_min: Scalar, theta: Scalar, bend_angle: Scalar) -> (r: Scalar)
        ensures
            forall|on: Arithmetic| #[trigger]
                computes(math, on) ==> r == self.side(on, r_min, theta, bend_angle),
    {
        let (c, a) = (self.concentration, self.amplitude);
        let (sin, cos) = (math.sin(theta), math.cos(theta));
        let f = math.div(math.exp(math.mul(c, cos)), math.exp(c));
        let df = math.mul(math.mul(c.neg(), sin), f);
        let bf = math.mul(bend_angle, f);
        let dbf = math.mul(bend_angle, df);
        let (sin_bf, cos_bf) = (math.sin(bf), math.cos(bf));

        let px = math.add(math.mul(sin, r_min), math.mul(sin_bf, a));
        let py = math.add(math.mul(cos, r_min), math.mul(cos_bf, a));
        let dpx = math.add(math.mul(cos, r_min), math.mul(math.mul(cos_bf, a), dbf));
        let dpy = math.sub(math.mul(sin.neg(), r_min), math.mul(math.mul(sin_bf, a), dbf));

        let gx = math.mul(math.sin(bend_angle).neg(), r_min);
        let gy = math.mul(r_min, math.sub(Scalar(ONE), math.cos(bend_angle)));

        math.sub(math.mul(math.sub(px, gx), dpy), math.mul(math.sub(py, gy), dpx))
    }

    /// Does some tangent of the outline run through the ghost point?
    pub fn tangent_exists<M: Math>(&self, math: &M, r_min: Scalar, bend_angle: Scalar) -> (r: bool)
        ensures
            forall|on: Arithmetic| #[trigger]
                computes(math, on) ==> r == self.folds(on, r_min, bend_angle),
    {
        let first = Scalar(THOUSANDTH);
        let mut prev = self.tangent_cross(math, r_min, first, bend_angle);
        let mut i: usize = 1;
        while i <= SAMPLES
            invariant
                1 <= i <= SAMPLES + 1,
                first == Scalar(THOUSANDTH),
                forall|on: Arithmetic| #[trigger]
                    computes(math, on) ==> prev == self.side(on, r_min, sample_angle(on, i - 1), bend_angle),
                forall|on: Arithmetic| #[trigger]
                    computes(math, on) ==> forall|j: int| 1 <= j < i ==> !self.crosses(on, r_min, bend_angle, j),
            decreases SAMPLES + 1 - i,
        {
            let reach = math.mul(math.sub(Scalar(PI), first), math.whole(i));
            let theta = math.add(first, math.div(reach, math.whole(SAMPLES)));
            let curr = self.tangent_cross(math, r_min, theta, bend_angle);
            if math.mul(prev, curr).lt(Scalar(ZERO)) {
                assert(forall|on: Arithmetic| #[trigger]
                    computes(math, on) ==> self.crosses(on, r_min, bend_angle, i as int));
                return true;
            }
            prev = curr;
            i = i + 1;
        }
        false
    }

    /// The greatest bend that is allowed, as if the bump did not lean.
    pub fn max_bend<M: Math>(&self, math: &M, r_min: Scalar) -> (r: Scalar)
        ensures
            forall|on: Arithmetic| #[trigger]
                computes(math, on) ==> r == self.bend_limit(on, r_min),
    {
        if self.tangent_exists(math, r_min, Scalar(THOUSANDTH)) {
            return Scalar(ZERO);
        }
        if !self.tangent_exists(math, r_min, Scalar(FRAC_PI_2)) {
            return Scalar(FRAC_PI_2);
        }
        let mut lo = Scalar(ZERO);
        let mut hi = Scalar(FRAC_PI_2);
        let mut step: usize = 0;
        while step < HALVINGS
            invariant
                step <= HALVINGS,
                forall|on: Arithmetic| #[trigger]
                    computes(math, on) ==> (lo, hi) == self.bracket(on, r_min, step as nat),
            decreases HALVINGS - step,
        {
            let mid = math.mul(math.add(lo, hi), Scalar(HALF));
            if self.tangent_exists(math, r_min, mid) {
                hi = mid;
            } else {
                lo = mid;
            }
            step = step + 1;
        }
        lo
    }
}

/// The lower end of the bracket is zero or safe, and the upper end is unsafe
/// if the widest bend is.
proof fn lemma_bracket(bump: BumpParams, on: Arithmetic, r_min: Scalar, steps: nat)
    ensures
        ({
            let (lo, hi) = bump.bracket(on, r_min, steps);
            &&& lo == Scalar(ZERO) || !bump.folds(on, r_min, lo)
            &&& bump.folds(on, r_min, Scalar(FRAC_PI_2)) ==> bump.folds(on, r_min, hi)
        }),
    decreases steps,
{
    if steps > 0 {
        lemma_bracket(bump, on, r_min, (steps - 1) as nat);
    }
}

/// Bumps of one shape fold alike.
proof fn lemma_folds_alike(a: BumpParams, b: BumpParams, on: Arithmetic, r_min: Scalar, bend_angle: Scalar)
    requires
        a.amplitude == b.amplitude,
        a.concentration == b.concentration,
    ensures
        a.folds(on, r_min, bend_angle) == b.folds(on, r_min, bend_angle),
{
    assert forall|i: int| #[trigger] a.crosses(on, r_min, bend_angle, i) == b.crosses(on, r_min, bend_angle, i) by {}
    if a.folds(on, r_min, bend_angle) {
        let i = choose|i: int| 1 <= i <= SAMPLES && #[trigger] a.crosses(on, r_min, bend_angle, i);
        assert(b.crosses(on, r_min, bend_angle, i));
    }
    if b.folds(on, r_min, bend_angle) {
        let i = choose|i: int| 1 <= i <= SAMPLES && #[trigger] b.crosses(on, r_min, bend_angle, i);
        assert(a.crosses(on, r_min, bend_angle, i));
    }
}

/// Bumps of one shape are bisected alike.
proof fn lemma_brackets_alike(a: BumpParams, b: BumpParams, on: Arithmetic, r_min: Scalar, steps: nat)
    requires
        a.amplitude == b.amplitude,
        a.concentration == b.concentration,
    ensures
        a.bracket(on, r_min, steps) == b.bracket(on, r_min, steps),
    decreases steps,
{
    if steps > 0 {
        lemma_brackets_alike(a, b, on, r_min, (steps - 1) as nat);
        let (lo, hi) = a.bracket(on, r_min, (steps - 1) as nat);
        lemma_folds_alike(a, b, on, r_min, on.product(on.sum(lo, hi), Scalar(HALF)));
    }
}

/// The bend limit comes from the shape of the bump alone: where it points,
/// how it leans and how far it is bent already make no difference.
pub proof fn bend_limit_follows_shape(a: BumpParams, b: BumpParams, on: Arithmetic, r_min: Scalar)
    requires
        a.amplitude == b.amplitude,
        a.concentration == b.concentration,
    ensures
        a.bend_limit(on, r_min) == b.bend_limit(on, r_min),
{
    lemma_folds_alike(a, b, on, r_min, Scalar(THOUSANDTH));
    lemma_folds_alike(a, b, on, r_min, Scalar(FRAC_PI_2));
    lemma_brackets_alike(a, b, on, r_min, HALVINGS as nat);
}

/// The bend limit is safe: the outline bent by it has no tangent through the
/// ghost point, unless the limit is zero.
pub proof fn bend_limit_is_safe(bump: BumpParams, on: Arithmetic, r_min: Scalar)
    ensures
        ({
            let limit = bump.bend_limit(on, r_min);
            limit == Scalar(ZERO) || !bump.folds(on, r_min, limit)
        }),
{
    lemma_bracket(bump, on, r_min, HALVINGS as nat);
}

/// A radius or an amplitude that is not a number leaves the ghost point on no
/// side of any tangent.
proof fn lemma_side_not_a_number(bump: BumpParams, on: Arithmetic, r_min: Scalar, theta: Scalar, bend_angle: Scalar)
    requires
        correctly_rounded(on),
        r_min.nan() || bump.amplitude.nan(),
    ensures
        bump.side(on, r_min, theta, bend_angle).nan(),
{
    let px = bump.outline(on, r_min, theta, bend_angle).0;
    let dpy = bump.outline_slope(on, r_min, theta, bend_angle).1;
    let gx = ghost_point(on, r_min, bend_angle).0;
    assert(px.nan() || gx.nan());
    assert(on.product(on.difference(px, gx), dpy).nan());
}

/// A radius or an amplitude that is not a number allows the widest bend.
pub proof fn bend_limit_without_numbers(bump: BumpParams, on: Arithmetic, r_min: Scalar)
    requires
        correctly_rounded(on),
        r_min.nan() || bump.amplitude.nan(),
    ensures
        bump.bend_limit(on, r_min) == Scalar(FRAC_PI_2),
{
    assert forall|bend_angle: Scalar| !#[trigger] bump.folds(on, r_min, bend_angle) by {
        assert forall|i: int| !#[trigger] bump.crosses(on, r_min, bend_angle, i) by {
            lemma_side_not_a_number(bump, on, r_min, sample_angle(on, i - 1), bend_angle);
        }
    }
}

/// The widest bend is a positive number.
proof fn lemma_widest_bend()
    ensures
        Scalar(FRAC_PI_2).finite(),
        Scalar(ZERO).finite(),
        Scalar(ZERO).units() == 0,
        Scalar(FRAC_PI_2).units() > 0x1_0000_0000,
        2 * Scalar(FRAC_PI_2).units() < units_of(0x7f80_0000),
{
    constants_in_units();
    lemma2_to64();
    lemma_pow2_strictly_increases(32, 126);
    lemma_pow2_strictly_increases(128, 254);
    lemma_pow2_unfold(127);
    lemma_pow2_unfold(128);
    assert(0x7f80_0000int / 0x80_0000 == 255 && 0x7f80_0000int % 0x80_0000 == 0);
    assert(units_of(0x7f80_0000) == 0x80_0000 * pow2(254));
}

/// The midpoint of two numbers between zero and the widest bend lies between
/// them, misses their mean by no more than 2^125 units, and is no less than half
/// of the greater one where that is not small.
proof fn lemma_midpoint(on: Arithmetic, lo: Scalar, hi: Scalar)
    requires
        correctly_rounded(on),
        lo.finite(),
        hi.finite(),
        0 <= lo.units() <= hi.units() <= Scalar(FRAC_PI_2).units(),
    ensures
        ({
            let mid = on.product(on.sum(lo, hi), Scalar(HALF));
            &&& !mid.nan()
            &&& lo.units() <= mid.units() <= hi.units()
            &&& apart(2 * mid.units(), lo.units() + hi.units()) <= pow2(126)
            &&& 0x100_0000 <= hi.unsigned() ==> hi.units() <= 2 * mid.units()
        }),
{
    constants_in_units();
    lemma_widest_bend();
    let widest = Scalar(FRAC_PI_2);
    let total = on.sum(lo, hi);
    let exact = lo.units() + hi.units();
    assert(sum_is_rounded(on, lo, hi));
    lemma_finite_below(lo, widest);
    lemma_finite_below(hi, widest);
    twice_is_double(lo);
    twice_is_double(hi);
    twice_is_double(widest);
    rounding_stays_between(total, exact, 1, twice(lo), twice(hi));
    lemma_finite_below(total, twice(widest));
    lemma2_to64();
    lemma_pow2_adds(25, 126);
    lemma_pow2_unfold(127);
    half_step_error(total, exact, 127);
    rounding_stays_above(total, exact, 1, hi);

    let mid = on.product(total, Scalar(HALF));
    let half = Scalar(HALF).units();
    let den = one_in_units();
    let num = total.units() * half;
    assert(product_is_rounded(on, total, Scalar(HALF)));
    assert(lo.units() * den <= num <= hi.units() * den) by (nonlinear_arith)
        requires
            2 * lo.units() <= total.units() <= 2 * hi.units(),
            den == 2 * half,
            half > 0,
            num == total.units() * half,
    ;
    rounding_stays_between(mid, num, den, lo, hi);
    sign_of_units(total);
    sign_of_units(hi);
    if total.unsigned() >= 0x100_0000 {
        let c = halved(total);
        halved_is_half(total);
        assert(c.units() * den == num) by (nonlinear_arith)
            requires
                2 * c.units() == total.units(),
                den == 2 * half,
                num == total.units() * half,
        ;
        rounding_keeps_numbers(mid, num, den, c);
    } else {
        lemma_small_midpoint(total, exact, mid, half);
        lemma_rank_orders(total, hi);
    }
}

/// The midpoint of two small numbers.
proof fn lemma_small_midpoint(total: Scalar, exact: int, mid: Scalar, half: int)
    requires
        0 <= total.units(),
        total.unsigned() < 0x100_0000,
        0 <= exact,
        nearest(total, exact, 1),
        nearest(mid, total.units() * half, 2 * half),
        half > 0,
    ensures
        apart(2 * mid.units(), exact) <= pow2(126),
{
    let den = 2 * half;
    let num = total.units() * half;
    lemma2_to64();
    lemma_pow2_strictly_increases(32, 126);
    relative_error(total, exact, 1);
    lemma_small_number(total);
    assert(0 <= num < units_of(0x7f80_0000) * den) by (nonlinear_arith)
        requires
            0 <= total.units() < units_of(0x7f80_0000),
            den == 2 * half,
            half > 0,
            num == total.units() * half,
    ;
    rounding_error(mid, num, den);
    let off = apart(2 * mid.units(), total.units());
    assert(apart(mid.units() * den, num) == off * half) by (nonlinear_arith)
        requires
            den == 2 * half,
            half > 0,
            num == total.units() * half,
            off == apart(2 * mid.units(), total.units()),
    ;
    assert(off < 2 || 0x80_0000 * off <= total.units()) by (nonlinear_arith)
        requires
            off * half < den || 0x80_0000 * (off * half) <= num,
            den == 2 * half,
            half > 0,
            num == total.units() * half,
    ;
}

/// A small number stands for a small number of units.
proof fn lemma_small_number(a: Scalar)
    requires
        0 <= a.units(),
        a.unsigned() < 0x100_0000,
    ensures
        a.units() < 0x100_0000,
        a.units() < units_of(0x7f80_0000),
{
    let bound = Scalar(0x100_0000);
    lemma2_to64();
    assert(0x100_0000int / 0x80_0000 == 2 && 0x100_0000int % 0x80_0000 == 0);
    assert(bound.units() == 0x80_0000 * pow2(1));
    lemma_rank_orders(a, bound);
    lemma_rank_orders(a, Scalar(0x7f80_0000));
    sign_of_units(a);
}

/// A number that is no greater than a finite one, and not negative, is finite.
proof fn lemma_finite_below(a: Scalar, bound: Scalar)
    requires
        !a.nan(),
        bound.finite(),
        0 <= a.units() <= bound.units(),
    ensures
        a.unsigned() <= bound.unsigned(),
        a.finite(),
{
    lemma_rank_orders(bound, a);
    sign_of_units(a);
    sign_of_units(bound);
}

/// The bracket lies between zero and the widest bend.
proof fn lemma_bracket_range(bump: BumpParams, on: Arithmetic, r_min: Scalar, steps: nat)
    requires
        correctly_rounded(on),
    ensures
        ({
            let (lo, hi) = bump.bracket(on, r_min, steps);
            &&& lo.finite()
            &&& hi.finite()
            &&& 0 <= lo.units() <= hi.units() <= Scalar(FRAC_PI_2).units()
        }),
    decreases steps,
{
    lemma_widest_bend();
    if steps > 0 {
        lemma_bracket_range(bump, on, r_min, (steps - 1) as nat);
        let (lo, hi) = bump.bracket(on, r_min, (steps - 1) as nat);
        lemma_midpoint(on, lo, hi);
        lemma_finite_below(on.product(on.sum(lo, hi), Scalar(HALF)), hi);
    }
}

/// The bend limit is a number, and lies between zero and a quarter of a turn,
/// whatever the bump and the radius are.
pub proof fn bend_limit_is_in_range(bump: BumpParams, on: Arithmetic, r_min: Scalar)
    requires
        correctly_rounded(on),
    ensures
        Scalar(ZERO).at_most(bump.bend_limit(on, r_min)),
        bump.bend_limit(on, r_min).at_most(Scalar(FRAC_PI_2)),
{
    lemma_widest_bend();
    lemma_bracket_range(bump, on, r_min, HALVINGS as nat);
}

/// A step of the bisection moves one end of the bracket and keeps it within
/// what it was. Its width becomes half of what it was, but for 2^125 units, which
/// is one in 2^24.
pub proof fn bracket_shrinks(bump: BumpParams, on: Arithmetic, r_min: Scalar, steps: nat)
    requires
        correctly_rounded(on),
    ensures
        ({
            let (lo, hi) = bump.bracket(on, r_min, steps);
            let (lo2, hi2) = bump.bracket(on, r_min, steps + 1);
            &&& lo.at_most(lo2)
            &&& lo2.at_most(hi2)
            &&& hi2.at_most(hi)
            &&& 2 * (hi2.units() - lo2.units()) <= (hi.units() - lo.units()) + pow2(126)
        }),
{
    lemma_bracket_range(bump, on, r_min, steps);
    lemma_bracket_range(bump, on, r_min, steps + 1);
    let (lo, hi) = bump.bracket(on, r_min, steps);
    lemma_midpoint(on, lo, hi);
}

/// The width of the bracket after some steps.
proof fn lemma_bracket_width(bump: BumpParams, on: Arithmetic, r_min: Scalar, steps: nat)
    requires
        correctly_rounded(on),
    ensures
        ({
            let (lo, hi) = bump.bracket(on, r_min, steps);
            pow2(steps) * (hi.units() - lo.units()) <= Scalar(FRAC_PI_2).units() + (pow2(steps) - 1) * pow2(126)
        }),
    decreases steps,
{
    let step = pow2(126) as int;
    lemma2_to64();
    lemma_widest_bend();
    if steps > 0 {
        let before = (steps - 1) as nat;
        lemma_bracket_width(bump, on, r_min, before);
        bracket_shrinks(bump, on, r_min, before);
        lemma_pow2_unfold(steps);
        lemma_pow2_pos(before);
        let (lo, hi) = bump.bracket(on, r_min, before);
        let (lo2, hi2) = bump.bracket(on, r_min, steps);
        let (w, w2, p) = (hi.units() - lo.units(), hi2.units() - lo2.units(), pow2(before) as int);
        assert((2 * p) * w2 <= p * w + p * step) by (nonlinear_arith)
            requires
                2 * w2 <= w + step,
                p > 0,
        ;
        assert((p - 1) * step + p * step == (2 * p - 1) * step) by (nonlinear_arith);
        assert(pow2(steps) == 2 * p);
    } else {
        let (lo, hi) = bump.bracket(on, r_min, 0);
        assert(pow2(0) * (hi.units() - lo.units()) == hi.units() - lo.units()) by (nonlinear_arith)
            requires
                pow2(0) == 1,
        ;
        assert((pow2(0) - 1) * step == 0) by (nonlinear_arith)
            requires
                pow2(0) == 1,
        ;
    }
}

/// The upper end of the bracket stays above zero.
proof fn lemma_bracket_height(bump: BumpParams, on: Arithmetic, r_min: Scalar, steps: nat)
    requires
        correctly_rounded(on),
        steps <= HALVINGS,
    ensures
        pow2(149) <= pow2(steps) * bump.bracket(on, r_min, steps).1.units(),
        0x100_0000 <= bump.bracket(on, r_min, steps).1.unsigned(),
    decreases steps,
{
    constants_in_units();
    lemma2_to64();
    lemma_bracket_range(bump, on, r_min, steps);
    let hi2 = bump.bracket(on, r_min, steps).1;
    let q = pow2(steps) as int;
    if steps > 0 {
        let before = (steps - 1) as nat;
        let (lo, hi) = bump.bracket(on, r_min, before);
        lemma_bracket_height(bump, on, r_min, before);
        lemma_bracket_range(bump, on, r_min, before);
        lemma_midpoint(on, lo, hi);
        lemma_pow2_unfold(steps);
        let p = pow2(before) as int;
        lemma_pow2_pos(before);
        assert(hi.units() <= 2 * hi2.units());
        assert(p * hi.units() <= q * hi2.units()) by (nonlinear_arith)
            requires
                hi.units() <= 2 * hi2.units(),
                q == 2 * p,
                p > 0,
        ;
    } else {
        assert(q * hi2.units() == hi2.units()) by (nonlinear_arith)
            requires
                q == 1,
        ;
        lemma_pow2_pos(126);
    }
    let floor = Scalar(0x100_0000);
    assert(0x100_0000int / 0x80_0000 == 2 && 0x100_0000int % 0x80_0000 == 0);
    assert(floor.units() == 0x80_0000 * pow2(1));
    lemma_pow2_adds(steps, (149 - steps) as nat);
    let rest = pow2((149 - steps) as nat) as int;
    lemma_pow2_pos(steps);
    assert(rest <= hi2.units()) by (nonlinear_arith)
        requires
            q * rest <= q * hi2.units(),
            q > 0,
    ;
    lemma_pow2_strictly_increases(24, (149 - steps) as nat);
    lemma_rank_orders(hi2, floor);
    sign_of_units(hi2);
}

/// The bend limit is tight: unless it is zero from the start or the widest
/// bend, there is an unsafe bend above it, no further than 24 parts in 10^8 of
/// one.
pub proof fn bend_limit_is_tight(bump: BumpParams, on: Arithmetic, r_min: Scalar)
    requires
        correctly_rounded(on),
        !bump.folds(on, r_min, Scalar(THOUSANDTH)),
        bump.bend_limit(on, r_min) != Scalar(FRAC_PI_2),
    ensures
        ({
            let limit = bump.bend_limit(on, r_min);
            let unsafe_bend = bump.bracket(on, r_min, HALVINGS as nat).1;
            &&& bump.folds(on, r_min, unsafe_bend)
            &&& limit.below(unsafe_bend)
            &&& unsafe_bend.at_most(Scalar(FRAC_PI_2))
            &&& 100_000_000 * (unsafe_bend.units() - limit.units()) <= 24 * one_in_units()
        }),
{
    let steps = HALVINGS as nat;
    let (lo, hi) = bump.bracket(on, r_min, steps);
    lemma_bracket(bump, on, r_min, steps);
    lemma_bracket_range(bump, on, r_min, steps);
    lemma_bracket_width(bump, on, r_min, steps);
    lemma_bracket_height(bump, on, r_min, steps);
    lemma_widest_bend();
    constants_in_units();
    lemma2_to64();
    lemma_pow2_pos(126);
    let (w, step) = (hi.units() - lo.units(), pow2(126) as int);
    assert(0x100_0000 * w <= 0xc9_0fdb * step + 0xff_ffff * step) by {
        assert(pow2(24) == 0x100_0000);
        assert(pow2(24) * w == 0x100_0000 * w && (pow2(24) - 1) * step == 0xff_ffff * step) by (nonlinear_arith)
            requires
                pow2(24) == 0x100_0000,
        ;
    }
    sign_of_units(lo);
    sign_of_units(hi);
    if lo.units() == hi.units() {
        units_and_sign_fix_bits(lo, hi);
    }
}

/// No bend is allowed where the least one folds the outline over already, and the
/// widest one where neither it nor the least one does.
pub proof fn bend_limit_at_both_ends(bump: BumpParams, on: Arithmetic, r_min: Scalar)
    ensures
        bump.folds(on, r_min, Scalar(THOUSANDTH)) ==> bump.bend_limit(on, r_min) == Scalar(ZERO),
        !bump.folds(on, r_min, Scalar(THOUSANDTH)) && !bump.folds(on, r_min, Scalar(FRAC_PI_2)) ==> bump.bend_limit(
            on,
            r_min,
        ) == Scalar(FRAC_PI_2),
{
}

} // verus!
