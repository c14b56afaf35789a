//! Design of the low-pass filter that a conversion needs.
//!
//! The filter is a windowed sinc.  What is decided here is its shape in
//! whole numbers: how many taps it has, where it cuts off, and what delay it
//! brings.  The cutoff is kept as an exact fraction of the Nyquist frequency,
//! so that nothing is rounded before the taps themselves are evaluated.

use vstd::prelude::*;

verus! {

/// Samples of the window envelope per unit of tap offset.
pub const OVERSAMPLE: u32 = 32;

/// Tap count of a filter that passes the whole band.
pub const BASE_TAPS: u32 = 161;

/// Largest tap count that is ever chosen, whatever the ratio.
pub const MAX_TAPS: u32 = 4097;

/// Samples in a table of the window envelope: one lobe from its centre to
/// its edge at `OVERSAMPLE` samples per unit, with one sample before the
/// centre and two beyond the edge for an interpolation on four samples to
/// stand on.
pub const ENVELOPE_SAMPLES: u32 = 36;

/// The least odd number that is not below `n`.
pub open spec fn odd_at_least(n: nat) -> nat {
    if n % 2 == 0 {
        n + 1
    } else {
        n
    }
}

/// The cutoff, as a fraction `(numerator, denominator)` of the Nyquist
/// frequency, for a conversion that reads `num` input samples for every
/// `den` output samples.
///
/// When the rate goes down the band is narrowed to what the new rate can
/// carry; when it goes up or stays, the whole band passes.
pub open spec fn cutoff_for(num: nat, den: nat) -> (nat, nat) {
    if num > den {
        (den, num)
    } else {
        (1, 1)
    }
}

/// The tap count for a conversion that reads `num` input samples for every
/// `den` output samples.
///
/// The base length is stretched by the factor by which the band is
/// narrowed, made odd, and held to `MAX_TAPS`.
pub open spec fn taps_for(num: nat, den: nat) -> nat {
    if num > den {
        let stretched = odd_at_least(BASE_TAPS as nat * num / den);
        if stretched > MAX_TAPS {
            MAX_TAPS as nat
        } else {
            stretched
        }
    } else {
        BASE_TAPS as nat
    }
}

/// `a / b` rounded to the nearest integer, halves upwards.
pub open spec fn round_div(a: nat, b: nat) -> nat {
    (2 * a + b) / (2 * b)
}

/// The delay of a filter, counted in output samples, when it is
/// `input_latency` input samples and `num` input samples make `den` output
/// samples.
pub open spec fn output_latency_for(input_latency: nat, num: nat, den: nat) -> nat {
    round_div(input_latency * den, num)
}

/// The distance of tap `k` of a window of `taps` taps from a read position
/// that lies `phase / den` of a sample beyond the centre tap, in units of
/// `1 / den` of a sample.  It is negative for a tap before the read
/// position.
pub open spec fn tap_distance_of(taps: nat, k: nat, phase: nat, den: nat) -> int {
    (k - taps / 2) * den - phase
}

/// The size of a distance, whichever way it points.
pub open spec fn magnitude(distance: int) -> nat {
    if distance < 0 {
        (-distance) as nat
    } else {
        distance as nat
    }
}

/// A place on the window envelope, given by the sample of its table that
/// lies at or before it and by how far it lies beyond that sample.
#[derive(Debug, Clone, Copy, PartialEq, Eq, Structural)]
pub struct EnvelopePoint {
    /// Steps of the table from the centre of the lobe to the sample at or
    /// before the place.
    pub index: u32,
    /// How far the place lies beyond that sample, in units of `1 / scale`
    /// of a step of the table.
    pub part: u64,
    /// The unit of `part`.
    pub scale: u64,
}

/// The integer shape of a windowed-sinc low-pass filter.
#[derive(Debug, Clone, Copy, PartialEq, Eq, Structural)]
pub struct FilterSpec {
    /// Number of taps.
    pub taps: u32,
    /// Numerator of the cutoff, as a fraction of the Nyquist frequency.
    pub cutoff_num: u32,
    /// Denominator of the cutoff.
    pub cutoff_den: u32,
    /// Samples of the window envelope per unit of tap offset.
    pub oversample: u32,
}

impl FilterSpec {
    /// The tap count is odd, so that one tap sits at the centre, and within
    /// bounds; the cutoff lies in (0, 1].
    pub open spec fn wf(&self) -> bool {
        &&& self.taps % 2 == 1
        &&& self.taps <= MAX_TAPS
        &&& 0 < self.cutoff_num <= self.cutoff_den
        &&& self.oversample == OVERSAMPLE
    }

    /// Whether the filter is well formed.
    pub fn is_wf(&self) -> (ok: bool)
        ensures
            ok == self.wf(),
    {
        self.taps % 2 == 1 && self.taps <= MAX_TAPS && 0 < self.cutoff_num && self.cutoff_num
            <= self.cutoff_den && self.oversample == OVERSAMPLE
    }

    /// Designs the filter for a conversion that reads `num` input samples
    /// for every `den` output samples.
    pub fn build(num: u32, den: u32) -> (spec: FilterSpec)
        requires
            num > 0,
            den > 0,
        ensures
            spec.wf(),
            spec.taps == taps_for(num as nat, den as nat),
            (spec.cutoff_num as nat, spec.cutoff_den as nat) == cutoff_for(num as nat, den as nat),
    {
        if num > den {
            assert(BASE_TAPS * num <= 161 * 0xffff_ffff) by (nonlinear_arith)
                requires
                    BASE_TAPS == 161,
                    num <= 0xffff_ffff,
            ;
            let stretched: u64 = (BASE_TAPS as u64) * (num as u64) / (den as u64);
            let odd: u64 = if stretched % 2 == 0 {
                stretched + 1
            } else {
                stretched
            };
            let taps: u32 = if odd > MAX_TAPS as u64 {
                MAX_TAPS
            } else {
                odd as u32
            };
            FilterSpec { taps, cutoff_num: den, cutoff_den: num, oversample: OVERSAMPLE }
        } else {
            FilterSpec { taps: BASE_TAPS, cutoff_num: 1, cutoff_den: 1, oversample: OVERSAMPLE }
        }
    }

    /// The distance of tap `k` from a read position that lies `phase / den`
    /// of a sample beyond the centre tap, in units of `1 / den` of a
    /// sample; negative for a tap before the read position.
    pub fn tap_distance(&self, k: u32, phase: u32, den: u32) -> (distance: i64)
        requires
            self.wf(),
            k < self.taps,
            phase < den,
        ensures
            distance == tap_distance_of(self.taps as nat, k as nat, phase as nat, den as nat),
    {
        let centre: i64 = (self.taps / 2) as i64;
        let steps: i64 = k as i64 - centre;
        assert(-4097 * 0xffff_ffff <= steps * den <= 4097 * 0xffff_ffff) by (nonlinear_arith)
            requires
                -4097 <= steps <= 4097,
                0 <= den <= 0xffff_ffff,
        ;
        steps * (den as i64) - phase as i64
    }

    /// Where tap `k` stands on the window envelope, for a read position
    /// that lies `phase / den` of a sample beyond the centre tap.
    ///
    /// The envelope spans half the taps to either side of the read
    /// position, and its table has `OVERSAMPLE` steps from the centre to
    /// the edge.  A tap within the span stands at
    /// `2 * OVERSAMPLE * distance / (taps * den)` steps from the centre,
    /// which is returned as a whole number of steps and a remainder; with
    /// it, the four samples that an interpolation reads lie within the
    /// table.  A tap beyond the span has no place.
    pub fn envelope_point(&self, k: u32, phase: u32, den: u32) -> (point: Option<EnvelopePoint>)
        requires
            self.wf(),
            k < self.taps,
            phase < den,
        ensures
            point is None <==> 2 * magnitude(
                tap_distance_of(self.taps as nat, k as nat, phase as nat, den as nat),
            ) > self.taps * den,
            point is Some ==> {
                let reach = 2 * OVERSAMPLE * magnitude(
                    tap_distance_of(self.taps as nat, k as nat, phase as nat, den as nat),
                );
                &&& point->0.scale == self.taps * den
                &&& point->0.index == reach / (self.taps * den) as int
                &&& point->0.part == reach % (self.taps * den) as int
                &&& point->0.part < point->0.scale
                &&& point->0.index <= OVERSAMPLE
                &&& point->0.index + 3 < ENVELOPE_SAMPLES
            },
    {
        let distance: i64 = self.tap_distance(k, phase, den);
        let ghost exact = tap_distance_of(self.taps as nat, k as nat, phase as nat, den as nat);
        assert(-4098 * 0xffff_ffff <= exact <= 4097 * 0xffff_ffff) by (nonlinear_arith)
            requires
                exact == (k - self.taps / 2) * den - phase,
                -4097 <= k - self.taps / 2 <= 4097,
                0 <= phase < den <= 0xffff_ffff,
        ;
        let size: u64 = if distance < 0 {
            (-distance) as u64
        } else {
            distance as u64
        };
        assert(0 < self.taps * den <= 4097 * 0xffff_ffff) by (nonlinear_arith)
            requires
                0 < self.taps <= 4097,
                0 < den <= 0xffff_ffff,
        ;
        let scale: u64 = self.taps as u64 * den as u64;
        if 2 * size > scale {
            return None;
        }
        assert(2 * OVERSAMPLE == 64);
        let reach: u64 = 2 * (OVERSAMPLE as u64) * size;
        assert(reach == 64 * size);
        let index: u64 = reach / scale;
        let part: u64 = reach % scale;
        proof {
            vstd::arithmetic::div_mod::lemma_fundamental_div_mod(reach as int, scale as int);
            vstd::arithmetic::div_mod::lemma_mod_bound(reach as int, scale as int);
            assert(index <= 32) by (nonlinear_arith)
                requires
                    reach == scale * index + part,
                    0 <= part,
                    reach <= 32 * scale,
                    scale > 0,
            ;
        }
        Some(EnvelopePoint { index: index as u32, part, scale })
    }

    /// The delay of the filter in input samples: the taps on one side of
    /// the centre.
    pub fn input_latency(&self) -> (latency: u32)
        ensures
            latency == self.taps / 2,
    {
        self.taps / 2
    }

    /// The delay of the filter in output samples, for a conversion that
    /// reads `num` input samples for every `den` output samples: the input
    /// delay scaled by the ratio and rounded to the nearest sample.
    pub fn output_latency(&self, num: u32, den: u32) -> (latency: u64)
        requires
            self.wf(),
            num > 0,
        ensures
            latency == output_latency_for((self.taps / 2) as nat, num as nat, den as nat),
            2 * (latency * num - (self.taps / 2) * den) <= num,
            2 * ((self.taps / 2) * den - latency * num) < num,
    {
        let half: u64 = (self.taps / 2) as u64;
        proof {
            lemma_round_div_nearest((half * den) as nat, num as nat);
            assert(half * den <= 2048 * 0xffff_ffff) by (nonlinear_arith)
                requires
                    half <= 2048,
                    den <= 0xffff_ffff,
            ;
        }
        (2 * (half * (den as u64)) + num as u64) / (2 * (num as u64))
    }
}

/// Rounding to the nearest integer misses the exact quotient by at most
/// half a unit.
pub proof fn lemma_round_div_nearest(a: nat, b: nat)
    requires
        b > 0,
    ensures
        2 * (round_div(a, b) * b - a) <= b,
        2 * (a - round_div(a, b) * b) < b,
{
    let r = round_div(a, b);
    let x = 2 * a + b;
    let y = 2 * b;
    vstd::arithmetic::div_mod::lemma_fundamental_div_mod(x as int, y as int);
    vstd::arithmetic::div_mod::lemma_mod_bound(x as int, y as int);
    assert(x == y * r + x % y);
    assert(y * r == 2 * (r * b)) by (nonlinear_arith)
        requires
            y == 2 * b,
    ;
}

/// A narrower band never gets a shorter filter: if the cutoff of one
/// conversion is no higher than that of another, its tap count is no lower.
pub proof fn lemma_taps_grow_as_cutoff_falls(num1: nat, den1: nat, num2: nat, den2: nat)
    requires
        num1 > 0,
        den1 > 0,
        num2 > 0,
        den2 > 0,
        cutoff_for(num1, den1).0 * cutoff_for(num2, den2).1 <= cutoff_for(num2, den2).0
            * cutoff_for(num1, den1).1,
    ensures
        taps_for(num1, den1) >= taps_for(num2, den2),
{
    let base = BASE_TAPS as nat;
    if num2 > den2 {
        if num1 > den1 {
            // den1 / num1 <= den2 / num2
            assert(den1 * num2 <= den2 * num1);
            let q1 = base * num1 / den1;
            let q2 = base * num2 / den2;
            vstd::arithmetic::div_mod::lemma_fundamental_div_mod((base * num2) as int, den2 as int);
            vstd::arithmetic::div_mod::lemma_mod_bound((base * num2) as int, den2 as int);
            vstd::arithmetic::div_mod::lemma_fundamental_div_mod((base * num1) as int, den1 as int);
            vstd::arithmetic::div_mod::lemma_mod_bound((base * num1) as int, den1 as int);
            assert(q2 <= q1) by (nonlinear_arith)
                requires
                    den2 * q2 <= base * num2,
                    base * num1 < den1 * q1 + den1,
                    den1 * num2 <= den2 * num1,
                    den1 > 0,
                    den2 > 0,
            ;
        } else {
            // a full band is never below a narrowed one
            assert(false) by (nonlinear_arith)
                requires
                    1 * num2 <= den2 * 1,
                    num2 > den2,
            ;
        }
    } else {
        if num1 > den1 {
            let q1 = base * num1 / den1;
            vstd::arithmetic::div_mod::lemma_fundamental_div_mod((base * num1) as int, den1 as int);
            vstd::arithmetic::div_mod::lemma_mod_bound((base * num1) as int, den1 as int);
            assert(q1 >= base) by (nonlinear_arith)
                requires
                    base * num1 < den1 * q1 + den1,
                    num1 > den1,
                    den1 > 0,
            ;
        }
    }
}

} // verus!
