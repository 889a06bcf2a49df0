//! Easing functions: monotone remappings of normalized time. Time is
//! normalized to thousandths, so an easing maps `[0, 1000]` into `[0, 1000]`.

use vstd::prelude::*;

verus! {

/// The easing kinds a primitive can be wrapped in. `Linear` is the identity
/// and the default when no easing is asked for.
#[derive(Clone, Copy, PartialEq, Eq, Structural, Debug)]
pub enum Easing {
    Linear,
    CubicOut,
    QuarticInOut,
    BounceOut,
}

/// A quotient `n / d` of a bounded non-negative numerator is non-negative and
/// at most `hi / d`.
pub proof fn lemma_div_range(n: int, hi: int, d: int)
    requires
        0 <= n <= hi,
        0 < d,
    ensures
        0 <= n / d <= hi / d,
{
    vstd::arithmetic::div_mod::lemma_div_pos_is_pos(n, d);
    vstd::arithmetic::div_mod::lemma_div_is_ordered(n, hi, d);
}

/// The bounce-out waveform: four parabolic arcs, in fixed point. Reaches
/// exactly 1000 at `t == 1000`.
pub open spec fn spec_bounce(t: int) -> int {
    if 11 * t < 4000 {
        (121 * t * t) / 16000
    } else if 11 * t < 8000 {
        ((11 * t - 6000) * (11 * t - 6000) + 12_000_000) / 16000
    } else if 11 * t < 10000 {
        ((11 * t - 9000) * (11 * t - 9000) + 15_000_000) / 16000
    } else {
        ((11 * t - 10500) * (11 * t - 10500) + 15_750_000) / 16000
    }
}

/// The value of an easing at normalized time `t` (thousandths).
pub open spec fn spec_ease(e: Easing, t: int) -> int {
    match e {
        Easing::Linear => t,
        Easing::CubicOut => 1000 - ((1000 - t) * (1000 - t) * (1000 - t)) / 1_000_000,
        Easing::QuarticInOut => if t < 500 {
            (8 * (t * t * t * t)) / 1_000_000_000
        } else {
            1000 - (8 * ((1000 - t) * (1000 - t) * (1000 - t) * (1000 - t))) / 1_000_000_000
        },
        Easing::BounceOut => spec_bounce(t),
    }
}

/// Law: every easing maps normalized time in `[0, 1000]` back into
/// `[0, 1000]`.
pub proof fn lemma_ease_range(e: Easing, t: int)
    requires
        0 <= t <= 1000,
    ensures
        0 <= spec_ease(e, t) <= 1000,
{
    match e {
        Easing::Linear => {},
        Easing::CubicOut => {
            let u = 1000 - t;
            assert(0 <= u * u * u <= 1_000_000_000) by (nonlinear_arith)
                requires
                    0 <= u <= 1000,
            ;
            lemma_div_range(u * u * u, 1_000_000_000, 1_000_000);
        },
        Easing::QuarticInOut => {
            if t < 500 {
                assert(0 <= 8 * (t * t * t * t) <= 500_000_000_000) by (nonlinear_arith)
                    requires
                        0 <= t < 500,
                ;
                lemma_div_range(8 * (t * t * t * t), 500_000_000_000, 1_000_000_000);
            } else {
                let u = 1000 - t;
                assert(0 <= 8 * (u * u * u * u) <= 500_000_000_000) by (nonlinear_arith)
                    requires
                        0 <= u <= 500,
                ;
                lemma_div_range(8 * (u * u * u * u), 500_000_000_000, 1_000_000_000);
            }
        },
        Easing::BounceOut => {
            lemma_bounce_range(t);
        },
    }
}

/// The bounce-out waveform stays within `[0, 1000]` on `[0, 1000]`.
pub proof fn lemma_bounce_range(t: int)
    requires
        0 <= t <= 1000,
    ensures
        0 <= spec_bounce(t) <= 1000,
{
    if 11 * t < 4000 {
        assert(0 <= 121 * t * t <= 15_944_049) by (nonlinear_arith)
            requires
                0 <= t <= 363,
        ;
        lemma_div_range(121 * t * t, 15_944_049, 16000);
    } else if 11 * t < 8000 {
        let d = 11 * t - 6000;
        assert(0 <= d * d <= 4_000_000) by (nonlinear_arith)
            requires
                -2000 <= d <= 2000,
        ;
        lemma_div_range(d * d + 12_000_000, 16_000_000, 16000);
    } else if 11 * t < 10000 {
        let d = 11 * t - 9000;
        assert(0 <= d * d <= 1_000_000) by (nonlinear_arith)
            requires
                -1000 <= d <= 1000,
        ;
        lemma_div_range(d * d + 15_000_000, 16_000_000, 16000);
    } else {
        let d = 11 * t - 10500;
        assert(0 <= d * d <= 250_000) by (nonlinear_arith)
            requires
                -500 <= d <= 500,
        ;
        lemma_div_range(d * d + 15_750_000, 16_000_000, 16000);
    }
}

/// Evaluates an easing at normalized time `t` in thousandths.
pub fn ease(e: Easing, t: i64) -> (r: i64)
    requires
        0 <= t <= 1000,
    ensures
        r == spec_ease(e, t as int),
        0 <= r <= 1000,
{
    proof {
        lemma_ease_range(e, t as int);
    }
    match e {
        Easing::Linear => t,
        Easing::CubicOut => {
            let u = 1000 - t;
            proof {
                assert(0 <= u * u <= 1_000_000 && 0 <= u * u * u <= 1_000_000_000)
                    by (nonlinear_arith)
                    requires
                        0 <= u <= 1000,
                ;
            }
            1000 - (u * u * u) / 1_000_000
        },
        Easing::QuarticInOut => {
            if t < 500 {
                proof {
                    assert(0 <= t * t <= 250_000 && 0 <= t * t * t <= 125_000_000
                        && 0 <= t * t * t * t <= 62_500_000_000) by (nonlinear_arith)
                        requires
                            0 <= t < 500,
                    ;
                }
                (8 * (t * t * t * t)) / 1_000_000_000
            } else {
                let u = 1000 - t;
                proof {
                    assert(0 <= u * u <= 250_000 && 0 <= u * u * u <= 125_000_000
                        && 0 <= u * u * u * u <= 62_500_000_000) by (nonlinear_arith)
                        requires
                            0 <= u <= 500,
                    ;
                }
                1000 - (8 * (u * u * u * u)) / 1_000_000_000
            }
        },
        Easing::BounceOut => {
            if 11 * t < 4000 {
                proof {
                    assert(0 <= 121 * t * t <= 15_944_049) by (nonlinear_arith)
                        requires
                            0 <= t <= 363,
                    ;
                }
                proof {
                    assert(11 * t < 4000 ==> t <= 363);
                }
                (121 * t * t) / 16000
            } else if 11 * t < 8000 {
                let d = 11 * t - 6000;
                proof {
                    assert(0 <= d * d <= 4_000_000) by (nonlinear_arith)
                        requires
                            -2000 <= d <= 2000,
                    ;
                }
                (d * d + 12_000_000) / 16000
            } else if 11 * t < 10000 {
                let d = 11 * t - 9000;
                proof {
                    assert(0 <= d * d <= 1_000_000) by (nonlinear_arith)
                        requires
                            -1000 <= d <= 1000,
                    ;
                }
                (d * d + 15_000_000) / 16000
            } else {
                let d = 11 * t - 10500;
                proof {
                    assert(0 <= d * d <= 250_000) by (nonlinear_arith)
                        requires
                            -500 <= d <= 500,
                    ;
                }
                (d * d + 15_750_000) / 16000
            }
        },
    }
}

} // verus!
