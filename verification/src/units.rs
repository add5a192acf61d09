//! Fixed-point amplitude units, the linear stereo pan law, and the scaled
//! per-sample contribution of one placement.

use vstd::prelude::*;

verus! {

/// Project sample rate in frames per second.
pub const PROJECT_RATE: u64 = 44100;

/// Interleaved channels per frame: stereo.
pub const CHANNELS: u64 = 2;

/// `UNIT * UNIT`, the scale divisor of a sample * volume * gain product.
pub const UNIT_SQUARED: i64 = 0x4000_0000;

/// Largest magnitude one placement can contribute to one output cell:
/// |sample| * |volume| * gain / (UNIT * UNIT) <= 2^31 * 2^31 * 2^15 / 2^30.
pub const TERM_LIMIT: i128 = 0x8000_0000_0000;

/// Cells at or below this magnitude in absolute value can take one more
/// contribution without leaving the range of `i128`.
pub const CELL_LIMIT: i128 = i128::MAX - 0x8000_0000_0000;

/// A gain saturated to the valid range [0, UNIT].
pub open spec fn clamped_gain(x: int) -> int {
    if x < 0 {
        0
    } else if x > crate::UNIT {
        crate::UNIT as int
    } else {
        x
    }
}

/// The linear pan law: the gain applied at interleaved sample index `i`
/// (even = left channel, odd = right channel) under pan `pan`. Center pan
/// leaves both channels unattenuated; otherwise the left gain is
/// clamp(UNIT - pan, 0, UNIT) and the right gain clamp(UNIT + pan, 0, UNIT).
pub open spec fn gain_of(pan: int, i: int) -> int {
    if pan == 0 {
        crate::UNIT as int
    } else if i % 2 == 0 {
        clamped_gain(crate::UNIT - pan)
    } else {
        clamped_gain(crate::UNIT + pan)
    }
}

/// The pan law saturates to [0, UNIT] for every pan value.
pub proof fn lemma_gain_in_range(pan: int, i: int)
    ensures
        0 <= gain_of(pan, i) <= crate::UNIT,
{
}

/// Pan law boundary: at full right pan the left channel is silenced and the
/// right channel passes unattenuated; at full left pan the reverse; at
/// center pan both channels pass unattenuated.
pub proof fn lemma_pan_law_boundary()
    ensures
        forall|i: int| i % 2 == 0 ==> #[trigger] gain_of(crate::UNIT as int, i) == 0,
        forall|i: int| i % 2 == 1 ==> #[trigger] gain_of(crate::UNIT as int, i) == crate::UNIT,
        forall|i: int| i % 2 == 0 ==> #[trigger] gain_of(-(crate::UNIT as int), i) == crate::UNIT,
        forall|i: int| i % 2 == 1 ==> #[trigger] gain_of(-(crate::UNIT as int), i) == 0,
        forall|i: int| #[trigger] gain_of(0, i) == crate::UNIT,
{
}

/// The exec pan law.
pub fn gain_at(pan: i32, i: usize) -> (g: i32)
    ensures
        g == gain_of(pan as int, i as int),
        0 <= g <= crate::UNIT,
{
    if pan == 0 {
        crate::UNIT
    } else {
        let base: i64 = if i % 2 == 0 {
            (crate::UNIT as i64) - (pan as i64)
        } else {
            (crate::UNIT as i64) + (pan as i64)
        };
        if base < 0 {
            0
        } else if base > (crate::UNIT as i64) {
            crate::UNIT
        } else {
            base as i32
        }
    }
}

/// The fixed-point value contributed by one source sample `s` under volume
/// `v` and gain `g`: the product scaled back by UNIT^2 with truncating
/// (round-toward-zero) division.
pub open spec fn scaled_product(s: int, v: int, g: int) -> int {
    let p = s * v * g;
    if p >= 0 {
        p / (UNIT_SQUARED as int)
    } else {
        -((-p) / (UNIT_SQUARED as int))
    }
}

/// A contribution never exceeds TERM_LIMIT in magnitude.
pub proof fn lemma_scaled_product_bound(s: int, v: int, g: int)
    requires
        -0x8000_0000 <= s <= 0x8000_0000,
        -0x8000_0000 <= v <= 0x8000_0000,
        0 <= g <= crate::UNIT,
    ensures
        -TERM_LIMIT <= scaled_product(s, v, g) <= TERM_LIMIT,
{
    let p = s * v * g;
    assert(-0x2000_0000_0000_0000_0000 <= s * v * g <= 0x2000_0000_0000_0000_0000)
        by (nonlinear_arith)
        requires
            -0x8000_0000 <= s <= 0x8000_0000,
            -0x8000_0000 <= v <= 0x8000_0000,
            0 <= g <= 0x8000,
    ;
    if p >= 0 {
        assert(p / (UNIT_SQUARED as int) <= 0x8000_0000_0000) by {
            vstd::arithmetic::div_mod::lemma_div_is_ordered(
                p,
                0x2000_0000_0000_0000_0000,
                UNIT_SQUARED as int,
            );
        }
        assert(p / (UNIT_SQUARED as int) >= 0) by {
            vstd::arithmetic::div_mod::lemma_div_pos_is_pos(p, UNIT_SQUARED as int);
        }
    } else {
        assert((-p) / (UNIT_SQUARED as int) <= 0x8000_0000_0000) by {
            vstd::arithmetic::div_mod::lemma_div_is_ordered(
                -p,
                0x2000_0000_0000_0000_0000,
                UNIT_SQUARED as int,
            );
        }
        assert((-p) / (UNIT_SQUARED as int) >= 0) by {
            vstd::arithmetic::div_mod::lemma_div_pos_is_pos(-p, UNIT_SQUARED as int);
        }
    }
}

/// The magnitude of an `i32`, widened to `u64`.
fn abs_to_u64(x: i32) -> (r: u64)
    ensures
        r == if x >= 0 {
            x as int
        } else {
            -(x as int)
        },
{
    if x >= 0 {
        x as u64
    } else {
        (-(x as i64)) as u64
    }
}

/// The exec contribution of sample `s` at volume `v` and gain `g`.
pub fn contribution(s: i32, v: i32, g: i32) -> (t: i64)
    requires
        0 <= g <= crate::UNIT,
    ensures
        t == scaled_product(s as int, v as int, g as int),
        -TERM_LIMIT <= t <= TERM_LIMIT,
{
    let negative: bool = (s < 0) != (v < 0);
    let sa: u64 = abs_to_u64(s);
    let va: u64 = abs_to_u64(v);
    proof {
        assert((sa as int) * (va as int) <= 0x4000_0000_0000_0000) by (nonlinear_arith)
            requires
                0 <= sa <= 0x8000_0000,
                0 <= va <= 0x8000_0000,
        ;
        assert((sa as int) * (va as int) * (g as int) <= 0x2000_0000_0000_0000_0000)
            by (nonlinear_arith)
            requires
                0 <= sa <= 0x8000_0000,
                0 <= va <= 0x8000_0000,
                0 <= g <= 0x8000,
        ;
        assert((sa as int) * (va as int) * (g as int) >= 0) by (nonlinear_arith)
            requires
                0 <= sa,
                0 <= va,
                0 <= g,
        ;
    }
    let p: u128 = (sa as u128) * (va as u128) * (g as u128);
    let q: u128 = p / (UNIT_SQUARED as u128);
    proof {
        vstd::arithmetic::div_mod::lemma_div_is_ordered(
            p as int,
            0x2000_0000_0000_0000_0000,
            UNIT_SQUARED as int,
        );
        let sv = (s as int) * (v as int);
        let sava = (sa as int) * (va as int);
        assert(sv == if negative {
            -sava
        } else {
            sava
        }) by (nonlinear_arith)
            requires
                sa == if s >= 0 {
                    s as int
                } else {
                    -(s as int)
                },
                va == if v >= 0 {
                    v as int
                } else {
                    -(v as int)
                },
                negative == ((s < 0) != (v < 0)),
                sv == (s as int) * (v as int),
                sava == (sa as int) * (va as int),
        ;
        assert(sv * (g as int) == if negative {
            -(sava * (g as int))
        } else {
            sava * (g as int)
        }) by (nonlinear_arith)
            requires
                sv == if negative {
                    -sava
                } else {
                    sava
                },
        ;
        assert(sava * (g as int) == p) by (nonlinear_arith)
            requires
                sava == (sa as int) * (va as int),
                p == (sa as int) * (va as int) * (g as int),
        ;
    }
    if negative {
        -(q as i64)
    } else {
        q as i64
    }
}

} // verus!
