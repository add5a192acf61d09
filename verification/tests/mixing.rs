use mixdown::mix::{clip, mix, zero_buffer};
use mixdown::units::{contribution, gain_at};
use mixdown::UNIT;

#[test]
fn pan_law_boundary_gains() {
    // full right pan silences the left channel and passes the right
    assert_eq!(gain_at(UNIT, 0), 0);
    assert_eq!(gain_at(UNIT, 1), UNIT);
    // full left pan does the reverse
    assert_eq!(gain_at(-UNIT, 0), UNIT);
    assert_eq!(gain_at(-UNIT, 1), 0);
    // center pan attenuates neither channel
    assert_eq!(gain_at(0, 0), UNIT);
    assert_eq!(gain_at(0, 1), UNIT);
}

#[test]
fn pan_law_half_pan_and_saturation() {
    assert_eq!(gain_at(16384, 0), 16384);
    assert_eq!(gain_at(16384, 1), UNIT);
    assert_eq!(gain_at(-16384, 0), UNIT);
    assert_eq!(gain_at(-16384, 1), 16384);
    // out-of-range pans saturate instead of erroring
    assert_eq!(gain_at(2 * UNIT, 0), 0);
    assert_eq!(gain_at(2 * UNIT, 1), UNIT);
}

#[test]
fn contribution_scales_and_truncates_toward_zero() {
    assert_eq!(contribution(1234, UNIT, UNIT), 1234);
    assert_eq!(contribution(-1234, UNIT, UNIT), -1234);
    // 3 * 0.5 * 1.0 = 1.5 truncates to 1
    assert_eq!(contribution(3, 16384, UNIT), 1);
    assert_eq!(contribution(-3, 16384, UNIT), -1);
    assert_eq!(contribution(1000, 0, UNIT), 0);
}

#[test]
fn unit_mix_reproduces_source() {
    let sample: Vec<i32> = vec![100, -200, 300, -400];
    let mut out = zero_buffer(8);
    mix(&mut out, &sample, 2, UNIT, 0);
    assert_eq!(out, vec![0i128, 0, 100, -200, 300, -400, 0, 0]);
}

#[test]
fn overlap_accumulates_to_double() {
    let sample: Vec<i32> = vec![30000, 30000];
    let mut out = zero_buffer(2);
    mix(&mut out, &sample, 0, UNIT, 0);
    mix(&mut out, &sample, 0, UNIT, 0);
    assert_eq!(out, vec![60000i128, 60000]);
    clip(&mut out);
    assert_eq!(out, vec![32768i128, 32768]);
}

#[test]
fn disjoint_mix_order_is_immaterial() {
    let s1: Vec<i32> = vec![10, 20];
    let s2: Vec<i32> = vec![-30, 40];
    let mut a = zero_buffer(6);
    mix(&mut a, &s1, 0, UNIT, 0);
    mix(&mut a, &s2, 4, 16384, 8000);
    let mut b = zero_buffer(6);
    mix(&mut b, &s2, 4, 16384, 8000);
    mix(&mut b, &s1, 0, UNIT, 0);
    assert_eq!(a, b);
}

#[test]
fn pan_silences_one_channel_at_extreme() {
    let sample: Vec<i32> = vec![1000, 1000];
    let mut out = zero_buffer(2);
    mix(&mut out, &sample, 0, UNIT, UNIT);
    assert_eq!(out, vec![0i128, 1000]);
}

#[test]
fn clipping_bounds_and_preserves() {
    let mut out: Vec<i128> = vec![40000, -40000, 32768, -32768, 100, 0, 32769, -32769];
    clip(&mut out);
    assert_eq!(out, vec![32768i128, -32768, 32768, -32768, 100, 0, 32768, -32768]);
}
