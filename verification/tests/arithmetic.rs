//! The bit-pattern arithmetic against the hardware's own floating point.

use music_sequencer::sfloat::{
    amp_for_count, f32_add, f32_mul, f64_to_f32, seconds_to_frames_round, seconds_to_frames_trunc,
    seconds_to_frames_trunc_u64, square_phase_hi,
};

fn f32_values() -> Vec<f32> {
    vec![
        0.0f32,
        -0.0,
        1.0,
        -1.0,
        0.5,
        -0.5,
        2.0,
        3.1415927,
        0.1,
        -0.1,
        1.0e-10,
        -1.0e-10,
        1.0e10,
        3.4e38,
        -3.4e38,
        1.1754944e-38,
        1.0e-45,
        -1.0e-45,
        f32::INFINITY,
        f32::NEG_INFINITY,
        123.456,
        -7.875,
        16777215.0,
        16777216.0,
        0.33333334,
    ]
}

#[test]
fn f32_add_matches_hardware() {
    let vals = f32_values();
    for &a in &vals {
        for &b in &vals {
            let want = a + b;
            let got = f32::from_bits(f32_add(a.to_bits(), b.to_bits()));
            if want.is_nan() {
                assert!(got.is_nan(), "add {a} {b}: got {got}");
            } else {
                assert_eq!(got.to_bits(), want.to_bits(), "add {a} {b}: got {got} want {want}");
            }
        }
    }
}

#[test]
fn f32_mul_matches_hardware() {
    let vals = f32_values();
    for &a in &vals {
        for &b in &vals {
            let want = a * b;
            let got = f32::from_bits(f32_mul(a.to_bits(), b.to_bits()));
            if want.is_nan() {
                assert!(got.is_nan(), "mul {a} {b}: got {got}");
            } else {
                assert_eq!(got.to_bits(), want.to_bits(), "mul {a} {b}: got {got} want {want}");
            }
        }
    }
}

#[test]
fn f32_add_nan_gives_nan() {
    let nan = f32::NAN.to_bits();
    assert!(f32::from_bits(f32_add(nan, 1.0f32.to_bits())).is_nan());
    assert!(f32::from_bits(f32_mul(nan, 0.0f32.to_bits())).is_nan());
    // Infinity minus infinity has no value.
    assert!(f32::from_bits(f32_add(
        f32::INFINITY.to_bits(),
        f32::NEG_INFINITY.to_bits()
    ))
    .is_nan());
    // Zero times infinity has no value.
    assert!(f32::from_bits(f32_mul(0.0f32.to_bits(), f32::INFINITY.to_bits())).is_nan());
}

#[test]
fn amp_for_count_matches_reciprocal() {
    for n in 1u32..=2000 {
        let want = (n as f32).recip();
        let got = f32::from_bits(amp_for_count(n as u64));
        assert_eq!(got.to_bits(), want.to_bits(), "1/{n}: got {got} want {want}");
    }
    // Counts up to 2^24 convert to f32 exactly, so the hardware reciprocal
    // is the correctly rounded 1/n to compare against.
    for n in [2047u32, 4095, 8191, 16384, 32767, 65535, 65536, 65537, 1_000_000, 16_777_215] {
        let want = (n as f32).recip();
        let got = f32::from_bits(amp_for_count(n as u64));
        assert_eq!(got.to_bits(), want.to_bits(), "1/{n}");
    }
    // Reciprocals of exact powers of two stay exact at any width.
    assert_eq!(f32::from_bits(amp_for_count(1u64 << 32)), 2.0f32.powi(-32));
    assert_eq!(f32::from_bits(amp_for_count(1u64 << 62)), 2.0f32.powi(-62));
    // A count just above a power of two whose reciprocal rounds back up to
    // that power's reciprocal: the rounding carry is renormalized.
    let n: u64 = (1u64 << 62) + (1u64 << 30);
    assert_eq!(f32::from_bits(amp_for_count(n)), 2.0f32.powi(-62));
}

#[test]
fn amp_for_zero_count_is_infinite() {
    assert_eq!(f32::from_bits(amp_for_count(0)), f32::INFINITY);
}

#[test]
fn f64_to_f32_matches_cast() {
    let vals: Vec<f64> = vec![
        0.0,
        -0.0,
        1.0,
        -1.0,
        0.5,
        0.1,
        0.3333333333333333,
        1.0e-10,
        1.0e10,
        1.0e40,
        -1.0e40,
        1.0e-40,
        -1.0e-40,
        1.0e-300,
        f64::INFINITY,
        f64::NEG_INFINITY,
        123.456,
        16777216.5,
        0.7,
    ];
    for &x in &vals {
        let want = x as f32;
        let got = f32::from_bits(f64_to_f32(x.to_bits()));
        assert_eq!(got.to_bits(), want.to_bits(), "demote {x}: got {got} want {want}");
    }
}

#[test]
fn frames_trunc_exact_values() {
    assert_eq!(seconds_to_frames_trunc(0.01f64.to_bits(), 8000), 80);
    assert_eq!(seconds_to_frames_trunc(1.0f64.to_bits(), 44100), 44100);
    assert_eq!(seconds_to_frames_trunc(2.5f64.to_bits(), 4), 10);
    assert_eq!(seconds_to_frames_trunc(0.9999f64.to_bits(), 10), 9);
    assert_eq!(seconds_to_frames_trunc(0.0f64.to_bits(), 8000), 0);
    assert_eq!(seconds_to_frames_trunc(f64::NAN.to_bits(), 8000), 0);
    assert_eq!(seconds_to_frames_trunc((-1.5f64).to_bits(), 8000), 0);
    assert_eq!(seconds_to_frames_trunc(f64::INFINITY.to_bits(), 8000), usize::MAX);
}

#[test]
fn frames_round_exact_values() {
    assert_eq!(seconds_to_frames_round(0.01f64.to_bits(), 8000), 80);
    // 0.05 is stored slightly above one twentieth, so ten times it rounds up.
    assert_eq!(seconds_to_frames_round(0.05f64.to_bits(), 10), 1);
    assert_eq!(seconds_to_frames_round(0.04f64.to_bits(), 10), 0);
    assert_eq!(seconds_to_frames_round(1.25f64.to_bits(), 2), 3);
    assert_eq!(seconds_to_frames_round((-0.4f64).to_bits(), 10), 0);
}

#[test]
fn frames_u64_exact_values() {
    assert_eq!(seconds_to_frames_trunc_u64(1.5f64.to_bits(), 1000), 1500);
    assert_eq!(seconds_to_frames_trunc_u64(f64::INFINITY.to_bits(), 2), u64::MAX);
}

#[test]
fn square_phase_matches_exact_rational() {
    // At 440 Hz and 8000 frames per second the frame k sits in the first
    // half of its period exactly when frac(440 k / 8000) <= 1/2.
    let fb = 440.0f64.to_bits();
    for k in 0usize..4000 {
        let want = 2 * ((440 * k) % 8000) <= 8000;
        assert_eq!(square_phase_hi(k, fb, 8000), want, "k = {k}");
    }
    // A fractional frequency: 2.5 Hz at 10 frames per second has a period
    // of four frames.
    let fb = 2.5f64.to_bits();
    for k in 0usize..40 {
        let want = 2 * ((25 * k) % 100) <= 100;
        assert_eq!(square_phase_hi(k, fb, 10), want, "k = {k}");
    }
}
