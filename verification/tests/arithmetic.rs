//! The binary32 arithmetic against the machine's own.

use hap::single::Single;

fn soft(v: f32) -> Single {
    Single::from_bits(v.to_bits())
}

fn same(a: Single, b: f32) -> bool {
    if b.is_nan() {
        matches!(a, Single::Nan)
    } else {
        a.to_bits() == b.to_bits()
    }
}

/// A sequence of bit patterns, the same on every run.
fn next(state: &mut u64) -> u32 {
    *state = state.wrapping_mul(6364136223846793005).wrapping_add(1442695040888963407);
    (*state >> 32) as u32
}

fn samples() -> Vec<f32> {
    let mut v = vec![
        0.0, -0.0, 1.0, -1.0, 0.5, 1.5, 2.0, 3.0, 255.0, 127.5, 0.1, 1e-45, 1e-40, 1.17549435e-38,
        3.4028235e38, -3.4028235e38, f32::INFINITY, f32::NEG_INFINITY, f32::NAN, 29.97, 59.94, 23.976,
        16777215.0, 16777216.0, 16777217.0, 0.49999997, 0.50000006, 2.5, 3.5, -2.5, -0.5,
    ];
    let mut state = 7u64;
    for _ in 0..120 {
        v.push(f32::from_bits(next(&mut state)));
        // Values of an ordinary size.
        v.push((next(&mut state) % 100000) as f32 / 37.0 - 900.0);
    }
    v
}

#[test]
fn patterns_survive() {
    for v in samples() {
        assert!(same(soft(v), v), "{:?}", v);
    }
}

#[test]
fn sums_and_differences_agree() {
    let v = samples();
    for &a in &v {
        for &b in &v {
            assert!(same(soft(a).plus(soft(b)), a + b), "{:?} + {:?}", a, b);
            assert!(same(soft(a).minus(soft(b)), a - b), "{:?} - {:?}", a, b);
        }
    }
}

#[test]
fn products_and_quotients_agree() {
    let v = samples();
    for &a in &v {
        for &b in &v {
            assert!(same(soft(a).times(soft(b)), a * b), "{:?} * {:?}", a, b);
            assert!(same(soft(a).over(soft(b)), a / b), "{:?} / {:?}", a, b);
        }
    }
}

#[test]
fn roots_agree() {
    for a in samples() {
        assert!(same(soft(a).sqrt(), a.sqrt()), "sqrt {:?}", a);
    }
}

#[test]
fn comparisons_agree() {
    let v = samples();
    for &a in &v {
        for &b in &v {
            assert_eq!(soft(a).lt(soft(b)), a < b, "{:?} < {:?}", a, b);
        }
    }
}

#[test]
fn conversions_agree() {
    for a in samples() {
        assert_eq!(soft(a).round_u32(), a.round() as u32, "{:?}", a);
        assert_eq!(soft(a).round_i32(), a.round() as i32, "{:?}", a);
        assert_eq!(soft(a).trunc_u32(), a as u32, "{:?}", a);
        assert_eq!(soft(a).trunc_u8(), a as u8, "{:?}", a);
        assert!(same(soft(a).abs(), a.abs()), "{:?}", a);
    }
    for n in [0u32, 1, 255, 16777215, 16777217, 4294967295, 4294967167, 4294967168] {
        assert!(same(Single::from_u32(n), n as f32), "{}", n);
    }
    assert!(same(Single::from_ratio(2997, 100), 29.97));
    assert!(same(Single::from_ratio(23976, 1000), 23.976));
    assert!(same(Single::from_ratio(1, 100), 0.01));
}

#[test]
fn remainders_agree() {
    let v = samples();
    for &a in &v {
        for &b in &v {
            assert!(same(soft(a).rem(soft(b)), a % b), "{:?} % {:?}", a, b);
        }
    }
}

#[test]
fn large_integers_agree() {
    for n in [0u64, 1, 16777217, 4294967296, 9007199254740993, u64::MAX, u64::MAX / 3] {
        assert!(same(Single::from_u64(n), n as f32), "{}", n);
    }
    for a in samples() {
        assert_eq!(soft(a).round_u64(), a.round() as u64, "{:?}", a);
    }
    for a in [1.0e10f32, 1.0e18, 1.8446743e19, 1.8446744e19, 3.0e19, 549755800000.0] {
        assert_eq!(soft(a).round_u64(), a.round() as u64, "{:?}", a);
    }
}

#[test]
fn limits_agree() {
    let v = samples();
    for &a in &v {
        for &b in &v {
            if !(a == 0.0 && b == 0.0) {
                assert!(same(soft(a).min(soft(b)), a.min(b)), "min {:?} {:?}", a, b);
                assert!(same(soft(a).max(soft(b)), a.max(b)), "max {:?} {:?}", a, b);
            }
        }
        assert!(same(soft(a).clamp(soft(0.25), soft(0.75)), a.clamp(0.25, 0.75)), "{:?}", a);
    }
}

/// The values that the frame rates and the tolerance stand for.
#[test]
fn rates_are_exact() {
    for rate in [1u32, 24, 25, 30, 60, 120, 16777] {
        let fps = Single::from_u32(rate);
        let scale = fps.times(Single::from_u32(1000)).round_u32();
        assert_eq!(scale, 1000 * rate);
        assert_eq!(Single::from_u32(scale).over(fps).round_u32(), 1000);
        assert!(same(Single::from_u32(scale).over(Single::from_u32(1000)), rate as f32));
    }
}
