use bigdecimal::{BigDecimal, ToPrimitive};
use sv_challenge::landscape::{Landscape, StabilizeError};
use sv_challenge::tolerance::compare;

const RAIN_DENSITY: f64 = 1.0;
const STRICT_EQUALITY: bool = false;

fn dec(h: f64) -> BigDecimal {
    BigDecimal::try_from(h).unwrap()
}

fn decs(hs: &[f64]) -> Vec<BigDecimal> {
    hs.iter().map(|h| dec(*h)).collect()
}

fn floats(hs: &[BigDecimal]) -> Vec<f64> {
    hs.iter().map(|h| h.to_f64().unwrap()).collect()
}

fn compare_f64(precision: &f64, left: &[f64], right: &[f64]) {
    assert_eq!(left.len(), right.len());
    if *precision == 0.0 || STRICT_EQUALITY {
        assert_eq!(left, right);
    } else {
        for (i, _r) in left.iter().enumerate() {
            if (left[i] - right[i]).abs() > precision * (left.len() as f64) {
                assert!(false, "left[{}]={} != right[{}]={}", i, left[i], i, right[i]);
            }
        }
    }
}

fn compare_dec(precision: &BigDecimal, left: &[BigDecimal], right: &[BigDecimal]) {
    assert_eq!(left.len(), right.len());
    if *precision == BigDecimal::from(0) || STRICT_EQUALITY {
        assert_eq!(left, right);
    } else {
        for (i, _r) in left.iter().enumerate() {
            if (left[i].clone() - &right[i]).abs()
                > precision.clone() * BigDecimal::from(left.len() as u64)
            {
                assert!(false, "left[{}]={} != right[{}]={}", i, left[i], i, right[i]);
            }
        }
        assert!(compare(precision, left, right));
    }
}

/// With a tolerance of zero the water may halve its way to rest for ever.
/// After this many passes what is left to move is far below what `f64` can
/// tell apart.
const PASSES_AT_ZERO_TOLERANCE: u64 = 1000;

/// One hour of rain at a tolerance of zero, for a landscape that comes to
/// rest.
fn resting_levels_at_zero_tolerance(points: &[f64]) -> (f64, Vec<f64>) {
    let mut landscape = Landscape::create_with_precision(decs(points), dec(0.0));
    let prec = landscape.precision().to_f64().unwrap();
    let result = floats(landscape.rain_uniform(dec(RAIN_DENSITY), true).unwrap());
    (prec, result)
}

/// One hour of rain at a tolerance of zero, for a landscape that never
/// comes to rest: the levels as the last pass allowed has left them.
fn restless_levels_at_zero_tolerance(points: &[f64]) -> (f64, Vec<f64>) {
    let mut landscape = Landscape::create_with_precision(decs(points), dec(0.0));
    landscape.set_max_passes(PASSES_AT_ZERO_TOLERANCE);
    let prec = landscape.precision().to_f64().unwrap();
    let outcome = landscape.rain_uniform(dec(RAIN_DENSITY), true).map(|levels| levels.to_vec());
    assert_eq!(outcome, Err(StabilizeError::PassLimit));
    assert_eq!(landscape.passes(), PASSES_AT_ZERO_TOLERANCE);
    let result = (0..landscape.len())
        .map(|i| (landscape.water_at(i) + dec(points[i])).to_f64().unwrap())
        .collect();
    (prec, result)
}

#[test]
fn simul_manual_1th_bd_v2_sv_case_sample() {
    let points = decs(&[3.0, 1.0, 6.0, 4.0, 8.0, 9.0]);
    let mut landscape = Landscape::create(points);
    let prec = landscape.precision();
    let result = landscape.rain_uniform(dec(RAIN_DENSITY), true).unwrap();
    compare_dec(&prec, result, decs(&[4.0, 4.0, 6.0, 6.0, 8.0, 9.0]).as_slice());
}

#[test]
fn simul_manual_1th_bd_v2_sv_case_mail2() {
    let points = decs(&[8.0, 8.0, 1.0]);
    let mut landscape = Landscape::create(points);
    let prec = landscape.precision();
    let result = landscape.rain_uniform(dec(RAIN_DENSITY), true).unwrap();
    compare_dec(&prec, result, decs(&[8.0, 8.0, 4.0]).as_slice());
}

#[test]
fn simul_manual_1th_bd_v2_sv_case_mail3() {
    let points = decs(&[1.0, 8.0, 8.0, 1.0]);
    let mut landscape = Landscape::create(points);
    let prec = landscape.precision();
    let result = landscape.rain_uniform(dec(RAIN_DENSITY), true).unwrap();
    compare_dec(&prec, result, decs(&[3.0, 8.0, 8.0, 3.0]).as_slice());
}

#[test]
fn simul_manual_1th_bd_v2_sv_case_mail4() {
    let points = decs(&[8.0, 4.0, 8.0, 8.0, 1.0]);
    let mut landscape = Landscape::create(points);
    let prec = landscape.precision();
    let result = landscape.rain_uniform(dec(RAIN_DENSITY), true).unwrap();
    compare_dec(&prec, result, decs(&[8.0, 7.0, 8.0, 8.0, 3.0]).as_slice());
}

#[test]
fn simul_manual_1th_bd_v2_sv_case_mail5() {
    let points = decs(&[1.0, 8.0, 8.0, 8.0, 1.0]);
    let mut landscape = Landscape::create(points);
    let prec = landscape.precision();
    let result = landscape.rain_uniform(dec(RAIN_DENSITY), true).unwrap();
    compare_dec(&prec, result, decs(&[3.5, 8.0, 8.0, 8.0, 3.5]).as_slice());
}

#[test]
fn test_common_f64_inc_sv_case_sample() {
    let points = vec![3.0, 1.0, 6.0, 4.0, 8.0, 9.0];
    let mut landscape = Landscape::create(decs(&points));
    let prec = landscape.precision().to_f64().unwrap();
    let result = floats(landscape.rain_uniform(dec(RAIN_DENSITY), true).unwrap());
    compare_f64(&prec, &result, &[4.0, 4.0, 6.0, 6.0, 8.0, 9.0]);
}

#[test]
fn test_common_f64_inc_sv_case_mail2() {
    let points = vec![8.0, 8.0, 1.0];
    let mut landscape = Landscape::create(decs(&points));
    let prec = landscape.precision().to_f64().unwrap();
    let result = floats(landscape.rain_uniform(dec(RAIN_DENSITY), true).unwrap());
    compare_f64(&prec, &result, &[8.0, 8.0, 4.0]);
}

#[test]
fn test_common_f64_inc_sv_case_mail3() {
    let points = vec![1.0, 8.0, 8.0, 1.0];
    let mut landscape = Landscape::create(decs(&points));
    let prec = landscape.precision().to_f64().unwrap();
    let result = floats(landscape.rain_uniform(dec(RAIN_DENSITY), true).unwrap());
    compare_f64(&prec, &result, &[3.0, 8.0, 8.0, 3.0]);
}

#[test]
fn test_common_f64_inc_sv_case_mail4() {
    let points = vec![8.0, 4.0, 8.0, 8.0, 1.0];
    let mut landscape = Landscape::create(decs(&points));
    let prec = landscape.precision().to_f64().unwrap();
    let result = floats(landscape.rain_uniform(dec(RAIN_DENSITY), true).unwrap());
    compare_f64(&prec, &result, &[8.0, 7.0, 8.0, 8.0, 3.0]);
}

#[test]
fn test_common_f64_inc_sv_case_mail5() {
    let points = vec![1.0, 8.0, 8.0, 8.0, 1.0];
    let mut landscape = Landscape::create(decs(&points));
    let prec = landscape.precision().to_f64().unwrap();
    let result = floats(landscape.rain_uniform(dec(RAIN_DENSITY), true).unwrap());
    compare_f64(&prec, &result, &[3.5, 8.0, 8.0, 8.0, 3.5]);
}

#[test]
fn sv_case_sample_prec0() {
    let points = vec![3.0, 1.0, 6.0, 4.0, 8.0, 9.0];
    let mut landscape = Landscape::create(decs(&points));
    let prec = landscape.precision().to_f64().unwrap();
    let result = floats(landscape.rain_uniform(dec(RAIN_DENSITY), true).unwrap());
    compare_f64(&prec, &result, &[4.0, 4.0, 6.0, 6.0, 8.0, 9.0]);
}

#[test]
fn sv_case_mail2_prec0() {
    let points = vec![8.0, 8.0, 1.0];
    let (prec, result) = restless_levels_at_zero_tolerance(&points);
    compare_f64(&prec, &result, &[8.0, 8.0, 4.0]);
}

#[test]
fn sv_case_mail3_prec0() {
    let points = vec![1.0, 8.0, 8.0, 1.0];
    let (prec, result) = resting_levels_at_zero_tolerance(&points);
    compare_f64(&prec, &result, &[3.0, 8.0, 8.0, 3.0]);
}

#[test]
fn sv_case_mail4_prec0() {
    let points = vec![8.0, 4.0, 8.0, 8.0, 1.0];
    let (prec, result) = resting_levels_at_zero_tolerance(&points);
    compare_f64(&prec, &result, &[8.0, 7.0, 8.0, 8.0, 3.0]);
}

#[test]
fn sv_case_mail5_prec0() {
    let points = vec![1.0, 8.0, 8.0, 8.0, 1.0];
    let (prec, result) = restless_levels_at_zero_tolerance(&points);
    compare_f64(&prec, &result, &[3.5, 8.0, 8.0, 8.0, 3.5]);
}
