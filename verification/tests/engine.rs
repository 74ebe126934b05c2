use bigdecimal::BigDecimal;
use std::str::FromStr;
use sv_challenge::landscape::{Landscape, StabilizeError, PASS_LIMIT};
use sv_challenge::ranking::EvaluationOrder;
use sv_challenge::row::is_taken;
use sv_challenge::solver::Solver;

fn dec(text: &str) -> BigDecimal {
    BigDecimal::from_str(text).unwrap()
}

fn decs(texts: &[&str]) -> Vec<BigDecimal> {
    texts.iter().map(|t| dec(t)).collect()
}

fn waters(landscape: &Landscape) -> Vec<BigDecimal> {
    (0..landscape.len()).map(|i| landscape.water_at(i)).collect()
}

fn sum(values: &[BigDecimal]) -> BigDecimal {
    let mut total = BigDecimal::from(0);
    for v in values {
        total = total + v;
    }
    total
}

#[test]
fn one_pass_moves_half_the_gap() {
    let mut landscape = Landscape::create(decs(&["0", "0"]));
    let result = landscape
        .rain(|i| if i == 0 { dec("4") } else { dec("0") }, true)
        .unwrap()
        .to_vec();
    assert_eq!(result, decs(&["2", "2"]));
    assert_eq!(landscape.passes(), 1);
    assert_eq!(waters(&landscape), decs(&["2", "2"]));
}

#[test]
fn a_share_is_the_water_divided_by_the_targets() {
    let mut landscape = Landscape::create(decs(&["0", "5", "0"]));
    let result = landscape
        .rain(|i| if i == 1 { dec("2") } else { dec("0") }, true)
        .unwrap()
        .to_vec();
    assert_eq!(result, decs(&["1", "5", "1"]));
    assert_eq!(landscape.passes(), 1);
}

#[test]
fn a_transfer_is_capped_at_half_the_gap() {
    let mut landscape = Landscape::create(decs(&["0", "0", "0"]));
    landscape.set_max_passes(1);
    let outcome = landscape
        .rain(|i| if i == 1 { dec("4") } else { dec("0") }, true)
        .map(|levels| levels.to_vec());
    assert_eq!(outcome, Err(StabilizeError::PassLimit));
    assert_eq!(landscape.passes(), 1);
    assert_eq!(waters(&landscape), decs(&["2", "0", "2"]));
    landscape.set_max_passes(2);
    let outcome = landscape.stabilize_water();
    assert_eq!(outcome, Err(StabilizeError::PassLimit));
    assert_eq!(landscape.passes(), 3);
    assert_eq!(waters(&landscape), decs(&["1.5", "1", "1.5"]));
}

#[test]
fn water_below_the_tolerance_stays() {
    let mut landscape = Landscape::create_with_precision(decs(&["0", "0"]), dec("0.5"));
    let result = landscape
        .rain(|i| if i == 0 { dec("0.5") } else { dec("0") }, true)
        .unwrap()
        .to_vec();
    assert_eq!(result, decs(&["0.5", "0"]));
    assert_eq!(landscape.passes(), 0);
}

#[test]
fn a_gap_within_the_tolerance_stays() {
    let mut landscape = Landscape::create_with_precision(decs(&["1", "0.5"]), dec("0.5"));
    let result = landscape
        .rain(|i| if i == 0 { dec("1") } else { dec("1") }, true)
        .unwrap()
        .to_vec();
    assert_eq!(result, decs(&["2", "1.5"]));
    assert_eq!(landscape.passes(), 0);
}

#[test]
fn the_sample_settles_on_exact_levels() {
    let mut landscape = Landscape::create(decs(&["3", "1", "6", "4", "8", "9"]));
    let result = landscape.rain_uniform(dec("1"), true).unwrap().to_vec();
    assert_eq!(
        result,
        decs(&["3.990234375", "3.990234375", "6.009765625", "6.009765625", "8", "9"])
    );
    assert_eq!(landscape.passes(), 16);
}

#[test]
fn rain_steps_conserve_the_water() {
    for order in [EvaluationOrder::Input, EvaluationOrder::HeightDescending] {
        let mut landscape =
            Landscape::create_with_order(decs(&["3", "1", "6", "4", "8", "9"]), dec("0.01"), order);
        for step in 1..=4u32 {
            landscape.rain_uniform(dec("1.5"), false).unwrap();
            let total = sum(&waters(&landscape));
            assert_eq!(total, dec("1.5") * BigDecimal::from(step) * BigDecimal::from(6));
        }
    }
}

#[test]
fn water_is_never_negative() {
    let mut landscape = Landscape::create(decs(&["8", "4", "8", "8", "1"]));
    for _ in 0..3 {
        landscape.rain_uniform(dec("1"), false).unwrap();
        for w in waters(&landscape) {
            assert!(w >= BigDecimal::from(0));
        }
    }
}

#[test]
fn water_is_never_negative_pass_by_pass() {
    let mut landscape = Landscape::create(decs(&["0", "9", "0", "3", "7"]));
    landscape.set_max_passes(1);
    let mut outcome = landscape.rain_uniform(dec("2"), false).map(|_| ());
    let mut rounds = 0;
    while outcome.is_err() && rounds < 1000 {
        for w in waters(&landscape) {
            assert!(w >= BigDecimal::from(0));
        }
        assert_eq!(sum(&waters(&landscape)), dec("10"));
        outcome = landscape.stabilize_water();
        rounds += 1;
    }
    assert_eq!(outcome, Ok(()));
}

#[test]
fn the_potential_falls_with_every_pass() {
    let mut landscape = Landscape::create(decs(&["3", "1", "6", "4", "8", "9"]));
    landscape.set_max_passes(1);
    let lbound = landscape.calc_state_lbound();
    assert_eq!(lbound, dec("207"));
    let mut outcome = landscape.rain_uniform(dec("1"), false).map(|_| ());
    let mut state = landscape.calc_state();
    let mut rounds = 0;
    while outcome.is_err() && rounds < 1000 {
        let made = landscape.passes();
        outcome = landscape.stabilize_water();
        let new_state = landscape.calc_state();
        if landscape.passes() > made {
            assert!(new_state < state);
        } else {
            assert_eq!(new_state, state);
        }
        assert!(new_state >= lbound);
        state = new_state;
        rounds += 1;
    }
    assert_eq!(outcome, Ok(()));
    assert_eq!(landscape.passes(), 16);
}

#[test]
fn the_potential_is_the_sum_of_the_squared_levels() {
    let mut landscape = Landscape::create(decs(&["1.5", "2"]));
    assert_eq!(landscape.calc_state(), dec("6.25"));
    assert_eq!(landscape.calc_state_lbound(), dec("6.25"));
    landscape.rain(|i| if i == 1 { dec("0.5") } else { dec("0") }, false).unwrap();
    assert_eq!(waters(&landscape), decs(&["0.5", "0"]));
    assert_eq!(landscape.calc_state(), dec("8"));
    landscape.rain(|i| if i == 0 { dec("0.5") } else { dec("0") }, false).unwrap();
    assert_eq!(waters(&landscape), decs(&["0.75", "0.25"]));
    assert_eq!(landscape.calc_state(), dec("10.125"));
    assert_eq!(landscape.calc_state_lbound(), dec("6.25"));
}

#[test]
fn both_orders_give_the_same_levels() {
    let heights = ["3", "1", "6", "4", "8", "9", "2", "2", "7", "0.5"];
    let mut by_input =
        Landscape::create_with_order(decs(&heights), dec("0.01"), EvaluationOrder::Input);
    let mut by_height = Landscape::create_with_order(
        decs(&heights),
        dec("0.01"),
        EvaluationOrder::HeightDescending,
    );
    for _ in 0..3 {
        let left = by_input.rain_uniform(dec("1"), true).unwrap().to_vec();
        let right = by_height.rain_uniform(dec("1"), true).unwrap().to_vec();
        assert_eq!(left, right);
        assert_eq!(by_input.passes(), by_height.passes());
    }
}

#[test]
fn a_stable_landscape_is_left_alone() {
    let mut landscape = Landscape::create(decs(&["1", "8", "8", "1"]));
    assert_eq!(landscape.stabilize_water(), Ok(()));
    assert_eq!(landscape.passes(), 0);
    landscape.rain_uniform(dec("1"), false).unwrap();
    let made = landscape.passes();
    let before = waters(&landscape);
    assert_eq!(landscape.stabilize_water(), Ok(()));
    assert_eq!(landscape.passes(), made);
    assert_eq!(waters(&landscape), before);
    let levels = landscape.rain_uniform(dec("0"), true).unwrap().to_vec();
    assert_eq!(levels, decs(&["3", "8", "8", "3"]));
    assert_eq!(landscape.passes(), made);
}

#[test]
fn the_pass_limit_ends_a_run_that_does_not_rest() {
    let mut landscape = Landscape::create_with_precision(decs(&["8", "8", "1"]), dec("0"));
    landscape.set_max_passes(60);
    let outcome = landscape.rain_uniform(dec("1"), true).map(|levels| levels.to_vec());
    assert_eq!(outcome, Err(StabilizeError::PassLimit));
    assert_eq!(landscape.passes(), 60);
    assert_eq!(sum(&waters(&landscape)), dec("3"));
    let expected = decs(&["0", "0", "3"]);
    for (w, e) in waters(&landscape).iter().zip(expected.iter()) {
        assert!((w - e).abs() < dec("0.000001"));
    }
}

#[test]
fn a_run_rests_within_its_passes_where_the_tolerance_is_positive() {
    let mut landscape = Landscape::create_with_precision(decs(&["8", "8", "1"]), dec("0.001"));
    let levels = landscape.rain_uniform(dec("1"), true).unwrap().to_vec();
    assert!(landscape.passes() < 4000 * 20);
    for (l, e) in levels.iter().zip(decs(&["8", "8", "4"]).iter()) {
        assert!((l - e).abs() <= dec("0.003"));
    }
}

#[test]
fn the_monitor_changes_nothing() {
    let mut plain = Landscape::create(decs(&["8", "4", "8", "8", "1"]));
    let mut watched = Landscape::create(decs(&["8", "4", "8", "8", "1"]));
    watched.set_monitor(true);
    for _ in 0..3 {
        let left = plain.rain_uniform(dec("1"), true).unwrap().to_vec();
        let right = watched.rain_uniform(dec("1"), true).unwrap().to_vec();
        assert_eq!(left, right);
        assert_eq!(plain.passes(), watched.passes());
    }
}

#[test]
fn without_a_result_an_empty_row_comes_back() {
    let mut landscape = Landscape::create(decs(&["8", "8", "1"]));
    let result = landscape.rain_uniform(dec("1"), false).unwrap().to_vec();
    assert!(result.is_empty());
    assert_eq!(sum(&waters(&landscape)), dec("3"));
}

#[test]
fn an_empty_landscape_and_a_single_point() {
    let mut empty = Landscape::create(Vec::new());
    assert_eq!(empty.len(), 0);
    assert!(empty.rain_uniform(dec("1"), true).unwrap().is_empty());
    let mut single = Landscape::create(decs(&["5"]));
    assert_eq!(single.rain_uniform(dec("1"), true).unwrap().to_vec(), decs(&["6"]));
    assert_eq!(single.passes(), 0);
}

#[test]
fn the_tolerance_is_one_hundredth_unless_given() {
    let landscape = Landscape::create(decs(&["1"]));
    assert_eq!(landscape.precision(), dec("0.01"));
    let other = Landscape::create_with_precision(decs(&["1"]), dec("0.5"));
    assert_eq!(other.precision(), dec("0.5"));
    assert_eq!(landscape.passes(), 0);
    assert!(PASS_LIMIT > 1_000_000_000);
}

#[test]
fn rain_falls_by_index() {
    let mut landscape = Landscape::create_with_precision(decs(&["0", "10", "20"]), dec("100"));
    let levels = landscape.rain(|i| BigDecimal::from(i as u64 + 1), true).unwrap().to_vec();
    assert_eq!(levels, decs(&["1", "12", "23"]));
    assert_eq!(waters(&landscape), decs(&["1", "2", "3"]));
}

#[test]
fn results_come_in_the_order_of_the_points() {
    let mut landscape = Landscape::create(decs(&["9", "1", "5"]));
    let levels = landscape.rain_uniform(dec("0"), true).unwrap().to_vec();
    assert_eq!(levels, decs(&["9", "1", "5"]));
}

fn step<S: Solver<PointHeight = BigDecimal>>(solver: &mut S) -> Vec<BigDecimal> {
    Solver::rain_uniform(solver, BigDecimal::from(1), true).unwrap().to_vec()
}

#[test]
fn a_landscape_is_a_solver() {
    let mut landscape = Landscape::create(decs(&["1", "8", "8", "8", "1"]));
    assert_eq!(Solver::precision(&landscape), dec("0.01"));
    let levels = step(&mut landscape);
    for (l, e) in levels.iter().zip(decs(&["3.5", "8", "8", "8", "3.5"]).iter()) {
        assert!((l - e).abs() <= dec("0.05"));
    }
    let through_rain =
        Solver::rain(&mut landscape, |_| BigDecimal::from(0), false).unwrap().to_vec();
    assert!(through_rain.is_empty());
}

#[test]
fn heights_that_cannot_be_taken_are_refused() {
    let order = EvaluationOrder::HeightDescending;
    assert!(Landscape::try_create(decs(&["1", "2"]), dec("0.01"), order).is_some());
    assert!(Landscape::try_create(decs(&["1", "-2"]), dec("0.01"), order).is_none());
    assert!(Landscape::try_create(decs(&["1", "2"]), dec("-1"), order).is_none());
    assert!(Landscape::try_create(Vec::new(), dec("0"), EvaluationOrder::Input).is_some());
    assert!(is_taken(&dec("0")));
    assert!(is_taken(&dec("12.5")));
    assert!(!is_taken(&dec("-12.5")));
}

#[test]
fn rain_that_cannot_be_taken_is_refused() {
    let mut landscape = Landscape::create(decs(&["8", "8", "1"]));
    assert!(landscape.try_rain_uniform(dec("-1"), true).is_none());
    assert_eq!(waters(&landscape), decs(&["0", "0", "0"]));
    assert_eq!(landscape.passes(), 0);
    let levels = landscape.try_rain_uniform(dec("1"), true).unwrap().unwrap().to_vec();
    assert_eq!(levels.len(), 3);
    assert_eq!(sum(&waters(&landscape)), dec("3"));
}

#[test]
fn a_row_turned_round_gives_the_levels_turned_round() {
    let heights = ["3", "1", "6", "4", "8", "9", "2"];
    let mut turned_round: Vec<&str> = heights.to_vec();
    turned_round.reverse();
    let mut forward = Landscape::create(decs(&heights));
    let mut backward = Landscape::create(decs(&turned_round));
    for _ in 0..3 {
        let left = forward.rain_uniform(dec("1"), true).unwrap().to_vec();
        let mut right = backward.rain_uniform(dec("1"), true).unwrap().to_vec();
        right.reverse();
        assert_eq!(left, right);
        assert_eq!(forward.passes(), backward.passes());
    }
}

#[test]
fn no_level_leaves_the_range_of_the_levels_after_the_rain() {
    let mut landscape = Landscape::create(decs(&["3", "1", "6", "4", "8", "9"]));
    let levels = landscape.rain_uniform(dec("1"), true).unwrap().to_vec();
    for level in &levels {
        assert!(*level >= dec("2"));
        assert!(*level <= dec("10"));
    }
}

#[test]
fn a_dry_landscape_has_the_potential_of_its_ground() {
    let mut landscape = Landscape::create(decs(&["3", "1", "6"]));
    assert_eq!(landscape.calc_state(), landscape.calc_state_lbound());
    landscape.rain_uniform(dec("0"), false).unwrap();
    assert_eq!(landscape.calc_state(), landscape.calc_state_lbound());
    landscape.rain_uniform(dec("0.5"), false).unwrap();
    assert!(landscape.calc_state() > landscape.calc_state_lbound());
}

#[test]
fn the_tolerance_handed_back_can_be_taken() {
    let landscape = Landscape::create_with_precision(decs(&["3", "1"]), dec("0.125"));
    assert!(is_taken(&landscape.precision()));
    assert_eq!(landscape.precision(), dec("0.125"));
}
