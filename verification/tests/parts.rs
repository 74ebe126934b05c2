use bigdecimal::num_bigint::BigInt;
use bigdecimal::BigDecimal;
use std::str::FromStr;
use sv_challenge::decimal::{is_admissible, is_non_negative, INPUT_SCALE};
use sv_challenge::landscape::Landscape;
use sv_challenge::monitor::{check_progress, Violation};
use sv_challenge::point::Point;
use sv_challenge::ranking::{height_descending_order, input_order};
use sv_challenge::tolerance::compare;
use sv_challenge::topology::Iter1D;

fn dec(text: &str) -> BigDecimal {
    BigDecimal::from_str(text).unwrap()
}

fn decs(texts: &[&str]) -> Vec<BigDecimal> {
    texts.iter().map(|t| dec(t)).collect()
}

fn walk(idx: usize, max: usize) -> Vec<usize> {
    let mut it = Iter1D::new(idx, max);
    let mut seen = Vec::new();
    while let Some(n) = it.next() {
        seen.push(n);
    }
    assert_eq!(it.next(), None);
    seen
}

#[test]
fn neighbours_in_a_chain() {
    assert_eq!(walk(0, 1), Vec::<usize>::new());
    assert_eq!(walk(0, 2), vec![1]);
    assert_eq!(walk(1, 2), vec![0]);
    assert_eq!(walk(0, 5), vec![1]);
    assert_eq!(walk(2, 5), vec![1, 3]);
    assert_eq!(walk(4, 5), vec![3]);
}

#[test]
fn neighbours_of_a_landscape() {
    let landscape = Landscape::create(decs(&["1", "2", "3"]));
    let mut it = landscape.neighbors(1);
    assert_eq!(it.next(), Some(0));
    assert_eq!(it.next(), Some(2));
    assert_eq!(it.next(), None);
    let mut it = landscape.neighbors(2);
    assert_eq!(it.next(), Some(1));
    assert_eq!(it.next(), None);
}

#[test]
fn a_point_holds_ground_and_water() {
    let mut point = Point::with_height(dec("3.5"));
    assert_eq!(point.get_height(), dec("3.5"));
    assert_eq!(point.water(), dec("0"));
    point.rain(dec("1.25"));
    assert_eq!(point.get_height(), dec("4.75"));
    assert_eq!(point.water(), dec("1.25"));
    assert_eq!(point.ground(), dec("3.5"));
    point.rain(dec("0.75"));
    assert_eq!(point.water(), dec("2"));
}

#[test]
fn the_input_order_counts_up() {
    assert_eq!(input_order(0), Vec::<usize>::new());
    assert_eq!(input_order(4), vec![0, 1, 2, 3]);
}

#[test]
fn high_ground_comes_first() {
    let order = height_descending_order(&decs(&["3", "1", "6", "4", "8", "9"]));
    assert_eq!(order, vec![5, 4, 2, 3, 0, 1]);
    assert_eq!(height_descending_order(&Vec::new()), Vec::<usize>::new());
    assert_eq!(height_descending_order(&decs(&["7"])), vec![0]);
}

#[test]
fn equal_ground_keeps_its_order() {
    assert_eq!(height_descending_order(&decs(&["8", "8", "1"])), vec![0, 1, 2]);
    assert_eq!(
        height_descending_order(&decs(&["1", "8", "8.0", "8.00", "1"])),
        vec![1, 2, 3, 0, 4]
    );
    assert_eq!(height_descending_order(&decs(&["2", "2", "2"])), vec![0, 1, 2]);
    assert_eq!(height_descending_order(&decs(&["1", "2", "3", "4"])), vec![3, 2, 1, 0]);
}

#[test]
fn the_monitor_names_the_first_fault() {
    let ok = check_progress(&dec("10"), &dec("9"), &dec("5"));
    assert_eq!(ok, Ok(()));
    assert_eq!(check_progress(&dec("10"), &dec("5"), &dec("5")), Ok(()));
    assert_eq!(
        check_progress(&dec("4"), &dec("3"), &dec("5")),
        Err(Violation::StartBelowGround)
    );
    assert_eq!(check_progress(&dec("10"), &dec("4.9"), &dec("5")), Err(Violation::BelowGround));
    assert_eq!(check_progress(&dec("10"), &dec("10.1"), &dec("5")), Err(Violation::Rose));
    assert_eq!(check_progress(&dec("10"), &dec("10.0"), &dec("5")), Err(Violation::Stalled));
}

#[test]
fn rows_agree_within_the_tolerance_times_their_length() {
    let prec = dec("0.01");
    assert!(compare(&prec, &decs(&["1", "2"]), &decs(&["1.02", "2"])));
    assert!(compare(&prec, &decs(&["1", "2"]), &decs(&["0.98", "2.02"])));
    assert!(!compare(&prec, &decs(&["1", "2"]), &decs(&["1.03", "2"])));
    assert!(!compare(&prec, &decs(&["1", "2"]), &decs(&["1", "1.97"])));
    assert!(compare(&prec, &[], &[]));
    let one = dec("1");
    assert!(compare(&one, &decs(&["1", "2", "3"]), &decs(&["4", "2", "0"])));
    assert!(!compare(&one, &decs(&["1", "2", "3"]), &decs(&["4.5", "2", "3"])));
}

#[test]
fn rows_must_be_equal_where_the_tolerance_is_zero() {
    let zero = dec("0");
    assert!(compare(&zero, &decs(&["1", "2.50"]), &decs(&["1.0", "2.5"])));
    assert!(!compare(&zero, &decs(&["1", "2.5"]), &decs(&["1", "2.5000001"])));
}

#[test]
fn scales_beyond_the_limit_are_refused() {
    let one = BigInt::from(1);
    assert!(is_admissible(&dec("3.25")));
    assert!(is_admissible(&BigDecimal::new(one.clone(), INPUT_SCALE)));
    assert!(is_admissible(&BigDecimal::new(one.clone(), -INPUT_SCALE)));
    assert!(!is_admissible(&BigDecimal::new(one.clone(), INPUT_SCALE + 1)));
    assert!(!is_admissible(&BigDecimal::new(one, -INPUT_SCALE - 1)));
    assert_eq!(INPUT_SCALE, 1i64 << 58);
}

#[test]
fn the_sign_of_a_decimal() {
    assert!(is_non_negative(&dec("0")));
    assert!(is_non_negative(&dec("0.001")));
    assert!(!is_non_negative(&dec("-0.001")));
}

#[test]
fn decimals_of_different_scales_are_ordered_by_value() {
    let just_above_one = BigDecimal::new(BigInt::from(10).pow(40u32) + 1, 40);
    let just_below_one = BigDecimal::new(BigInt::from(10).pow(40u32) - 1, 40);
    let one = dec("1");
    let heights = vec![one.clone(), just_above_one.clone(), just_below_one.clone()];
    assert_eq!(height_descending_order(&heights), vec![1, 0, 2]);
    assert_eq!(check_progress(&just_above_one, &one, &just_below_one), Ok(()));
    assert_eq!(check_progress(&one, &just_above_one, &just_below_one), Err(Violation::Rose));
    assert_eq!(
        check_progress(&just_above_one, &just_below_one, &one),
        Err(Violation::BelowGround)
    );
    assert!(!compare(&dec("0"), &[just_above_one.clone()], &[one.clone()]));
    assert!(compare(&dec("0.1"), &[just_above_one], &[one]));
    assert!(!is_non_negative(&(just_below_one - dec("1"))));
}
