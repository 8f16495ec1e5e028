use moneycount::derived::convert;
use moneycount::model::{Column, Entry, Model, Msg};

fn drafted(text: &str, col: Column) -> Msg {
    Msg::Update(String::from(text), col)
}

#[test]
fn column_sum_skips_malformed_descriptions() {
    let mut m = Model::new();
    m.update(drafted("10", Column::Left));
    m.update(Msg::Add);
    m.update(drafted("5", Column::Right));
    m.update(Msg::Add);
    m.update(drafted("abc", Column::Left));
    m.update(Msg::Add);
    assert_eq!(m.get_sum_left(), 10_000_000);
    assert_eq!(m.get_sum_right(), 5_000_000);
}

#[test]
fn entry_count_counts_both_columns() {
    let mut m = Model::new();
    m.update(drafted("1", Column::Left));
    m.update(Msg::Add);
    m.update(drafted("2", Column::Right));
    m.update(Msg::Add);
    assert_eq!(m.get_entry_count(), 2);
}

#[test]
fn convert_left_entry_exact() {
    let e = Entry::new("10", Column::Left, 0);
    let (left, right) = convert(&e, 5_350_000);
    // 10 on the left, 10 * 5.35 = 53.50 on the right.
    assert_eq!(left.round_centi(), 1000);
    assert_eq!(right.round_centi(), 5350);
    assert_eq!(left.num(), 10_000_000);
    assert_eq!(left.den(), 1_000_000);
    assert_eq!(right.num(), 53_500_000_000_000);
    assert_eq!(right.den(), 1_000_000_000_000);
}

#[test]
fn convert_right_entry_exact() {
    let e = Entry::new("53.5", Column::Right, 0);
    let (left, right) = convert(&e, 5_350_000);
    // 53.5 / 5.35 = 10 on the left, 53.50 on the right.
    assert_eq!(left.round_centi(), 1000);
    assert_eq!(right.round_centi(), 5350);
}

#[test]
fn convert_malformed_description_is_zero() {
    let e = Entry::new("abc", Column::Left, 0);
    let (left, right) = convert(&e, 5_350_000);
    assert_eq!(left.round_centi(), 0);
    assert_eq!(right.round_centi(), 0);
}

#[test]
fn convert_round_trip_recovers_amount() {
    // A left amount of 10 shows 53.5 on the right; a right entry worth 53.5
    // under the same rate shows 10 on the left again.
    let left_entry = Entry::new("10", Column::Left, 0);
    let (_, right_value) = convert(&left_entry, 5_350_000);
    let right_entry = Entry::new("53.5", Column::Right, 1);
    let (recovered, native) = convert(&right_entry, 5_350_000);
    assert!(native.same_value(&right_value));
    let (original, _) = convert(&left_entry, 5_350_000);
    assert!(recovered.same_value(&original));
    assert_eq!(recovered.round_centi(), 1000);
}

#[test]
fn end_to_end_totals() {
    let mut m = Model::new();
    assert_eq!(m.rate_micro(), 5_350_000);
    assert_eq!(m.get_entry_count(), 0);
    m.update(drafted("10", Column::Left));
    m.update(Msg::Add);
    m.update(drafted("20", Column::Right));
    m.update(Msg::Add);
    assert_eq!(m.get_entry_count(), 2);
    assert_eq!(m.get_sum_left(), 10_000_000);
    assert_eq!(m.get_sum_right(), 20_000_000);
    let (left_total, right_total) = m.totals().expect("totals fit");
    // right total: 10 * 5.35 + 20 = 73.50 exactly.
    assert_eq!(right_total.round_centi(), 7350);
    // left total: 10 + 20 / 5.35 = 13.7383..., shown as 13.74.
    assert_eq!(left_total.round_centi(), 1374);
    let approx = left_total.num() as f64 / left_total.den() as f64;
    assert!((approx - 13.738).abs() < 0.001);
    assert_eq!(left_total.num(), 73_500_000_000_000);
    assert_eq!(left_total.den(), 5_350_000_000_000);
    assert_eq!(right_total.num(), 73_500_000_000_000);
    assert_eq!(right_total.den(), 1_000_000_000_000);
}

#[test]
fn totals_of_empty_state_are_zero() {
    let m = Model::new();
    let (left_total, right_total) = m.totals().expect("totals fit");
    assert_eq!(left_total.round_centi(), 0);
    assert_eq!(right_total.round_centi(), 0);
}
