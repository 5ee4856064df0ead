use driver::amount::Amount;
use driver::solution::{Error, Id, Score};

#[test]
fn saturating_add_carries_between_halves() {
    let a = Amount { hi: 0, lo: u128::MAX };
    let r = a.saturating_add(Amount::from_u128(1));
    assert_eq!(r, Amount { hi: 1, lo: 0 });
}

#[test]
fn saturating_add_stops_at_max() {
    let r = Amount::max_value().saturating_add(Amount::from_u128(1));
    assert_eq!(r, Amount::max_value());
    let r = Amount { hi: u128::MAX, lo: 1 }.saturating_add(Amount { hi: 0, lo: u128::MAX });
    assert_eq!(r, Amount::max_value());
}

#[test]
fn less_than_compares_high_half_first() {
    assert!(Amount { hi: 0, lo: u128::MAX }.less_than(&Amount { hi: 1, lo: 0 }));
    assert!(!Amount { hi: 1, lo: 0 }.less_than(&Amount { hi: 0, lo: u128::MAX }));
    assert!(!Amount::zero().less_than(&Amount::zero()));
}

#[test]
fn id_to_bytes_is_big_endian() {
    assert_eq!(Id(0x0102_0304).to_bytes(), [1, 2, 3, 4]);
    assert_eq!(Id(u32::MAX).to_bytes(), [0xff; 4]);
    let id = Id::random();
    assert_eq!(id.to_bytes(), id.0.to_be_bytes());
}

#[test]
fn error_messages_name_the_failing_part() {
    assert_eq!(Error::Solver("timeout".to_string()).message(), "solver error: timeout");
    assert_eq!(Error::Simulation("revert".to_string()).message(), "simulation error: revert");
    assert_eq!(Error::Blockchain("x".to_string()).message(), "blockchain error: x");
    assert_eq!(Error::Boundary("y".to_string()).message(), "boundary error: y");
}

#[test]
fn score_wraps_a_rational() {
    let r = num::BigRational::new(3.into(), 4.into());
    let s: Score = r.clone().into();
    assert_eq!(s.0, r);
    assert!(Score::from(num::BigRational::new(1.into(), 2.into())) < s);
}
