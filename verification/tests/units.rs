use polyrhythm::rational::Rational;
use polyrhythm::units::{Seconds, Unit, WholeNotes};

fn q(n: i64, d: i64) -> Rational {
    Rational::new(n, d).unwrap()
}

#[test]
fn units_have_a_zero() {
    assert_eq!(WholeNotes::zero(), WholeNotes(q(0, 1)));
    assert_eq!(Seconds::zero(), Seconds(q(0, 1)));
    assert_eq!(WholeNotes(q(3, 8)).checked_add(WholeNotes::zero()), Some(WholeNotes(q(3, 8))));
}

#[test]
fn whole_notes_add_and_subtract_exactly() {
    let a = WholeNotes(q(1, 4));
    let b = WholeNotes(q(1, 6));
    assert_eq!(a.checked_add(b), Some(WholeNotes(q(5, 12))));
    assert_eq!(b.checked_add(a), Some(WholeNotes(q(5, 12))));
    assert_eq!(a.checked_sub(b), Some(WholeNotes(q(1, 12))));
    assert_eq!(b.checked_sub(a), Some(WholeNotes(q(-1, 12))));
    assert_eq!(a.checked_sub(a), Some(WholeNotes::zero()));
}

#[test]
fn seconds_scale_by_a_ratio() {
    let s = Seconds(q(3, 2));
    assert_eq!(s.checked_mul(q(50, 1)), Some(Seconds(q(75, 1))));
    assert_eq!(s.checked_mul(q(2, 3)), Some(Seconds(q(1, 1))));
    assert_eq!(s.checked_div(q(3, 1)), Some(Seconds(q(1, 2))));
    assert_eq!(s.checked_div(q(0, 1)), None);
    assert_eq!(s.checked_mul(q(0, 1)), Some(Seconds::zero()));
}

#[test]
fn scaling_distributes_over_addition() {
    let a = WholeNotes(q(1, 3));
    let b = WholeNotes(q(5, 8));
    let k = q(7, 9);
    let scaled_sum = a.checked_add(b).unwrap().checked_mul(k).unwrap();
    let sum_of_scaled = a.checked_mul(k).unwrap().checked_add(b.checked_mul(k).unwrap()).unwrap();
    assert_eq!(scaled_sum, sum_of_scaled);
    assert_eq!(scaled_sum, WholeNotes(q(161, 216)));
}

#[test]
fn addition_is_associative() {
    let a = Seconds(q(1, 3));
    let b = Seconds(q(1, 5));
    let c = Seconds(q(1, 7));
    let left = a.checked_add(b).unwrap().checked_add(c).unwrap();
    let right = a.checked_add(b.checked_add(c).unwrap()).unwrap();
    assert_eq!(left, right);
    assert_eq!(left, Seconds(q(71, 105)));
}

#[test]
fn units_are_ordered_by_value() {
    assert!(WholeNotes(q(1, 3)).lt(&WholeNotes(q(1, 2))));
    assert!(!WholeNotes(q(1, 2)).lt(&WholeNotes(q(1, 2))));
    assert!(WholeNotes(q(1, 2)).le(&WholeNotes(q(1, 2))));
    assert!(Seconds(q(-1, 2)).lt(&Seconds(q(0, 1))));
    assert!(!Seconds(q(2, 3)).le(&Seconds(q(3, 5))));
}

#[test]
fn units_refuse_what_does_not_fit() {
    let big = WholeNotes(q(i64::MAX, 1));
    assert_eq!(big.checked_add(WholeNotes(q(1, 1))), None);
    assert_eq!(big.checked_mul(q(2, 1)), None);
    assert_eq!(big.checked_sub(WholeNotes(q(-1, 1))), None);
}

#[test]
fn a_unit_gives_and_takes_its_ratio() {
    assert_eq!(WholeNotes(q(3, 8)).to_ratio(), q(3, 8));
    assert_eq!(Seconds::from_ratio(q(7, 2)), Seconds(q(7, 2)));
    assert_eq!(WholeNotes::from_ratio(q(7, 2)).to_ratio(), q(7, 2));
}
