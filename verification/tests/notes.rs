use polyrhythm::notation::Notehead;
use polyrhythm::rational::Rational;
use polyrhythm::rhythm::{NoteDuration, NoteDurationKind};
use polyrhythm::time::Duration;
use polyrhythm::units::WholeNotes;

fn q(n: i64, d: i64) -> Rational {
    Rational::new(n, d).unwrap()
}

const KINDS: [(u32, NoteDurationKind); 11] = [
    (1, NoteDurationKind::Whole),
    (2, NoteDurationKind::Half),
    (4, NoteDurationKind::Quarter),
    (8, NoteDurationKind::Eigth),
    (16, NoteDurationKind::Sixteenth),
    (32, NoteDurationKind::Nd32),
    (64, NoteDurationKind::Nd64),
    (128, NoteDurationKind::Nd128),
    (256, NoteDurationKind::Nd256),
    (512, NoteDurationKind::Nd512),
    (1024, NoteDurationKind::Nd1024),
];

#[test]
fn from_number_takes_the_powers_of_two_up_to_1024() {
    for (number, kind) in KINDS {
        assert_eq!(NoteDurationKind::from_number(number), Some(kind));
    }
}

#[test]
fn from_number_refuses_everything_else() {
    for number in [0u32, 3, 5, 6, 7, 9, 12, 24, 100, 1000, 1023, 1025, 2048, 4096, u32::MAX] {
        assert_eq!(NoteDurationKind::from_number(number), None);
    }
    let taken = (0u32..5000).filter(|n| NoteDurationKind::from_number(*n).is_some()).count();
    assert_eq!(taken, 11);
}

#[test]
fn to_ratio_is_one_over_the_number() {
    for (number, kind) in KINDS {
        assert_eq!(kind.to_ratio(), q(1, number as i64));
    }
}

#[test]
fn to_ratio_halves_from_kind_to_kind() {
    for pair in KINDS.windows(2) {
        let longer = pair[0].1.to_ratio();
        let shorter = pair[1].1.to_ratio();
        assert!(shorter.lt(&longer));
        assert_eq!(shorter.checked_mul(q(2, 1)), Some(longer));
    }
}

#[test]
fn plain_duration_is_the_kinds_ratio() {
    for (number, kind) in KINDS {
        let d = NoteDuration { kind, dotted: false }.to_duration();
        assert_eq!(d, Duration(WholeNotes(q(1, number as i64))));
    }
}

#[test]
fn dotted_quarter_is_three_eighths() {
    let d = NoteDuration { kind: NoteDurationKind::Quarter, dotted: true }.to_duration();
    assert_eq!(d, Duration(WholeNotes(q(3, 8))));
    assert_eq!(d.to_ratio().numer(), 3);
    assert_eq!(d.to_ratio().denom(), 8);
}

#[test]
fn dotted_duration_is_three_halves_of_the_plain_one() {
    for (number, kind) in KINDS {
        let plain = NoteDuration { kind, dotted: false }.to_duration();
        let dotted = NoteDuration { kind, dotted: true }.to_duration();
        assert_eq!(dotted, Duration(WholeNotes(q(3, 2 * number as i64))));
        assert_eq!(plain.checked_mul(q(3, 2)), Some(dotted));
    }
    let whole = NoteDuration { kind: NoteDurationKind::Whole, dotted: true }.to_duration();
    assert_eq!(whole, Duration(WholeNotes(q(3, 2))));
    let last = NoteDuration { kind: NoteDurationKind::Nd1024, dotted: true }.to_duration();
    assert_eq!(last, Duration(WholeNotes(q(3, 2048))));
}

#[test]
fn noteheads_and_flags_by_kind() {
    assert_eq!(NoteDurationKind::Whole.notehead(), Notehead::Whole);
    assert_eq!(NoteDurationKind::Half.notehead(), Notehead::Half);
    assert_eq!(NoteDurationKind::Quarter.notehead(), Notehead::Black);
    assert_eq!(NoteDurationKind::Nd1024.notehead(), Notehead::Black);
    let flags: Vec<u8> = KINDS.iter().map(|(_, kind)| kind.flags()).collect();
    assert_eq!(flags, vec![0, 0, 0, 1, 2, 3, 4, 5, 6, 7, 8]);
}
