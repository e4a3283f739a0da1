use polyrhythm::coord::Point;
use polyrhythm::layout::{all_rhythms, flatten_rhythm_to_durations, longest_duration, shortest_duration};
use polyrhythm::parse::{note_kind, RhythmError};
use polyrhythm::polyrhythm::{Polyrhythm, RhythmLine};
use polyrhythm::rational::Rational;
use polyrhythm::rhythm::{
    NoteDuration, NoteDurationKind, Rhythm, RhythmSegment, TupletInnerDurationMismatch,
};
use polyrhythm::time::{Duration, Time};
use polyrhythm::units::{Seconds, Unit, WholeNotes};

fn span(n: i64, d: i64) -> Duration<WholeNotes> {
    Duration(WholeNotes(Rational::new(n, d).unwrap()))
}

fn note(kind: NoteDurationKind) -> NoteDuration {
    NoteDuration { kind, dotted: false }
}

fn notes(kind: NoteDurationKind, count: usize) -> Rhythm {
    Rhythm { segments: (0..count).map(|_| RhythmSegment::Note(note(kind))).collect() }
}

fn tuplet(actual: u32, normal: u32, kind: NoteDurationKind, inner: Rhythm) -> RhythmSegment {
    RhythmSegment::new_tuplet(actual, normal, note(kind), inner).unwrap().ok().unwrap()
}

#[test]
fn point_new_keeps_its_coordinates() {
    let p = Point::new(3, -4);
    assert_eq!(p.x, 3);
    assert_eq!(p.y, -4);
    assert_eq!(p, Point { x: 3, y: -4 });
    let q = Point::new("left", "top");
    assert_eq!(q.x, "left");
    assert_eq!(q.y, "top");
}

#[test]
fn note_kind_names_the_number_it_refuses() {
    assert_eq!(note_kind(16), Ok(NoteDurationKind::Sixteenth));
    assert_eq!(note_kind(1), Ok(NoteDurationKind::Whole));
    assert_eq!(note_kind(3), Err(RhythmError::InvalidNoteDuration(3)));
    assert_eq!(note_kind(0), Err(RhythmError::InvalidNoteDuration(0)));
    assert_eq!(note_kind(2048), Err(RhythmError::InvalidNoteDuration(2048)));
}

#[test]
fn a_mismatch_becomes_a_rhythm_error() {
    let mismatch = TupletInnerDurationMismatch { actual: span(1, 4), expected: span(3, 8) };
    assert_eq!(RhythmError::from(mismatch), RhythmError::TupletInnerDurationMismatch(mismatch));
    let made = RhythmSegment::new_tuplet(3, 2, note(NoteDurationKind::Eigth), notes(NoteDurationKind::Eigth, 2))
        .unwrap();
    let error: RhythmError = made.err().unwrap().into();
    assert_eq!(error, RhythmError::TupletInnerDurationMismatch(mismatch));
}

#[test]
fn named_durations() {
    assert_eq!(Duration::<WholeNotes>::zero(), span(0, 1));
    assert_eq!(Duration::<WholeNotes>::whole_note(), span(1, 1));
    assert_eq!(Duration::<WholeNotes>::half_note(), span(1, 2));
    assert_eq!(Duration::<WholeNotes>::quarter_note(), span(1, 4));
    assert_eq!(Duration::<WholeNotes>::eigth_note(), span(1, 8));
    assert_eq!(Duration::<WholeNotes>::sixteenth_note(), span(1, 16));
    assert_eq!(Duration::<WholeNotes>::thirtysecond_note(), span(1, 32));
    assert_eq!(Duration::<WholeNotes>::sixtyfourth_note(), span(1, 64));
    assert_eq!(Duration::<WholeNotes>::onehundredtwentyeighth_note(), span(1, 128));
    assert_eq!(Duration::<WholeNotes>::of_kind(NoteDurationKind::Nd1024), span(1, 1024));
    assert_eq!(Time::<Seconds>::zero(), Time(Seconds::zero()));
}

#[test]
fn spans_and_points_in_one_unit() {
    let start = Time::<WholeNotes>::zero();
    let later = start.checked_add(span(3, 8)).unwrap();
    assert_eq!(later, Time(WholeNotes(Rational::new(3, 8).unwrap())));
    assert_eq!(later.checked_sub(start), Some(span(3, 8)));
    assert_eq!(start.checked_sub(later), Some(span(-3, 8)));
    assert_eq!(later.elapsed(), span(3, 8));
    assert!(start.lt(&later));
    assert!(later.le(&later));
    assert_eq!(span(1, 2).checked_sub(span(1, 8)), Some(span(3, 8)));
    assert_eq!(span(1, 2).checked_div(Rational::new(4, 1).unwrap()), Some(span(1, 8)));
    assert_eq!(span(1, 2).checked_div(Rational::zero()), None);
    assert!(span(1, 8).lt(&span(1, 4)));
    assert!(span(1, 8).le(&span(1, 8)));
    assert_eq!(span(5, 8).to_ratio(), Rational::new(5, 8).unwrap());
}

#[test]
fn checked_sum_adds_from_the_left() {
    assert_eq!(Duration::<WholeNotes>::checked_sum(&vec![]), Some(span(0, 1)));
    assert_eq!(
        Duration::checked_sum(&vec![span(1, 2), span(1, 3), span(1, 6)]),
        Some(span(1, 1))
    );
    assert_eq!(Duration::checked_sum(&vec![span(i64::MAX, 1), span(1, 1)]), None);
    // a sum that would come back into range is still refused once a step does not fit
    assert_eq!(Duration::checked_sum(&vec![span(i64::MAX, 1), span(1, 1), span(-1, 1)]), None);
}

#[test]
fn sounding_spans_are_scaled_within_tuplets() {
    let r = Rhythm {
        segments: vec![
            RhythmSegment::Note(note(NoteDurationKind::Quarter)),
            RhythmSegment::TiedNote(vec![note(NoteDurationKind::Half), note(NoteDurationKind::Eigth)]),
            tuplet(3, 2, NoteDurationKind::Eigth, notes(NoteDurationKind::Eigth, 3)),
            RhythmSegment::Rest(NoteDuration { kind: NoteDurationKind::Quarter, dotted: true }),
        ],
    };
    assert_eq!(
        flatten_rhythm_to_durations(&r),
        Some(vec![
            span(1, 4),
            span(1, 2),
            span(1, 8),
            span(1, 12),
            span(1, 12),
            span(1, 12),
            span(3, 8),
        ])
    );
}

#[test]
fn sounding_spans_of_nested_tuplets() {
    let mut inner = notes(NoteDurationKind::Eigth, 4);
    inner.segments.push(tuplet(3, 2, NoteDurationKind::Sixteenth, notes(NoteDurationKind::Sixteenth, 3)));
    let r = Rhythm { segments: vec![tuplet(5, 4, NoteDurationKind::Eigth, inner)] };
    // eighths: 1/8 * 4/5; sixteenths: 1/16 * 2/3 * 4/5
    assert_eq!(
        flatten_rhythm_to_durations(&r),
        Some(vec![
            span(1, 10),
            span(1, 10),
            span(1, 10),
            span(1, 10),
            span(1, 30),
            span(1, 30),
            span(1, 30),
        ])
    );
}

#[test]
fn shortest_and_longest_of_some_spans() {
    let spans = vec![span(1, 4), span(1, 12), span(3, 8), span(1, 12), span(1, 10)];
    assert_eq!(shortest_duration(&spans, span(1, 1)), span(1, 12));
    assert_eq!(longest_duration(&spans, span(1, 1)), span(3, 8));
    assert_eq!(shortest_duration(&vec![span(5, 7)], span(1, 1)), span(5, 7));
    assert_eq!(longest_duration(&vec![span(5, 7)], span(1, 1)), span(5, 7));
}

#[test]
fn shortest_and_longest_of_nothing_are_the_fallback() {
    assert_eq!(shortest_duration(&vec![], span(1, 1)), span(1, 1));
    assert_eq!(longest_duration(&vec![], span(2, 1)), span(2, 1));
}

#[test]
fn all_rhythms_come_in_the_order_drawn() {
    let p = Polyrhythm {
        tempo: (note(NoteDurationKind::Quarter), 60),
        pulse: Some(notes(NoteDurationKind::Quarter, 4)),
        rhythms: vec![
            RhythmLine {
                original: notes(NoteDurationKind::Eigth, 1),
                approximations: vec![notes(NoteDurationKind::Eigth, 2), notes(NoteDurationKind::Eigth, 3)],
            },
            RhythmLine { original: notes(NoteDurationKind::Half, 5), approximations: vec![] },
            RhythmLine {
                original: notes(NoteDurationKind::Half, 6),
                approximations: vec![notes(NoteDurationKind::Half, 7)],
            },
        ],
    };
    let lengths: Vec<usize> = all_rhythms(&p).iter().map(|r| r.segments.len()).collect();
    assert_eq!(lengths, vec![4, 1, 2, 3, 5, 6, 7]);
    let no_pulse = Polyrhythm { tempo: p.tempo, pulse: None, rhythms: vec![] };
    assert!(all_rhythms(&no_pulse).is_empty());
}
