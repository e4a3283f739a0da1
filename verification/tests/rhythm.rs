use polyrhythm::rational::Rational;
use polyrhythm::rhythm::{times, NoteDuration, NoteDurationKind, Rhythm, RhythmSegment};
use polyrhythm::time::Duration;
use polyrhythm::units::WholeNotes;

fn q(n: i64, d: i64) -> Rational {
    Rational::new(n, d).unwrap()
}

fn span(n: i64, d: i64) -> Duration<WholeNotes> {
    Duration(WholeNotes(q(n, d)))
}

fn note(kind: NoteDurationKind) -> NoteDuration {
    NoteDuration { kind, dotted: false }
}

fn dotted(kind: NoteDurationKind) -> NoteDuration {
    NoteDuration { kind, dotted: true }
}

fn notes(kind: NoteDurationKind, count: usize) -> Rhythm {
    Rhythm { segments: (0..count).map(|_| RhythmSegment::Note(note(kind))).collect() }
}

#[test]
fn empty_rhythm_lasts_nothing() {
    assert_eq!(Rhythm { segments: vec![] }.duration(), Some(span(0, 1)));
}

#[test]
fn note_and_rest_last_their_note_value() {
    assert_eq!(RhythmSegment::Note(note(NoteDurationKind::Half)).duration(), Some(span(1, 2)));
    assert_eq!(RhythmSegment::Rest(dotted(NoteDurationKind::Eigth)).duration(), Some(span(3, 16)));
}

#[test]
fn tied_note_lasts_the_sum_of_its_values() {
    let tied = RhythmSegment::TiedNote(vec![
        note(NoteDurationKind::Half),
        note(NoteDurationKind::Eigth),
        dotted(NoteDurationKind::Sixteenth),
    ]);
    // 1/2 + 1/8 + 3/32
    assert_eq!(tied.duration(), Some(span(23, 32)));
}

#[test]
fn tuplet_lasts_the_note_value_times_normal() {
    let triplet =
        RhythmSegment::new_tuplet(3, 2, note(NoteDurationKind::Eigth), notes(NoteDurationKind::Eigth, 3))
            .unwrap()
            .ok()
            .unwrap();
    assert_eq!(triplet.duration(), Some(span(1, 4)));
}

#[test]
fn rhythm_duration_is_the_exact_sum_of_its_parts() {
    let r = Rhythm {
        segments: vec![
            RhythmSegment::Note(note(NoteDurationKind::Quarter)),
            RhythmSegment::Rest(note(NoteDurationKind::Nd1024)),
            RhythmSegment::TiedNote(vec![note(NoteDurationKind::Half), note(NoteDurationKind::Nd512)]),
            RhythmSegment::Note(note(NoteDurationKind::Nd1024)),
        ],
    };
    // 1/4 + 1/1024 + 1/2 + 1/512 + 1/1024 = 772/1024 = 193/256
    assert_eq!(r.duration(), Some(span(193, 256)));
}

#[test]
fn many_small_notes_add_up_without_error() {
    assert_eq!(notes(NoteDurationKind::Nd1024, 1024).duration(), Some(span(1, 1)));
    assert_eq!(notes(NoteDurationKind::Nd1024, 3000).duration(), Some(span(375, 128)));
}

#[test]
fn nested_tuplets_keep_the_duration_exact() {
    // three sixteenths in the space of two, inside five eighths in the space of four
    let inner_triplet = RhythmSegment::new_tuplet(
        3,
        2,
        note(NoteDurationKind::Sixteenth),
        notes(NoteDurationKind::Sixteenth, 3),
    )
    .unwrap()
    .ok()
    .unwrap();
    assert_eq!(inner_triplet.duration(), Some(span(1, 8)));
    let mut inner = notes(NoteDurationKind::Eigth, 4);
    inner.segments.push(inner_triplet);
    assert_eq!(inner.duration(), Some(span(5, 8)));
    let quintuplet =
        RhythmSegment::new_tuplet(5, 4, note(NoteDurationKind::Eigth), inner).unwrap().ok().unwrap();
    let r = Rhythm { segments: vec![RhythmSegment::Note(note(NoteDurationKind::Half)), quintuplet] };
    assert_eq!(r.duration(), Some(span(1, 1)));
}

#[test]
fn times_multiplies_the_note_value() {
    assert_eq!(times(note(NoteDurationKind::Eigth), 3), span(3, 8));
    assert_eq!(times(dotted(NoteDurationKind::Quarter), 4), span(3, 2));
    assert_eq!(times(note(NoteDurationKind::Whole), 0), span(0, 1));
    assert_eq!(times(note(NoteDurationKind::Nd1024), u32::MAX), span(4294967295, 1024));
    assert_eq!(times(dotted(NoteDurationKind::Whole), u32::MAX), span(12884901885, 2));
}

#[test]
fn new_tuplet_accepts_a_matching_inner_rhythm() {
    let made =
        RhythmSegment::new_tuplet(3, 2, note(NoteDurationKind::Eigth), notes(NoteDurationKind::Eigth, 3))
            .unwrap();
    match made {
        Ok(RhythmSegment::Tuplet { actual, normal, note_duration, rhythm, .. }) => {
            assert_eq!(actual, 3);
            assert_eq!(normal, 2);
            assert_eq!(note_duration, note(NoteDurationKind::Eigth));
            assert_eq!(rhythm.segments.len(), 3);
            assert_eq!(rhythm.duration(), Some(span(3, 8)));
        }
        _ => panic!("a tuplet was expected"),
    }
}

#[test]
fn new_tuplet_accepts_a_match_written_in_other_values() {
    // a quarter and an eighth last three eighths too
    let inner = Rhythm {
        segments: vec![
            RhythmSegment::Note(note(NoteDurationKind::Quarter)),
            RhythmSegment::Rest(note(NoteDurationKind::Eigth)),
        ],
    };
    assert!(RhythmSegment::new_tuplet(3, 2, note(NoteDurationKind::Eigth), inner).unwrap().is_ok());
    let dotted_inner = Rhythm { segments: vec![RhythmSegment::Note(dotted(NoteDurationKind::Quarter))] };
    assert!(
        RhythmSegment::new_tuplet(3, 2, note(NoteDurationKind::Eigth), dotted_inner).unwrap().is_ok()
    );
}

#[test]
fn new_tuplet_reports_both_durations_on_a_mismatch() {
    let made =
        RhythmSegment::new_tuplet(3, 2, note(NoteDurationKind::Eigth), notes(NoteDurationKind::Eigth, 2))
            .unwrap();
    let mismatch = made.err().unwrap();
    assert_eq!(mismatch.actual, span(1, 4));
    assert_eq!(mismatch.expected, span(3, 8));
}

#[test]
fn new_tuplet_refuses_an_inner_rhythm_that_is_too_long() {
    let made =
        RhythmSegment::new_tuplet(5, 4, note(NoteDurationKind::Sixteenth), notes(NoteDurationKind::Eigth, 5))
            .unwrap();
    let mismatch = made.err().unwrap();
    assert_eq!(mismatch.actual, span(5, 8));
    assert_eq!(mismatch.expected, span(5, 16));
}

#[test]
fn new_tuplet_goes_by_actual_not_by_normal() {
    // two eighths fill the space of the triplet but are not its inner rhythm
    let by_normal =
        RhythmSegment::new_tuplet(3, 2, note(NoteDurationKind::Eigth), notes(NoteDurationKind::Eigth, 2))
            .unwrap();
    assert!(by_normal.is_err());
    let by_actual =
        RhythmSegment::new_tuplet(3, 2, note(NoteDurationKind::Eigth), notes(NoteDurationKind::Eigth, 3))
            .unwrap();
    assert!(by_actual.is_ok());
}

#[test]
fn new_tuplet_of_nothing_takes_an_empty_inner_rhythm() {
    let made = RhythmSegment::new_tuplet(0, 2, note(NoteDurationKind::Eigth), Rhythm { segments: vec![] })
        .unwrap();
    assert!(made.is_ok());
    let not_empty =
        RhythmSegment::new_tuplet(0, 2, note(NoteDurationKind::Eigth), notes(NoteDurationKind::Eigth, 1))
            .unwrap();
    let mismatch = not_empty.err().unwrap();
    assert_eq!(mismatch.actual, span(1, 8));
    assert_eq!(mismatch.expected, span(0, 1));
}
