use polyrhythm::polyrhythm::{
    flatten_to_marks, pair_error, penalised, score_error, score_marks, EventKind, Mark,
};
use polyrhythm::rational::Rational;
use polyrhythm::rhythm::{NoteDuration, NoteDurationKind, Rhythm, RhythmSegment};
use polyrhythm::time::{Duration, Time};
use polyrhythm::units::{calculate_duration_multiplier, Seconds, Unit, WholeNotes};

fn q(n: i64, d: i64) -> Rational {
    Rational::new(n, d).unwrap()
}

fn seconds(n: i64, d: i64) -> Seconds {
    Seconds(q(n, d))
}

fn note(kind: NoteDurationKind) -> NoteDuration {
    NoteDuration { kind, dotted: false }
}

fn notes(kind: NoteDurationKind, count: usize) -> Rhythm {
    Rhythm { segments: (0..count).map(|_| RhythmSegment::Note(note(kind))).collect() }
}

fn start(n: i64, d: i64) -> Mark {
    Mark { time: Time(WholeNotes(q(n, d))), kind: EventKind::Start }
}

fn stop(n: i64, d: i64) -> Mark {
    Mark { time: Time(WholeNotes(q(n, d))), kind: EventKind::Stop }
}

fn quarter_at(bpm: u32) -> (NoteDuration, u32) {
    (note(NoteDurationKind::Quarter), bpm)
}

#[test]
fn a_whole_note_at_sixty_quarters_a_minute_lasts_four_seconds() {
    let tempo = quarter_at(60);
    assert_eq!(WholeNotes(q(1, 1)).to_seconds(tempo), Some(seconds(4, 1)));
    assert_eq!(Duration(WholeNotes(q(1, 1))).to_seconds(tempo), Some(Duration(seconds(4, 1))));
    assert_eq!(Time(WholeNotes(q(1, 1))).to_seconds(tempo), Some(Time(seconds(4, 1))));
    assert_eq!(calculate_duration_multiplier(tempo), Some(q(4, 1)));
}

#[test]
fn tempo_factor_is_sixty_over_beat_times_beats_per_minute() {
    assert_eq!(calculate_duration_multiplier(quarter_at(120)), Some(q(2, 1)));
    assert_eq!(calculate_duration_multiplier(quarter_at(90)), Some(q(8, 3)));
    assert_eq!(calculate_duration_multiplier((note(NoteDurationKind::Half), 60)), Some(q(2, 1)));
    let dotted_quarter = NoteDuration { kind: NoteDurationKind::Quarter, dotted: true };
    // 60 / (3/8 * 80) = 2
    assert_eq!(calculate_duration_multiplier((dotted_quarter, 80)), Some(q(2, 1)));
    assert_eq!(calculate_duration_multiplier((note(NoteDurationKind::Nd1024), 1)), Some(q(61440, 1)));
    assert_eq!(
        calculate_duration_multiplier((note(NoteDurationKind::Whole), u32::MAX)),
        Some(q(4, 286331153))
    );
}

#[test]
fn conversion_is_exact_for_awkward_tempos() {
    // 7/12 of a whole note at 90 quarters a minute: 7/12 * 8/3
    assert_eq!(WholeNotes(q(7, 12)).to_seconds(quarter_at(90)), Some(seconds(14, 9)));
    assert_eq!(WholeNotes(q(0, 1)).to_seconds(quarter_at(90)), Some(seconds(0, 1)));
}

#[test]
fn no_tempo_at_zero_beats_per_minute() {
    assert_eq!(calculate_duration_multiplier(quarter_at(0)), None);
    assert_eq!(WholeNotes(q(1, 1)).to_seconds(quarter_at(0)), None);
    let r = notes(NoteDurationKind::Quarter, 2);
    assert_eq!(score_error(quarter_at(0), &r, &r), None);
}

#[test]
fn seconds_have_an_absolute_value() {
    assert_eq!(seconds(-7, 3).abs(), seconds(7, 3));
    assert_eq!(seconds(7, 3).abs(), seconds(7, 3));
    assert_eq!(Seconds::zero().abs(), Seconds::zero());
}

#[test]
fn a_rhythm_scores_zero_against_itself() {
    let triplet = RhythmSegment::new_tuplet(
        3,
        2,
        note(NoteDurationKind::Eigth),
        notes(NoteDurationKind::Eigth, 3),
    )
    .unwrap()
    .ok()
    .unwrap();
    let r = Rhythm {
        segments: vec![
            RhythmSegment::Note(note(NoteDurationKind::Quarter)),
            RhythmSegment::Rest(NoteDuration { kind: NoteDurationKind::Eigth, dotted: true }),
            triplet,
            RhythmSegment::TiedNote(vec![note(NoteDurationKind::Half), note(NoteDurationKind::Nd64)]),
        ],
    };
    for bpm in [1u32, 60, 97, 120, 240] {
        assert_eq!(score_error(quarter_at(bpm), &r, &r), Some(Seconds::zero()));
    }
    let empty = Rhythm { segments: vec![] };
    assert_eq!(score_error(quarter_at(60), &empty, &empty), Some(Seconds::zero()));
}

#[test]
fn timing_offsets_add_up_in_seconds() {
    // marks at 0, 1/4, 1/2 against 0, 1/8, 3/4: gaps 0, 1/8, 1/4 of a whole note
    let original = notes(NoteDurationKind::Quarter, 3);
    let approx = Rhythm {
        segments: vec![
            RhythmSegment::Note(note(NoteDurationKind::Eigth)),
            RhythmSegment::Note(NoteDuration { kind: NoteDurationKind::Half, dotted: false }),
            RhythmSegment::Note(note(NoteDurationKind::Eigth)),
        ],
    };
    // approx marks: 0, 1/8, 5/8: gaps 0, 1/8, 1/8 -> 1/4 whole note -> one second at 60
    assert_eq!(score_error(quarter_at(60), &original, &approx), Some(seconds(1, 1)));
    assert_eq!(score_error(quarter_at(60), &approx, &original), Some(seconds(1, 1)));
    assert_eq!(score_error(quarter_at(120), &original, &approx), Some(seconds(1, 2)));
}

#[test]
fn a_missing_event_costs_a_hundred_seconds_times_a_hundred() {
    let original = notes(NoteDurationKind::Quarter, 4);
    let approx = notes(NoteDurationKind::Quarter, 3);
    assert_eq!(flatten_to_marks(&original).unwrap().len(), 4);
    assert_eq!(flatten_to_marks(&approx).unwrap().len(), 3);
    // the three pairs agree: (0 + 100) * 100
    assert_eq!(score_error(quarter_at(60), &original, &approx), Some(seconds(10000, 1)));
    assert_eq!(score_error(quarter_at(60), &approx, &original), Some(seconds(10000, 1)));
}

#[test]
fn the_length_penalty_comes_on_top_of_the_pairs() {
    // original 0, 1/4, 1/2, 3/4; approx 0, 1/2, 3/4: gaps 0, 1/4, 1/4 -> 2 s at 60
    let original = notes(NoteDurationKind::Quarter, 4);
    let approx = Rhythm {
        segments: vec![
            RhythmSegment::Note(note(NoteDurationKind::Half)),
            RhythmSegment::Note(note(NoteDurationKind::Quarter)),
            RhythmSegment::Note(note(NoteDurationKind::Quarter)),
        ],
    };
    assert_eq!(score_error(quarter_at(60), &original, &approx), Some(seconds(10200, 1)));
    let o = vec![start(0, 1), start(1, 4), start(1, 2), start(3, 4)];
    let a = vec![start(0, 1), start(1, 2), start(3, 4)];
    assert_eq!(score_marks(quarter_at(60), &o, &a), Some(seconds(10200, 1)));
    // without the fourth mark only the two seconds are left
    let o3 = vec![start(0, 1), start(1, 4), start(1, 2)];
    assert_eq!(score_marks(quarter_at(60), &o3, &a), Some(seconds(2, 1)));
}

#[test]
fn a_start_against_a_stop_costs_ten_seconds_times_fifty() {
    let original = Rhythm { segments: vec![RhythmSegment::Note(note(NoteDurationKind::Quarter))] };
    let approx = Rhythm { segments: vec![RhythmSegment::Rest(note(NoteDurationKind::Quarter))] };
    // same time: (0 + 10) * 50
    assert_eq!(score_error(quarter_at(60), &original, &approx), Some(seconds(500, 1)));
    assert_eq!(score_error(quarter_at(60), &approx, &original), Some(seconds(500, 1)));
}

#[test]
fn the_kind_penalty_is_laid_on_the_distance_of_the_pair() {
    // 1/4 against 1/2 of a whole note is one second at 60: (1 + 10) * 50
    assert_eq!(
        score_marks(quarter_at(60), &vec![start(1, 4)], &vec![stop(1, 2)]),
        Some(seconds(550, 1))
    );
    // the same pair of one kind costs the second alone
    assert_eq!(
        score_marks(quarter_at(60), &vec![start(1, 4)], &vec![start(1, 2)]),
        Some(seconds(1, 1))
    );
    assert_eq!(
        score_marks(quarter_at(60), &vec![stop(1, 4)], &vec![stop(1, 2)]),
        Some(seconds(1, 1))
    );
    // only the pair that differs is penalised
    let o = vec![start(0, 1), start(1, 4), start(1, 2)];
    let a = vec![start(0, 1), stop(1, 2), start(3, 4)];
    assert_eq!(score_marks(quarter_at(60), &o, &a), Some(seconds(551, 1)));
}

#[test]
fn both_penalties_together() {
    let o = vec![start(0, 1), start(1, 4)];
    let a = vec![stop(1, 8)];
    // gap 1/8 whole note = 1/2 s; (1/2 + 10) * 50 = 525; (525 + 100) * 100
    assert_eq!(score_marks(quarter_at(60), &o, &a), Some(seconds(62500, 1)));
}

#[test]
fn pair_error_and_penalised_by_themselves() {
    let factor = q(4, 1);
    assert_eq!(pair_error(factor, start(1, 4), start(1, 3)), Some(Duration(seconds(1, 3))));
    assert_eq!(pair_error(factor, start(1, 3), start(1, 4)), Some(Duration(seconds(1, 3))));
    assert_eq!(pair_error(factor, start(1, 3), stop(1, 4)), Some(Duration(seconds(1550, 3))));
    assert_eq!(penalised(Duration(seconds(1, 2)), 10, 50), Some(Duration(seconds(525, 1))));
    assert_eq!(penalised(Duration(seconds(0, 1)), 100, 100), Some(Duration(seconds(10000, 1))));
}

#[test]
fn scoring_pairs_by_position_without_aligning() {
    // one note put in front moves every later pair
    let original = notes(NoteDurationKind::Quarter, 3);
    let mut approx = notes(NoteDurationKind::Quarter, 3);
    approx.segments.insert(0, RhythmSegment::Note(note(NoteDurationKind::Eigth)));
    // approx marks 0, 1/8, 3/8, 5/8 against 0, 1/4, 1/2: gaps 0, 1/8, 1/8 -> 1 s
    assert_eq!(score_error(quarter_at(60), &original, &approx), Some(seconds(10100, 1)));
}

#[test]
fn a_score_that_does_not_fit_is_none() {
    let far = Mark { time: Time(WholeNotes(q(i64::MAX, 1))), kind: EventKind::Start };
    assert_eq!(score_marks(quarter_at(60), &vec![far], &vec![far]), None);
    assert_eq!(score_marks(quarter_at(60), &vec![far], &vec![]), Some(seconds(10000, 1)));
}

#[test]
fn a_score_is_zero_only_for_the_same_marks() {
    let tempo = quarter_at(60);
    let plain = notes(NoteDurationKind::Eigth, 2);
    // two eighths in the space of two: written otherwise, the same marks
    let wrapped = Rhythm {
        segments: vec![RhythmSegment::new_tuplet(
            2,
            2,
            note(NoteDurationKind::Eigth),
            notes(NoteDurationKind::Eigth, 2),
        )
        .unwrap()
        .ok()
        .unwrap()],
    };
    assert_eq!(flatten_to_marks(&plain), flatten_to_marks(&wrapped));
    assert_eq!(score_error(tempo, &plain, &wrapped), Some(Seconds::zero()));

    let others = [
        notes(NoteDurationKind::Eigth, 1),
        notes(NoteDurationKind::Eigth, 3),
        notes(NoteDurationKind::Quarter, 2),
        Rhythm {
            segments: vec![
                RhythmSegment::Note(note(NoteDurationKind::Eigth)),
                RhythmSegment::Rest(note(NoteDurationKind::Eigth)),
            ],
        },
        Rhythm { segments: vec![] },
    ];
    for other in &others {
        assert_ne!(flatten_to_marks(&plain), flatten_to_marks(other));
        let score = score_error(tempo, &plain, other).unwrap();
        assert_ne!(score, Seconds::zero());
        assert!(Seconds::zero().lt(&score));
    }
}
