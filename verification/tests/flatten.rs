use polyrhythm::polyrhythm::{flatten_rhythm, flatten_to_marks, Event, EventKind, Mark};
use polyrhythm::rational::Rational;
use polyrhythm::rhythm::{NoteDuration, NoteDurationKind, Rhythm, RhythmSegment};
use polyrhythm::time::Time;
use polyrhythm::units::WholeNotes;

fn at(n: i64, d: i64) -> Time<WholeNotes> {
    Time(WholeNotes(Rational::new(n, d).unwrap()))
}

fn note(kind: NoteDurationKind) -> NoteDuration {
    NoteDuration { kind, dotted: false }
}

fn notes(kind: NoteDurationKind, count: usize) -> Rhythm {
    Rhythm { segments: (0..count).map(|_| RhythmSegment::Note(note(kind))).collect() }
}

fn tuplet(actual: u32, normal: u32, kind: NoteDurationKind, inner: Rhythm) -> RhythmSegment {
    RhythmSegment::new_tuplet(actual, normal, note(kind), inner).unwrap().ok().unwrap()
}

fn times_of(events: &[Event]) -> Vec<Time<WholeNotes>> {
    events.iter().map(|e| e.time).collect()
}

fn sounding(time: Time<WholeNotes>, kind: NoteDurationKind) -> Event {
    Event { time, kind: EventKind::Start, duration: note(kind), tied_to_next: false }
}

#[test]
fn empty_rhythm_has_no_events() {
    assert_eq!(flatten_rhythm(&Rhythm { segments: vec![] }), Some(vec![]));
    assert_eq!(flatten_to_marks(&Rhythm { segments: vec![] }), Some(vec![]));
}

#[test]
fn notes_follow_each_other() {
    let r = Rhythm {
        segments: vec![
            RhythmSegment::Note(note(NoteDurationKind::Quarter)),
            RhythmSegment::Note(note(NoteDurationKind::Eigth)),
            RhythmSegment::Note(note(NoteDurationKind::Half)),
        ],
    };
    assert_eq!(
        flatten_rhythm(&r),
        Some(vec![
            sounding(at(0, 1), NoteDurationKind::Quarter),
            sounding(at(1, 4), NoteDurationKind::Eigth),
            sounding(at(3, 8), NoteDurationKind::Half),
        ])
    );
}

#[test]
fn rest_is_a_stop_and_takes_its_time() {
    let r = Rhythm {
        segments: vec![
            RhythmSegment::Rest(NoteDuration { kind: NoteDurationKind::Quarter, dotted: true }),
            RhythmSegment::Note(note(NoteDurationKind::Quarter)),
        ],
    };
    let events = flatten_rhythm(&r).unwrap();
    assert_eq!(events.len(), 2);
    assert_eq!(
        events[0],
        Event {
            time: at(0, 1),
            kind: EventKind::Stop,
            duration: NoteDuration { kind: NoteDurationKind::Quarter, dotted: true },
            tied_to_next: false,
        }
    );
    assert_eq!(events[1], sounding(at(3, 8), NoteDurationKind::Quarter));
}

#[test]
fn tied_note_gives_one_event_for_each_written_value() {
    let r = Rhythm {
        segments: vec![
            RhythmSegment::TiedNote(vec![
                note(NoteDurationKind::Half),
                note(NoteDurationKind::Quarter),
                note(NoteDurationKind::Eigth),
            ]),
            RhythmSegment::Note(note(NoteDurationKind::Eigth)),
        ],
    };
    let events = flatten_rhythm(&r).unwrap();
    assert_eq!(times_of(&events), vec![at(0, 1), at(1, 2), at(3, 4), at(7, 8)]);
    let tied: Vec<bool> = events.iter().map(|e| e.tied_to_next).collect();
    assert_eq!(tied, vec![true, true, false, false]);
    assert!(events.iter().all(|e| e.kind == EventKind::Start));
    assert_eq!(events[1].duration, note(NoteDurationKind::Quarter));
}

#[test]
fn tied_note_of_one_value_is_not_tied() {
    let r = Rhythm { segments: vec![RhythmSegment::TiedNote(vec![note(NoteDurationKind::Half)])] };
    assert_eq!(flatten_rhythm(&r), Some(vec![sounding(at(0, 1), NoteDurationKind::Half)]));
}

#[test]
fn eighth_note_triplet_is_rescaled() {
    // three eighths in the space of two: a twelfth of a whole note apart
    let r = Rhythm {
        segments: vec![tuplet(3, 2, NoteDurationKind::Eigth, notes(NoteDurationKind::Eigth, 3))],
    };
    let events = flatten_rhythm(&r).unwrap();
    assert_eq!(times_of(&events), vec![at(0, 1), at(1, 12), at(1, 6)]);
    assert_ne!(times_of(&events), vec![at(0, 1), at(1, 8), at(1, 4)]);
}

#[test]
fn quarter_note_triplet_is_rescaled() {
    // three quarters in the space of two: a sixth of a whole note apart
    let r = Rhythm {
        segments: vec![tuplet(3, 2, NoteDurationKind::Quarter, notes(NoteDurationKind::Quarter, 3))],
    };
    let events = flatten_rhythm(&r).unwrap();
    assert_eq!(times_of(&events), vec![at(0, 1), at(1, 6), at(1, 3)]);
    assert_ne!(times_of(&events), vec![at(0, 1), at(1, 4), at(1, 2)]);
    assert!(events.iter().all(|e| e.duration == note(NoteDurationKind::Quarter)));
}

#[test]
fn tuplet_begins_where_the_line_has_got_to() {
    let r = Rhythm {
        segments: vec![
            RhythmSegment::Note(note(NoteDurationKind::Quarter)),
            tuplet(3, 2, NoteDurationKind::Eigth, notes(NoteDurationKind::Eigth, 3)),
            RhythmSegment::Rest(note(NoteDurationKind::Quarter)),
        ],
    };
    let events = flatten_rhythm(&r).unwrap();
    assert_eq!(times_of(&events), vec![at(0, 1), at(1, 4), at(1, 3), at(5, 12), at(1, 2)]);
    assert_eq!(events[4].kind, EventKind::Stop);
}

#[test]
fn tuplet_keeps_kind_value_and_tie_of_its_inner_events() {
    let inner = Rhythm {
        segments: vec![
            RhythmSegment::TiedNote(vec![note(NoteDurationKind::Eigth), note(NoteDurationKind::Eigth)]),
            RhythmSegment::Rest(note(NoteDurationKind::Eigth)),
        ],
    };
    let r = Rhythm { segments: vec![tuplet(3, 2, NoteDurationKind::Eigth, inner)] };
    assert_eq!(
        flatten_rhythm(&r),
        Some(vec![
            Event {
                time: at(0, 1),
                kind: EventKind::Start,
                duration: note(NoteDurationKind::Eigth),
                tied_to_next: true,
            },
            Event {
                time: at(1, 12),
                kind: EventKind::Start,
                duration: note(NoteDurationKind::Eigth),
                tied_to_next: false,
            },
            Event {
                time: at(1, 6),
                kind: EventKind::Stop,
                duration: note(NoteDurationKind::Eigth),
                tied_to_next: false,
            },
        ])
    );
}

#[test]
fn nested_tuplets_are_rescaled_twice() {
    // a triplet of sixteenths inside a quintuplet of eighths
    let mut inner = notes(NoteDurationKind::Eigth, 4);
    inner.segments.push(tuplet(3, 2, NoteDurationKind::Sixteenth, notes(NoteDurationKind::Sixteenth, 3)));
    let r = Rhythm { segments: vec![tuplet(5, 4, NoteDurationKind::Eigth, inner)] };
    let events = flatten_rhythm(&r).unwrap();
    // inner times 0, 1/8, 2/8, 3/8, then 4/8 + {0, 1/24, 2/24}; all times 4/5
    assert_eq!(
        times_of(&events),
        vec![at(0, 1), at(1, 10), at(1, 5), at(3, 10), at(2, 5), at(13, 30), at(7, 15)]
    );
}

#[test]
fn events_never_go_back_in_time() {
    let mut inner = notes(NoteDurationKind::Eigth, 4);
    inner.segments.push(tuplet(3, 2, NoteDurationKind::Sixteenth, notes(NoteDurationKind::Sixteenth, 3)));
    let r = Rhythm {
        segments: vec![
            RhythmSegment::Rest(note(NoteDurationKind::Nd64)),
            tuplet(5, 4, NoteDurationKind::Eigth, inner),
            RhythmSegment::TiedNote(vec![note(NoteDurationKind::Nd128), note(NoteDurationKind::Whole)]),
            tuplet(7, 8, NoteDurationKind::Nd32, notes(NoteDurationKind::Nd32, 7)),
            RhythmSegment::Note(note(NoteDurationKind::Half)),
        ],
    };
    let events = flatten_rhythm(&r).unwrap();
    assert_eq!(events.len(), 1 + 7 + 2 + 7 + 1);
    for pair in events.windows(2) {
        assert!(pair[0].time.le(&pair[1].time));
    }
    assert_eq!(events[0].time, at(0, 1));
}

#[test]
fn event_count_is_the_count_of_written_notes_and_rests() {
    let r = Rhythm {
        segments: vec![
            RhythmSegment::Note(note(NoteDurationKind::Quarter)),
            RhythmSegment::TiedNote(vec![
                note(NoteDurationKind::Quarter),
                note(NoteDurationKind::Eigth),
                note(NoteDurationKind::Eigth),
            ]),
            RhythmSegment::Rest(note(NoteDurationKind::Quarter)),
            tuplet(
                3,
                2,
                NoteDurationKind::Eigth,
                Rhythm {
                    segments: vec![
                        RhythmSegment::TiedNote(vec![
                            note(NoteDurationKind::Eigth),
                            note(NoteDurationKind::Eigth),
                        ]),
                        RhythmSegment::Rest(note(NoteDurationKind::Eigth)),
                    ],
                },
            ),
        ],
    };
    assert_eq!(flatten_rhythm(&r).unwrap().len(), 1 + 3 + 1 + 3);
    assert_eq!(flatten_to_marks(&r).unwrap().len(), 8);
}

#[test]
fn tuplet_of_nothing_has_no_events() {
    let r = Rhythm {
        segments: vec![
            RhythmSegment::Note(note(NoteDurationKind::Quarter)),
            tuplet(0, 2, NoteDurationKind::Eigth, Rhythm { segments: vec![] }),
            RhythmSegment::Note(note(NoteDurationKind::Quarter)),
        ],
    };
    assert_eq!(times_of(&flatten_rhythm(&r).unwrap()), vec![at(0, 1), at(1, 2)]);
}

#[test]
fn marks_are_the_times_and_kinds_of_the_events() {
    let r = Rhythm {
        segments: vec![
            RhythmSegment::Note(note(NoteDurationKind::Quarter)),
            RhythmSegment::Rest(note(NoteDurationKind::Quarter)),
            RhythmSegment::TiedNote(vec![note(NoteDurationKind::Quarter), note(NoteDurationKind::Quarter)]),
        ],
    };
    assert_eq!(
        flatten_to_marks(&r),
        Some(vec![
            Mark { time: at(0, 1), kind: EventKind::Start },
            Mark { time: at(1, 4), kind: EventKind::Stop },
            Mark { time: at(1, 2), kind: EventKind::Start },
            Mark { time: at(3, 4), kind: EventKind::Start },
        ])
    );
}
