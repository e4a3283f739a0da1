//! Flattening a rhythm tree into timed events, and scoring how closely one
//! rhythm approximates another at a tempo.

use vstd::prelude::*;
use crate::headroom::{
    lemma_flatten_fits, lemma_score_fits, lemma_score_marks_fits, marks_fit_grid,
    rhythm_fits_grid, score_fits_grid,
};
use crate::rational::{
    lemma_abs_value, lemma_add_value, lemma_integer_value, lemma_mul_value, lemma_sub_value,
    lemma_value_unique, Rational,
};
use crate::rhythm::{spec_times, times, NoteDuration, Rhythm, RhythmSegment};
use crate::time::{as_time, Duration, Time};
use crate::timeline::{
    in_order, lemma_flatten_count, lemma_flatten_in_order, lemma_flatten_times_wf, spec_count,
};
use crate::units::{
    calculate_duration_multiplier, lemma_tempo_factor, seconds_per_whole_note,
    spec_seconds_per_whole_note, Seconds, WholeNotes,
};

verus! {

/// Whether an event starts a sound or starts a silence.
#[derive(Clone, Copy, Debug, PartialEq, Eq, Structural, Hash)]
pub enum EventKind {
    Start,
    Stop,
}

/// One written note or rest of a flattened rhythm.
#[derive(Clone, Copy, Debug, PartialEq, Eq, Structural, Hash)]
pub struct Event {
    /// When it begins, from the start of the line.
    pub time: Time<WholeNotes>,
    pub kind: EventKind,
    /// The note value as written.
    pub duration: NoteDuration,
    /// Whether the note is tied to the one after it.
    pub tied_to_next: bool,
}

/// The time and kind of an event: what scoring looks at.
#[derive(Clone, Copy, Debug, PartialEq, Eq, Structural, Hash)]
pub struct Mark {
    pub time: Time<WholeNotes>,
    pub kind: EventKind,
}

/// Several rhythm lines against one pulse, at one tempo.
#[derive(Debug)]
pub struct Polyrhythm {
    /// The beat and the beats per minute.
    pub tempo: (NoteDuration, u32),
    pub pulse: Option<Rhythm>,
    pub rhythms: Vec<RhythmLine>,
}

/// A rhythm and the rhythms that approximate it.
#[derive(Debug)]
pub struct RhythmLine {
    pub original: Rhythm,
    pub approximations: Vec<Rhythm>,
}

/// The events placed so far and the time reached.
pub type Placed = (Seq<Event>, Time<WholeNotes>);

/// Nothing placed, at the start of the line.
pub open spec fn spec_start() -> Placed {
    (Seq::empty(), Time::at(Rational { numer: 0, denom: 1 }))
}

/// Places one written value at the time reached and moves on by its span.
pub open spec fn spec_place_note(
    state: Placed,
    kind: EventKind,
    duration: NoteDuration,
    tied_to_next: bool,
) -> Option<Placed> {
    match state.1.spec_checked_add(duration.spec_to_duration()) {
        Some(end) => Some(
            (state.0.push(Event { time: state.1, kind, duration, tied_to_next }), end),
        ),
        None => None,
    }
}

/// Places the first `k` values of a tied note. All but the last value of
/// the whole group are tied to the next.
pub open spec fn spec_place_tied(durs: Seq<NoteDuration>, k: nat, state: Placed) -> Option<Placed>
    decreases k,
{
    if k == 0 || k > durs.len() {
        Some(state)
    } else {
        match spec_place_tied(durs, (k - 1) as nat, state) {
            Some(before) => spec_place_note(
                before,
                EventKind::Start,
                durs[k - 1],
                k < durs.len(),
            ),
            None => None,
        }
    }
}

/// Where an event at `time` within a tuplet falls in the line that holds
/// the tuplet: `time` times `normal / actual`, after `start`.
pub open spec fn spec_rescale(time: Time<WholeNotes>, normal: u32, actual: u32, start: Time<WholeNotes>)
    -> Option<Time<WholeNotes>> {
    match Rational::spec_new(normal as i64, actual as i64) {
        Some(ratio) => match time.spec_elapsed().spec_checked_mul(ratio) {
            Some(offset) => start.spec_checked_add(offset),
            None => None,
        },
        None => None,
    }
}

/// Places the first `k` events of a tuplet's inner rhythm after `events`.
pub open spec fn spec_place_inner(
    inner: Seq<Event>,
    k: nat,
    normal: u32,
    actual: u32,
    start: Time<WholeNotes>,
    events: Seq<Event>,
) -> Option<Seq<Event>>
    decreases k,
{
    if k == 0 || k > inner.len() {
        Some(events)
    } else {
        match spec_place_inner(inner, (k - 1) as nat, normal, actual, start, events) {
            Some(before) => match spec_rescale(inner[k - 1].time, normal, actual, start) {
                Some(time) => Some(
                    before.push(
                        Event {
                            time,
                            kind: inner[k - 1].kind,
                            duration: inner[k - 1].duration,
                            tied_to_next: inner[k - 1].tied_to_next,
                        },
                    ),
                ),
                None => None,
            },
            None => None,
        }
    }
}

/// Places one segment. `inner` is the flattened inner rhythm of a tuplet.
pub open spec fn spec_place(segment: RhythmSegment, inner: Option<Seq<Event>>, state: Placed)
    -> Option<Placed> {
    match segment {
        RhythmSegment::Note(d) => spec_place_note(state, EventKind::Start, d, false),
        RhythmSegment::TiedNote(durs) => spec_place_tied(durs@, durs.len() as nat, state),
        RhythmSegment::Rest(d) => spec_place_note(state, EventKind::Stop, d, false),
        RhythmSegment::Tuplet { actual, normal, note_duration, rhythm, do_not_construct } => {
            match inner {
                Some(sub) => match spec_place_inner(
                    sub,
                    sub.len(),
                    normal,
                    actual,
                    state.1,
                    state.0,
                ) {
                    Some(events) => match spec_times(note_duration, normal) {
                        Some(span) => match state.1.spec_checked_add(span) {
                            Some(end) => Some((events, end)),
                            None => None,
                        },
                        None => None,
                    },
                    None => None,
                },
                None => None,
            }
        },
    }
}

/// The events of the first `n` segments of a rhythm and the time reached
/// after them; nothing as soon as one time does not fit.
pub open spec fn spec_flatten_upto(r: Rhythm, n: nat) -> Option<Placed>
    decreases r, n,
{
    if n == 0 || n > r.segments.len() {
        Some(spec_start())
    } else {
        let segment = r.segments[n - 1];
        let inner = match segment {
            RhythmSegment::Tuplet { actual, normal, note_duration, rhythm, do_not_construct } => {
                match spec_flatten_upto(*rhythm, rhythm.segments.len() as nat) {
                    Some(placed) => Some(placed.0),
                    None => None,
                }
            },
            _ => Some(Seq::empty()),
        };
        match spec_flatten_upto(r, (n - 1) as nat) {
            Some(before) => spec_place(segment, inner, before),
            None => None,
        }
    }
}

/// The events of a rhythm in the order of its segments, those of a tuplet
/// rescaled and moved to where the tuplet begins.
pub open spec fn spec_flatten(r: Rhythm) -> Option<Seq<Event>> {
    match spec_flatten_upto(r, r.segments.len() as nat) {
        Some(placed) => Some(placed.0),
        None => None,
    }
}

/// Whether the time of every event is well formed.
pub open spec fn times_wf(events: Seq<Event>) -> bool {
    forall|i: int| 0 <= i < events.len() ==> (#[trigger] events[i]).time.wf()
}

/// Once the first `n` segments cannot be placed, the whole rhythm cannot.
pub proof fn lemma_flatten_prefix_fails(r: Rhythm, n: nat)
    requires
        n <= r.segments.len(),
        spec_flatten_upto(r, n) is None,
    ensures
        spec_flatten(r) is None,
    decreases r.segments.len() - n,
{
    if n < r.segments.len() {
        lemma_flatten_prefix_fails(r, n + 1);
    }
}

/// Once the first `k` values of a tied note cannot be placed, the whole
/// group cannot.
pub proof fn lemma_tied_prefix_fails(durs: Seq<NoteDuration>, k: nat, state: Placed)
    requires
        k <= durs.len(),
        spec_place_tied(durs, k, state) is None,
    ensures
        spec_place_tied(durs, durs.len(), state) is None,
    decreases durs.len() - k,
{
    if k < durs.len() {
        lemma_tied_prefix_fails(durs, k + 1, state);
    }
}

/// Once the first `k` inner events of a tuplet cannot be placed, the whole
/// tuplet cannot.
pub proof fn lemma_inner_prefix_fails(
    inner: Seq<Event>,
    k: nat,
    normal: u32,
    actual: u32,
    start: Time<WholeNotes>,
    events: Seq<Event>,
)
    requires
        k <= inner.len(),
        spec_place_inner(inner, k, normal, actual, start, events) is None,
    ensures
        spec_place_inner(inner, inner.len(), normal, actual, start, events) is None,
    decreases inner.len() - k,
{
    if k < inner.len() {
        lemma_inner_prefix_fails(inner, k + 1, normal, actual, start, events);
    }
}

/// Places the written values of a tied note after `events`, starting at
/// `start`, and returns the time reached.
fn place_tied(durs: &Vec<NoteDuration>, events: &mut Vec<Event>, start: Time<WholeNotes>) -> (res:
    Option<Time<WholeNotes>>)
    requires
        start.wf(),
        times_wf(old(events)@),
    ensures
        match res {
            Some(end) => spec_place_tied(durs@, durs.len() as nat, (old(events)@, start)) == Some(
                (final(events)@, end),
            ) && end.wf() && times_wf(final(events)@),
            None => spec_place_tied(durs@, durs.len() as nat, (old(events)@, start)) is None,
        },
{
    let ghost before: Placed = (events@, start);
    let mut current_time = start;
    let mut k: usize = 0;
    while k < durs.len()
        invariant
            k <= durs.len(),
            current_time.wf(),
            times_wf(events@),
            before == (old(events)@, start),
            spec_place_tied(durs@, k as nat, before) == Some((events@, current_time)),
        decreases durs.len() - k,
    {
        events.push(
            Event {
                time: current_time,
                kind: EventKind::Start,
                duration: durs[k],
                tied_to_next: k + 1 < durs.len(),
            },
        );
        match current_time.checked_add(durs[k].to_duration()) {
            Some(next) => {
                current_time = next;
            },
            None => {
                proof {
                    lemma_tied_prefix_fails(durs@, (k + 1) as nat, before);
                }
                return None;
            },
        }
        k = k + 1;
    }
    Some(current_time)
}

/// Places the events of a tuplet's inner rhythm after `events`, each at its
/// time times `normal / actual` after `start`. Returns whether every time
/// fitted.
fn place_inner(
    inner: &Vec<Event>,
    normal: u32,
    actual: u32,
    start: Time<WholeNotes>,
    events: &mut Vec<Event>,
) -> (placed: bool)
    requires
        start.wf(),
        times_wf(inner@),
        times_wf(old(events)@),
    ensures
        placed ==> spec_place_inner(inner@, inner.len() as nat, normal, actual, start, old(events)@)
            == Some(final(events)@) && times_wf(final(events)@),
        !placed ==> spec_place_inner(inner@, inner.len() as nat, normal, actual, start, old(events)@)
            is None,
{
    let ghost before = events@;
    let ratio = Rational::new(normal as i64, actual as i64);
    let mut k: usize = 0;
    while k < inner.len()
        invariant
            k <= inner.len(),
            start.wf(),
            times_wf(events@),
            times_wf(inner@),
            ratio == Rational::spec_new(normal as i64, actual as i64),
            ratio matches Some(q) ==> q.wf(),
            before == old(events)@,
            spec_place_inner(inner@, k as nat, normal, actual, start, before) == Some(events@),
        decreases inner.len() - k,
    {
        let time = match ratio {
            Some(ratio) => match inner[k].time.elapsed().checked_mul(ratio) {
                Some(offset) => start.checked_add(offset),
                None => None,
            },
            None => None,
        };
        match time {
            Some(time) => {
                events.push(
                    Event {
                        time,
                        kind: inner[k].kind,
                        duration: inner[k].duration,
                        tied_to_next: inner[k].tied_to_next,
                    },
                );
            },
            None => {
                proof {
                    lemma_inner_prefix_fails(inner@, (k + 1) as nat, normal, actual, start, before);
                }
                return false;
            },
        }
        k = k + 1;
    }
    true
}

/// Flattens a rhythm into its events in the order of its segments. A note
/// or rest gives one event, a tied note one event for each written value,
/// and a tuplet the events of its inner rhythm, each at its time times
/// `normal / actual` after the time at which the tuplet begins. Returns
/// nothing where a time does not fit; it fits wherever `rhythm_fits_grid`
/// holds of the rhythm and some grid.
pub fn flatten_rhythm(r: &Rhythm) -> (res: Option<Vec<Event>>)
    ensures
        spec_flatten(*r) == (match res {
            Some(v) => Some(v@),
            None => None,
        }),
        res matches Some(v) ==> times_wf(v@) && v.len() == spec_count(*r),
        r.wf() ==> (res matches Some(v) ==> in_order(v@)),
        forall|m: int| r.wf() && #[trigger] rhythm_fits_grid(*r, m) ==> res is Some,
    decreases r,
{
    proof {
        lemma_flatten_count(*r);
        if r.wf() {
            lemma_flatten_in_order(*r);
            assert forall|m: int| #[trigger] rhythm_fits_grid(*r, m) implies spec_flatten(*r)
                is Some by {
                lemma_flatten_fits(*r, m);
            }
        }
    }
    let mut current_time = Time::<WholeNotes>::zero();
    let mut events: Vec<Event> = Vec::new();
    let mut i: usize = 0;
    while i < r.segments.len()
        invariant
            i <= r.segments.len(),
            current_time.wf(),
            times_wf(events@),
            spec_flatten_upto(*r, i as nat) == Some((events@, current_time)),
            forall|m: int| r.wf() && #[trigger] rhythm_fits_grid(*r, m) ==> spec_flatten(*r) is Some,
        decreases r.segments.len() - i,
    {
        let placed = match &r.segments[i] {
            RhythmSegment::Note(dur) => {
                events.push(
                    Event {
                        time: current_time,
                        kind: EventKind::Start,
                        duration: *dur,
                        tied_to_next: false,
                    },
                );
                current_time.checked_add(dur.to_duration())
            },
            RhythmSegment::TiedNote(durs) => place_tied(durs, &mut events, current_time),
            RhythmSegment::Rest(dur) => {
                events.push(
                    Event {
                        time: current_time,
                        kind: EventKind::Stop,
                        duration: *dur,
                        tied_to_next: false,
                    },
                );
                current_time.checked_add(dur.to_duration())
            },
            RhythmSegment::Tuplet { actual, normal, note_duration, rhythm, do_not_construct: _ } => {
                match flatten_rhythm(rhythm) {
                    Some(sub) => {
                        if place_inner(&sub, *normal, *actual, current_time, &mut events) {
                            current_time.checked_add(times(*note_duration, *normal))
                        } else {
                            None
                        }
                    },
                    None => None,
                }
            },
        };
        match placed {
            Some(end) => {
                current_time = end;
            },
            None => {
                proof {
                    lemma_flatten_prefix_fails(*r, (i + 1) as nat);
                }
                return None;
            },
        }
        i = i + 1;
    }
    Some(events)
}

/// The time and kind of an event.
pub open spec fn to_mark(e: Event) -> Mark {
    Mark { time: e.time, kind: e.kind }
}

/// The marks of a sequence of events.
pub open spec fn marks_of(events: Seq<Event>) -> Seq<Mark> {
    Seq::new(events.len(), |i: int| to_mark(events[i]))
}

/// Whether the time of every mark is well formed.
pub open spec fn marks_wf(marks: Seq<Mark>) -> bool {
    forall|i: int| 0 <= i < marks.len() ==> (#[trigger] marks[i]).time.wf()
}

/// The marks of the events of a rhythm.
pub open spec fn spec_flatten_to_marks(r: Rhythm) -> Option<Seq<Mark>> {
    match spec_flatten(r) {
        Some(events) => Some(marks_of(events)),
        None => None,
    }
}

/// Flattens a rhythm and keeps the time and kind of each event.
pub fn flatten_to_marks(r: &Rhythm) -> (res: Option<Vec<Mark>>)
    ensures
        spec_flatten_to_marks(*r) == (match res {
            Some(v) => Some(v@),
            None => None,
        }),
        res matches Some(v) ==> marks_wf(v@) && v.len() == spec_count(*r),
{
    let events = match flatten_rhythm(r) {
        Some(events) => events,
        None => {
            return None;
        },
    };
    let mut marks: Vec<Mark> = Vec::new();
    let mut i: usize = 0;
    while i < events.len()
        invariant
            i <= events.len(),
            times_wf(events@),
            marks@ =~= marks_of(events@.take(i as int)),
        decreases events.len() - i,
    {
        marks.push(Mark { time: events[i].time, kind: events[i].kind });
        i = i + 1;
    }
    proof {
        assert(events@.take(i as int) =~= events@);
    }
    Some(marks)
}

/// The absolute value of a number.
pub open spec fn abs_real(x: real) -> real {
    if x < 0real {
        -x
    } else {
        x
    }
}

/// What one pair of marks adds to the score, for `factor` seconds per whole
/// note: the distance of the two times in seconds, and where the kinds
/// differ that distance plus ten seconds, times fifty.
pub open spec fn pair_value(factor: real, original: Mark, approx: Mark) -> real {
    let gap = abs_real(factor * original.time@ - factor * approx.time@);
    if original.kind != approx.kind {
        (gap + 10real) * 50real
    } else {
        gap
    }
}

/// What the first `n` pairs of marks add to the score.
pub open spec fn pairs_value(factor: real, original: Seq<Mark>, approx: Seq<Mark>, n: nat) -> real
    decreases n,
{
    if n == 0 || n > original.len() || n > approx.len() {
        0real
    } else {
        pairs_value(factor, original, approx, (n - 1) as nat) + pair_value(
            factor,
            original[n - 1],
            approx[n - 1],
        )
    }
}

/// The smaller of two lengths.
pub open spec fn shorter(a: nat, b: nat) -> nat {
    if a < b {
        a
    } else {
        b
    }
}

/// The score of two sequences of marks: what the pairs at equal positions
/// add, up to the end of the shorter sequence; and where the lengths differ,
/// that sum plus a hundred seconds, times a hundred.
pub open spec fn score_value(factor: real, original: Seq<Mark>, approx: Seq<Mark>) -> real {
    let sum = pairs_value(factor, original, approx, shorter(original.len(), approx.len()));
    if original.len() != approx.len() {
        (sum + 100real) * 100real
    } else {
        sum
    }
}

/// A whole number of seconds.
pub open spec fn spec_whole_seconds(n: u32) -> Duration<Seconds> {
    Duration(Seconds(Rational { numer: n as i64, denom: 1 }))
}

/// `span` plus `extra` seconds, times `weight`.
pub open spec fn spec_penalised(span: Duration<Seconds>, extra: u32, weight: u32) -> Option<
    Duration<Seconds>,
> {
    match span.spec_checked_add(spec_whole_seconds(extra)) {
        Some(sum) => sum.spec_checked_mul(Rational { numer: weight as i64, denom: 1 }),
        None => None,
    }
}

/// The time of a mark in seconds, for `factor` seconds per whole note.
pub open spec fn spec_mark_seconds(factor: Rational, mark: Mark) -> Option<Time<Seconds>> {
    as_time(factor.spec_checked_mul(mark.time.0.0))
}

/// What one pair of marks adds to the score, computed in fractions.
pub open spec fn spec_pair_error(factor: Rational, original: Mark, approx: Mark) -> Option<
    Duration<Seconds>,
> {
    match (spec_mark_seconds(factor, original), spec_mark_seconds(factor, approx)) {
        (Some(o), Some(a)) => match o.spec_checked_sub(a) {
            Some(diff) => {
                let gap = Duration(diff.0.spec_abs());
                if original.kind != approx.kind {
                    spec_penalised(gap, 10, 50)
                } else {
                    Some(gap)
                }
            },
            None => None,
        },
        _ => None,
    }
}

/// What the first `n` pairs add, summed from the left, starting at zero.
pub open spec fn spec_pairs_error(factor: Rational, original: Seq<Mark>, approx: Seq<Mark>, n: nat)
    -> Option<Duration<Seconds>>
    decreases n,
{
    if n == 0 || n > original.len() || n > approx.len() {
        Some(spec_whole_seconds(0))
    } else {
        match (
            spec_pairs_error(factor, original, approx, (n - 1) as nat),
            spec_pair_error(factor, original[n - 1], approx[n - 1]),
        ) {
            (Some(sum), Some(pair)) => sum.spec_checked_add(pair),
            _ => None,
        }
    }
}

/// The score of two sequences of marks at a tempo, computed in fractions;
/// nothing at zero beats per minute or where a step does not fit.
pub open spec fn spec_score_marks(tempo: (NoteDuration, u32), original: Seq<Mark>, approx: Seq<Mark>)
    -> Option<Seconds> {
    match spec_seconds_per_whole_note(tempo) {
        Some(factor) => match spec_pairs_error(
            factor,
            original,
            approx,
            shorter(original.len(), approx.len()),
        ) {
            Some(sum) => if original.len() != approx.len() {
                match spec_penalised(sum, 100, 100) {
                    Some(total) => Some(total.0),
                    None => None,
                }
            } else {
                Some(sum.0)
            },
            None => None,
        },
        None => None,
    }
}

/// The score of an approximation against the original rhythm at a tempo.
pub open spec fn spec_score_error(tempo: (NoteDuration, u32), original: Rhythm, approx: Rhythm)
    -> Option<Seconds> {
    match (spec_flatten_to_marks(original), spec_flatten_to_marks(approx)) {
        (Some(o), Some(a)) => spec_score_marks(tempo, o, a),
        _ => None,
    }
}

/// A penalised span that fits is the span plus `extra`, times `weight`.
pub proof fn lemma_penalised_value(span: Duration<Seconds>, extra: u32, weight: u32)
    requires
        span.wf(),
    ensures
        spec_penalised(span, extra, weight) matches Some(p) ==> p.wf() && p@ == (span@ + extra as real)
            * (weight as real),
{
    lemma_integer_value(extra as int);
    lemma_integer_value(weight as int);
    lemma_add_value(span.0.0, Rational { numer: extra as i64, denom: 1 });
    match span.spec_checked_add(spec_whole_seconds(extra)) {
        Some(sum) => {
            lemma_mul_value(sum.0.0, Rational { numer: weight as i64, denom: 1 });
        },
        None => {},
    }
}

/// What a pair adds, where it fits, is exactly `pair_value`.
pub proof fn lemma_pair_value(factor: Rational, original: Mark, approx: Mark)
    requires
        factor.wf(),
        original.time.wf(),
        approx.time.wf(),
    ensures
        spec_pair_error(factor, original, approx) matches Some(e) ==> e.wf() && e@ == pair_value(
            factor@,
            original,
            approx,
        ),
{
    lemma_mul_value(factor, original.time.0.0);
    lemma_mul_value(factor, approx.time.0.0);
    match (spec_mark_seconds(factor, original), spec_mark_seconds(factor, approx)) {
        (Some(o), Some(a)) => {
            lemma_sub_value(o.0.0, a.0.0);
            match o.spec_checked_sub(a) {
                Some(diff) => {
                    lemma_abs_value(diff.0.0);
                    lemma_penalised_value(Duration(diff.0.spec_abs()), 10, 50);
                },
                None => {},
            }
        },
        _ => {},
    }
}

/// What the first `n` pairs add, where it fits, is exactly `pairs_value`.
pub proof fn lemma_pairs_value(factor: Rational, original: Seq<Mark>, approx: Seq<Mark>, n: nat)
    requires
        factor.wf(),
        marks_wf(original),
        marks_wf(approx),
    ensures
        spec_pairs_error(factor, original, approx, n) matches Some(sum) ==> sum.wf() && sum@
            == pairs_value(factor@, original, approx, n),
    decreases n,
{
    if n == 0 || n > original.len() || n > approx.len() {
        lemma_integer_value(0);
    } else {
        lemma_pairs_value(factor, original, approx, (n - 1) as nat);
        lemma_pair_value(factor, original[n - 1], approx[n - 1]);
        match (
            spec_pairs_error(factor, original, approx, (n - 1) as nat),
            spec_pair_error(factor, original[n - 1], approx[n - 1]),
        ) {
            (Some(sum), Some(pair)) => {
                lemma_add_value(sum.0.0, pair.0.0);
            },
            _ => {},
        }
    }
}

/// A score that fits is exactly `score_value` at the tempo's seconds per
/// whole note.
pub proof fn lemma_score_value(tempo: (NoteDuration, u32), original: Seq<Mark>, approx: Seq<Mark>)
    requires
        marks_wf(original),
        marks_wf(approx),
    ensures
        spec_score_marks(tempo, original, approx) matches Some(s) ==> s.wf() && tempo.1 != 0 && s@
            == score_value(seconds_per_whole_note(tempo), original, approx),
{
    lemma_tempo_factor(tempo);
    match spec_seconds_per_whole_note(tempo) {
        Some(factor) => {
            let n = shorter(original.len(), approx.len());
            lemma_pairs_value(factor, original, approx, n);
            match spec_pairs_error(factor, original, approx, n) {
                Some(sum) => {
                    lemma_penalised_value(sum, 100, 100);
                },
                None => {},
            }
        },
        None => {},
    }
}

/// Once the first `n` pairs do not fit, the pairs up to `m` do not.
pub proof fn lemma_pairs_prefix_fails(
    factor: Rational,
    original: Seq<Mark>,
    approx: Seq<Mark>,
    n: nat,
    m: nat,
)
    requires
        n <= m <= shorter(original.len(), approx.len()),
        spec_pairs_error(factor, original, approx, n) is None,
    ensures
        spec_pairs_error(factor, original, approx, m) is None,
    decreases m - n,
{
    if n < m {
        lemma_pairs_prefix_fails(factor, original, approx, n + 1, m);
    }
}

/// `span` plus `extra` seconds, times `weight`.
pub fn penalised(span: Duration<Seconds>, extra: u32, weight: u32) -> (res: Option<Duration<Seconds>>)
    requires
        span.wf(),
    ensures
        res == spec_penalised(span, extra, weight),
        res matches Some(p) ==> p.wf() && p@ == (span@ + extra as real) * (weight as real),
{
    proof {
        lemma_penalised_value(span, extra, weight);
    }
    match span.checked_add(Duration(Seconds(Rational::from_u32(extra)))) {
        Some(sum) => sum.checked_mul(Rational::from_u32(weight)),
        None => None,
    }
}

/// What one pair of marks adds to the score, for `factor` seconds per whole
/// note.
pub fn pair_error(factor: Rational, original: Mark, approx: Mark) -> (res: Option<Duration<Seconds>>)
    requires
        factor.wf(),
        original.time.wf(),
        approx.time.wf(),
    ensures
        res == spec_pair_error(factor, original, approx),
        res matches Some(e) ==> e.wf() && e@ == pair_value(factor@, original, approx),
{
    proof {
        lemma_pair_value(factor, original, approx);
    }
    let o = match factor.checked_mul(original.time.0.0) {
        Some(seconds) => Time(Seconds(seconds)),
        None => {
            return None;
        },
    };
    let a = match factor.checked_mul(approx.time.0.0) {
        Some(seconds) => Time(Seconds(seconds)),
        None => {
            return None;
        },
    };
    match o.checked_sub(a) {
        Some(diff) => {
            let gap = Duration(diff.0.abs());
            if original.kind != approx.kind {
                penalised(gap, 10, 50)
            } else {
                Some(gap)
            }
        },
        None => None,
    }
}

/// Scores two sequences of marks at a tempo. Marks are paired by position
/// up to the end of the shorter sequence. Each pair adds the distance of its
/// two times in seconds, and where the kinds differ that distance plus ten
/// seconds, times fifty. Where the lengths differ the sum is raised by a
/// hundred seconds and multiplied by a hundred. Returns nothing at zero
/// beats per minute or where a step does not fit; it fits wherever
/// `marks_fit_grid` holds of the marks, some grid and some latest time.
pub fn score_marks(tempo: (NoteDuration, u32), original: &Vec<Mark>, approx: &Vec<Mark>) -> (res:
    Option<Seconds>)
    requires
        marks_wf(original@),
        marks_wf(approx@),
    ensures
        res == spec_score_marks(tempo, original@, approx@),
        res matches Some(s) ==> s.wf() && tempo.1 != 0 && s@ == score_value(
            seconds_per_whole_note(tempo),
            original@,
            approx@,
        ),
        forall|m: int, x: int| #[trigger]
            marks_fit_grid(tempo, original@, approx@, m, x) ==> res is Some,
{
    proof {
        lemma_score_value(tempo, original@, approx@);
        assert forall|m: int, x: int| #[trigger]
            marks_fit_grid(tempo, original@, approx@, m, x) implies spec_score_marks(
            tempo,
            original@,
            approx@,
        ) is Some by {
            lemma_score_marks_fits(tempo, original@, approx@, m, x);
        }
    }
    let factor = match calculate_duration_multiplier(tempo) {
        Some(factor) => factor,
        None => {
            return None;
        },
    };
    let pairs = if original.len() < approx.len() {
        original.len()
    } else {
        approx.len()
    };
    let mut err = Duration::<Seconds>::zero();
    let mut i: usize = 0;
    while i < pairs
        invariant
            i <= pairs,
            pairs == shorter(original@.len(), approx@.len()),
            spec_seconds_per_whole_note(tempo) == Some(factor),
            forall|m: int, x: int| #[trigger]
                marks_fit_grid(tempo, original@, approx@, m, x) ==> spec_score_marks(
                    tempo,
                    original@,
                    approx@,
                ) is Some,
            factor.wf(),
            marks_wf(original@),
            marks_wf(approx@),
            err.wf(),
            spec_pairs_error(factor, original@, approx@, i as nat) == Some(err),
        decreases pairs - i,
    {
        let next = match pair_error(factor, original[i], approx[i]) {
            Some(pair) => err.checked_add(pair),
            None => None,
        };
        match next {
            Some(sum) => {
                err = sum;
            },
            None => {
                proof {
                    lemma_pairs_prefix_fails(
                        factor,
                        original@,
                        approx@,
                        (i + 1) as nat,
                        pairs as nat,
                    );
                }
                return None;
            },
        }
        i = i + 1;
    }
    if original.len() != approx.len() {
        match penalised(err, 100, 100) {
            Some(total) => Some(total.0),
            None => None,
        }
    } else {
        Some(err.0)
    }
}

/// Scores how far `approx` is from `original` at a tempo: both rhythms are
/// flattened to marks and the marks are scored by `score_marks`. Lower is
/// better, and zero is the score of a rhythm against itself. Returns
/// nothing at zero beats per minute or where a step does not fit; it fits
/// wherever `score_fits_grid` holds of the rhythms and some grid.
pub fn score_error(tempo: (NoteDuration, u32), original: &Rhythm, approx: &Rhythm) -> (res: Option<
    Seconds,
>)
    ensures
        res == spec_score_error(tempo, *original, *approx),
        res matches Some(s) ==> {
            &&& s.wf()
            &&& s@ >= 0real
            &&& tempo.1 != 0
            &&& spec_flatten_to_marks(*original) matches Some(o)
            &&& spec_flatten_to_marks(*approx) matches Some(a)
            &&& s@ == score_value(seconds_per_whole_note(tempo), o, a)
        },
        *original == *approx ==> (res matches Some(s) ==> s == Seconds(Rational::spec_zero())),
        res matches Some(s) && s@ == 0real ==> spec_flatten_to_marks(*original)
            == spec_flatten_to_marks(*approx),
        forall|m: int|
            original.wf() && approx.wf() && #[trigger] score_fits_grid(tempo, *original, *approx, m)
                ==> res is Some,
{
    proof {
        if *original == *approx {
            lemma_score_identity(tempo, *original);
        }
        if original.wf() && approx.wf() {
            assert forall|m: int| #[trigger]
                score_fits_grid(tempo, *original, *approx, m) implies spec_score_error(
                tempo,
                *original,
                *approx,
            ) is Some by {
                lemma_score_fits(tempo, *original, *approx, m);
            }
        }
    }
    let o = match flatten_to_marks(original) {
        Some(marks) => marks,
        None => {
            return None;
        },
    };
    let a = match flatten_to_marks(approx) {
        Some(marks) => marks,
        None => {
            return None;
        },
    };
    proof {
        lemma_tempo_factor(tempo);
        if tempo.1 != 0 {
            lemma_score_not_negative(seconds_per_whole_note(tempo), o@, a@);
            if score_value(seconds_per_whole_note(tempo), o@, a@) == 0real {
                lemma_score_zero(seconds_per_whole_note(tempo), o@, a@);
            }
        }
    }
    score_marks(tempo, &o, &a)
}

/// What the first `n` pairs add is never negative.
pub proof fn lemma_pairs_not_negative(factor: real, original: Seq<Mark>, approx: Seq<Mark>, n: nat)
    ensures
        pairs_value(factor, original, approx, n) >= 0real,
    decreases n,
{
    if n == 0 || n > original.len() || n > approx.len() {
    } else {
        lemma_pairs_not_negative(factor, original, approx, (n - 1) as nat);
    }
}

/// A score is never negative.
pub proof fn lemma_score_not_negative(factor: real, original: Seq<Mark>, approx: Seq<Mark>)
    ensures
        score_value(factor, original, approx) >= 0real,
{
    lemma_pairs_not_negative(factor, original, approx, shorter(original.len(), approx.len()));
}

/// The first `n` pairs of a sequence of marks with itself add nothing.
pub proof fn lemma_pairs_identity(factor: real, marks: Seq<Mark>, n: nat)
    ensures
        pairs_value(factor, marks, marks, n) == 0real,
    decreases n,
{
    if n == 0 || n > marks.len() {
    } else {
        lemma_pairs_identity(factor, marks, (n - 1) as nat);
    }
}

/// Comparing a rhythm with itself gives a score of zero at every tempo,
/// wherever it gives a score.
pub proof fn lemma_score_identity(tempo: (NoteDuration, u32), r: Rhythm)
    ensures
        spec_score_error(tempo, r, r) matches Some(s) ==> s == Seconds(
            Rational { numer: 0, denom: 1 },
        ) && s@ == 0real,
{
    lemma_flatten_times_wf(r);
    match spec_flatten_to_marks(r) {
        Some(marks) => {
            lemma_score_value(tempo, marks, marks);
            lemma_pairs_identity(seconds_per_whole_note(tempo), marks, marks.len());
            lemma_integer_value(0);
            match spec_score_marks(tempo, marks, marks) {
                Some(s) => {
                    lemma_value_unique(s.0, Rational { numer: 0, denom: 1 });
                },
                None => {},
            }
        },
        None => {},
    }
}

/// Where the two sequences differ in length, the score is the sum over
/// the pairs up to the end of the shorter one, plus a hundred seconds, times
/// a hundred.
pub proof fn lemma_length_penalty(factor: real, original: Seq<Mark>, approx: Seq<Mark>)
    requires
        original.len() != approx.len(),
    ensures
        score_value(factor, original, approx) == (pairs_value(
            factor,
            original,
            approx,
            shorter(original.len(), approx.len()),
        ) + 100real) * 100real,
{
}

/// A pair whose kinds differ adds the distance of its times in seconds plus
/// ten, times fifty; a pair of one kind adds the distance alone.
pub proof fn lemma_kind_penalty(factor: real, original: Mark, approx: Mark)
    ensures
        original.kind != approx.kind ==> pair_value(factor, original, approx) == (abs_real(
            factor * original.time@ - factor * approx.time@,
        ) + 10real) * 50real,
        original.kind == approx.kind ==> pair_value(factor, original, approx) == abs_real(
            factor * original.time@ - factor * approx.time@,
        ),
{
}

/// A pair adds nothing only where its two marks are the same.
pub proof fn lemma_pair_zero(factor: real, original: Mark, approx: Mark)
    requires
        factor > 0real,
        original.time.wf(),
        approx.time.wf(),
        pair_value(factor, original, approx) == 0real,
    ensures
        original == approx,
{
    let x = original.time@;
    let y = approx.time@;
    let gap = abs_real(factor * x - factor * y);
    assert(gap >= 0real);
    assert(x == y) by (nonlinear_arith)
        requires
            factor > 0real,
            factor * x - factor * y == 0real,
    ;
    lemma_value_unique(original.time.0.0, approx.time.0.0);
}

/// The first `n` pairs add nothing only where the two sequences agree in
/// their first `n` marks.
pub proof fn lemma_pairs_zero(factor: real, original: Seq<Mark>, approx: Seq<Mark>, n: nat)
    requires
        factor > 0real,
        marks_wf(original),
        marks_wf(approx),
        n <= original.len(),
        n <= approx.len(),
        pairs_value(factor, original, approx, n) == 0real,
    ensures
        forall|i: int| 0 <= i < n ==> original[i] == approx[i],
    decreases n,
{
    if n > 0 {
        lemma_pairs_not_negative(factor, original, approx, (n - 1) as nat);
        lemma_pair_zero(factor, original[n - 1], approx[n - 1]);
        lemma_pairs_zero(factor, original, approx, (n - 1) as nat);
    }
}

/// A score is zero only for an exact match: the same marks, in kind and in
/// time, and as many of them.
pub proof fn lemma_score_zero(factor: real, original: Seq<Mark>, approx: Seq<Mark>)
    requires
        factor > 0real,
        marks_wf(original),
        marks_wf(approx),
        score_value(factor, original, approx) == 0real,
    ensures
        original == approx,
{
    let n = shorter(original.len(), approx.len());
    lemma_pairs_not_negative(factor, original, approx, n);
    lemma_pairs_zero(factor, original, approx, n);
    assert(original =~= approx);
}

} // verus!
