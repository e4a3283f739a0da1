//! What holds of every flattened rhythm: how many events it has, and that
//! their times never go back.

use vstd::prelude::*;
use crate::polyrhythm::{
    spec_flatten, spec_flatten_upto, spec_place_inner, spec_place_note, spec_place_tied,
    spec_rescale, times_wf, Event, EventKind, Placed,
};
use crate::rational::{lemma_add_value, lemma_integer_value, lemma_mul_value, lemma_new_value, Rational};
use crate::rhythm::{
    lemma_duration_of_value, lemma_times_value, spans, spec_times, whole_notes_of, NoteDuration,
    Rhythm, RhythmSegment,
};
use crate::time::{total, Time};
use crate::units::WholeNotes;

verus! {

/// The written notes and rests among the first `n` segments of a rhythm,
/// those inside tuplets included. A tied note counts once for each written
/// value.
pub open spec fn spec_count_upto(r: Rhythm, n: nat) -> nat
    decreases r, n,
{
    if n == 0 || n > r.segments.len() {
        0
    } else {
        spec_count_upto(r, (n - 1) as nat) + (match r.segments[n - 1] {
            RhythmSegment::Note(_) => 1,
            RhythmSegment::TiedNote(durs) => durs.len() as nat,
            RhythmSegment::Rest(_) => 1,
            RhythmSegment::Tuplet { actual, normal, note_duration, rhythm, do_not_construct } => {
                spec_count_upto(*rhythm, rhythm.segments.len() as nat)
            },
        })
    }
}

/// The written notes and rests of a rhythm.
pub open spec fn spec_count(r: Rhythm) -> nat {
    spec_count_upto(r, r.segments.len() as nat)
}

/// The times of the events never go back, and all lie between the start of
/// the line and `end`.
pub open spec fn in_order_until(events: Seq<Event>, end: real) -> bool {
    &&& 0real <= end
    &&& forall|i: int, j: int|
        0 <= i <= j < events.len() ==> (#[trigger] events[i]).time@ <= (#[trigger] events[j]).time@
    &&& forall|i: int| 0 <= i < events.len() ==> 0real <= (#[trigger] events[i]).time@ <= end
}

/// The times of the events never go back.
pub open spec fn in_order(events: Seq<Event>) -> bool {
    forall|i: int, j: int|
        0 <= i <= j < events.len() ==> (#[trigger] events[i]).time@ <= (#[trigger] events[j]).time@
}

proof fn lemma_tied_count(durs: Seq<NoteDuration>, k: nat, state: Placed)
    requires
        k <= durs.len(),
    ensures
        spec_place_tied(durs, k, state) matches Some(p) ==> p.0.len() == state.0.len() + k,
    decreases k,
{
    if k > 0 {
        lemma_tied_count(durs, (k - 1) as nat, state);
    }
}

proof fn lemma_inner_count(
    inner: Seq<Event>,
    k: nat,
    normal: u32,
    actual: u32,
    start: Time<WholeNotes>,
    events: Seq<Event>,
)
    requires
        k <= inner.len(),
    ensures
        spec_place_inner(inner, k, normal, actual, start, events) matches Some(out) ==> out.len()
            == events.len() + k,
    decreases k,
{
    if k > 0 {
        lemma_inner_count(inner, (k - 1) as nat, normal, actual, start, events);
    }
}

/// The first `n` segments flatten into as many events as they hold written
/// notes and rests.
pub proof fn lemma_flatten_count_upto(r: Rhythm, n: nat)
    requires
        n <= r.segments.len(),
    ensures
        spec_flatten_upto(r, n) matches Some(p) ==> p.0.len() == spec_count_upto(r, n),
    decreases r, n,
{
    if n > 0 {
        lemma_flatten_count_upto(r, (n - 1) as nat);
        match spec_flatten_upto(r, (n - 1) as nat) {
            Some(before) => {
                match r.segments[n - 1] {
                    RhythmSegment::Note(_) => {},
                    RhythmSegment::Rest(_) => {},
                    RhythmSegment::TiedNote(durs) => {
                        lemma_tied_count(durs@, durs.len() as nat, before);
                    },
                    RhythmSegment::Tuplet {
                        actual,
                        normal,
                        note_duration,
                        rhythm,
                        do_not_construct,
                    } => {
                        lemma_flatten_count_upto(*rhythm, rhythm.segments.len() as nat);
                        match spec_flatten_upto(*rhythm, rhythm.segments.len() as nat) {
                            Some(sub) => {
                                lemma_inner_count(sub.0, sub.0.len(), normal, actual, before.1, before.0);
                            },
                            None => {},
                        }
                    },
                }
            },
            None => {},
        }
    }
}

/// A rhythm flattens into as many events as it holds written notes and
/// rests, counted through every tuplet; a tied note of `n` written values
/// gives `n` events.
pub proof fn lemma_flatten_count(r: Rhythm)
    ensures
        spec_flatten(r) matches Some(events) ==> events.len() == spec_count(r),
{
    lemma_flatten_count_upto(r, r.segments.len() as nat);
}

/// The ratio by which the times within a tuplet are rescaled.
pub open spec fn rescale_factor(normal: u32, actual: u32) -> real {
    normal as real / actual as real
}

proof fn lemma_place_note_in_order(state: Placed, kind: EventKind, d: NoteDuration, tied: bool)
    requires
        state.1.wf(),
        times_wf(state.0),
        in_order_until(state.0, state.1@),
    ensures
        spec_place_note(state, kind, d, tied) matches Some(p) ==> {
            &&& p.1.wf()
            &&& times_wf(p.0)
            &&& in_order_until(p.0, p.1@)
            &&& p.1@ == state.1@ + d.whole_notes()
        },
{
    d.lemma_to_duration();
    lemma_add_value(state.1.0.0, d.spec_to_duration().0.0);
    match spec_place_note(state, kind, d, tied) {
        Some(p) => {
            let n = state.0.len() as int;
            assert(p.0.len() == n + 1);
            assert(p.0[n].time == state.1);
            assert forall|i: int| 0 <= i < p.0.len() implies (#[trigger] p.0[i]).time.wf() && 0real
                <= p.0[i].time@ <= state.1@ by {
                if i < n {
                    assert(p.0[i] == state.0[i]);
                }
            }
            assert forall|i: int, j: int| 0 <= i <= j < p.0.len() implies (#[trigger] p.0[i]).time@
                <= (#[trigger] p.0[j]).time@ by {
                if j < n {
                    assert(p.0[i] == state.0[i]);
                    assert(p.0[j] == state.0[j]);
                }
            }
        },
        None => {},
    }
}

proof fn lemma_tied_in_order(durs: Seq<NoteDuration>, k: nat, state: Placed)
    requires
        k <= durs.len(),
        state.1.wf(),
        times_wf(state.0),
        in_order_until(state.0, state.1@),
    ensures
        spec_place_tied(durs, k, state) matches Some(p) ==> {
            &&& p.1.wf()
            &&& times_wf(p.0)
            &&& in_order_until(p.0, p.1@)
            &&& p.1@ == state.1@ + total(spans(durs).take(k as int))
        },
    decreases k,
{
    if k == 0 {
        assert(spans(durs).take(0).len() == 0);
    } else {
        lemma_tied_in_order(durs, (k - 1) as nat, state);
        match spec_place_tied(durs, (k - 1) as nat, state) {
            Some(before) => {
                lemma_place_note_in_order(before, EventKind::Start, durs[k - 1], k < durs.len());
                let prefix = spans(durs).take(k as int);
                assert(prefix.drop_last() =~= spans(durs).take(k - 1));
                assert(prefix.last() == durs[k - 1].spec_to_duration());
                durs[k - 1].lemma_to_duration();
            },
            None => {},
        }
    }
}

/// A rescaled time that fits is the start of the tuplet plus the inner time
/// times `normal / actual`.
pub proof fn lemma_rescale_value(
    time: Time<WholeNotes>,
    normal: u32,
    actual: u32,
    start: Time<WholeNotes>,
)
    requires
        time.wf(),
        start.wf(),
    ensures
        spec_rescale(time, normal, actual, start) matches Some(t) ==> {
            &&& t.wf()
            &&& actual != 0
            &&& t@ == start@ + time@ * rescale_factor(normal, actual)
        },
{
    lemma_new_value(normal as i64, actual as i64);
    match Rational::spec_new(normal as i64, actual as i64) {
        Some(ratio) => {
            lemma_mul_value(time.0.0, ratio);
            match time.0.0.spec_checked_mul(ratio) {
                Some(offset) => {
                    lemma_add_value(start.0.0, offset);
                },
                None => {},
            }
        },
        None => {},
    }
}

/// Where the inner events of a tuplet land: behind the events placed
/// before, each at the start of the tuplet plus its own time times
/// `normal / actual`, and otherwise unchanged.
pub proof fn lemma_inner_times(
    inner: Seq<Event>,
    k: nat,
    normal: u32,
    actual: u32,
    start: Time<WholeNotes>,
    events: Seq<Event>,
)
    requires
        k <= inner.len(),
        times_wf(inner),
        times_wf(events),
        start.wf(),
    ensures
        spec_place_inner(inner, k, normal, actual, start, events) matches Some(out) ==> {
            &&& out.len() == events.len() + k
            &&& times_wf(out)
            &&& k > 0 ==> actual != 0
            &&& forall|i: int| 0 <= i < events.len() ==> out[i] == events[i]
            &&& forall|i: int|
                events.len() <= i < out.len() ==> {
                    &&& (#[trigger] out[i]).time@ == start@ + inner[i - events.len()].time@
                        * rescale_factor(normal, actual)
                    &&& out[i].kind == inner[i - events.len()].kind
                    &&& out[i].duration == inner[i - events.len()].duration
                    &&& out[i].tied_to_next == inner[i - events.len()].tied_to_next
                }
        },
    decreases k,
{
    if k > 0 {
        lemma_inner_times(inner, (k - 1) as nat, normal, actual, start, events);
        lemma_rescale_value(inner[k - 1].time, normal, actual, start);
        match spec_place_inner(inner, k, normal, actual, start, events) {
            Some(out) => {
                let before = spec_place_inner(inner, (k - 1) as nat, normal, actual, start, events)->Some_0;
                assert forall|i: int| events.len() <= i < out.len() implies {
                    &&& (#[trigger] out[i]).time@ == start@ + inner[i - events.len()].time@
                        * rescale_factor(normal, actual)
                    &&& out[i].kind == inner[i - events.len()].kind
                    &&& out[i].duration == inner[i - events.len()].duration
                    &&& out[i].tied_to_next == inner[i - events.len()].tied_to_next
                } by {
                    if i < out.len() - 1 {
                        assert(out[i] == before[i]);
                    }
                }
                assert forall|i: int| 0 <= i < out.len() implies (#[trigger] out[i]).time.wf() by {
                    if i < out.len() - 1 {
                        assert(out[i] == before[i]);
                    }
                }
                assert forall|i: int| 0 <= i < events.len() implies out[i] == events[i] by {
                    assert(out[i] == before[i]);
                }
            },
            None => {},
        }
    }
}

proof fn lemma_inner_in_order(
    inner: Seq<Event>,
    normal: u32,
    actual: u32,
    start: Time<WholeNotes>,
    events: Seq<Event>,
    bound: real,
)
    requires
        times_wf(inner),
        in_order_until(inner, bound),
        bound >= 0real,
        times_wf(events),
        start.wf(),
        in_order_until(events, start@),
        actual != 0,
    ensures
        spec_place_inner(inner, inner.len(), normal, actual, start, events) matches Some(out)
            ==> in_order_until(out, start@ + bound * rescale_factor(normal, actual)),
{
    lemma_inner_times(inner, inner.len(), normal, actual, start, events);
    match spec_place_inner(inner, inner.len(), normal, actual, start, events) {
        Some(out) => {
            let q = rescale_factor(normal, actual);
            let n = events.len() as int;
            assert(q >= 0real) by (nonlinear_arith)
                requires
                    q == normal as real / actual as real,
                    actual > 0,
                    normal >= 0,
            ;
            assert(bound * q >= 0real) by (nonlinear_arith)
                requires
                    bound >= 0real,
                    q >= 0real,
            ;
            assert forall|i: int| 0 <= i < out.len() implies 0real <= (#[trigger] out[i]).time@
                <= start@ + bound * q by {
                if i < n {
                    assert(out[i] == events[i]);
                } else {
                    let j = i - n;
                    assert(out[i].time@ == start@ + inner[j].time@ * q);
                    let t = inner[j].time@;
                    assert(0real <= t * q <= bound * q) by (nonlinear_arith)
                        requires
                            0real <= t <= bound,
                            q >= 0real,
                    ;
                }
            }
            assert forall|i: int, j: int| 0 <= i <= j < out.len() implies (#[trigger] out[i]).time@
                <= (#[trigger] out[j]).time@ by {
                if j < n {
                    assert(out[i] == events[i]);
                    assert(out[j] == events[j]);
                } else if i < n {
                    assert(out[i] == events[i]);
                    let b = j - n;
                    assert(out[j].time@ == start@ + inner[b].time@ * q);
                    let t = inner[b].time@;
                    assert(0real <= t * q) by (nonlinear_arith)
                        requires
                            0real <= t,
                            q >= 0real,
                    ;
                } else {
                    let a = i - n;
                    let b = j - n;
                    assert(out[i].time@ == start@ + inner[a].time@ * q);
                    assert(out[j].time@ == start@ + inner[b].time@ * q);
                    let s = inner[a].time@;
                    let t = inner[b].time@;
                    assert(s * q <= t * q) by (nonlinear_arith)
                        requires
                            s <= t,
                            q >= 0real,
                    ;
                }
            }
        },
        None => {},
    }
}

/// The events of the first `n` segments of a well-formed rhythm are in
/// order of time, none later than the time reached, and the time reached
/// is the length of those segments.
pub proof fn lemma_flatten_in_order_upto(r: Rhythm, n: nat)
    requires
        r.wf(),
        n <= r.segments.len(),
    ensures
        spec_flatten_upto(r, n) matches Some(p) ==> {
            &&& p.1.wf()
            &&& times_wf(p.0)
            &&& in_order_until(p.0, p.1@)
            &&& p.1@ == whole_notes_of(r.segments@.take(n as int))
        },
    decreases r, n,
{
    if n == 0 {
        lemma_integer_value(0);
        assert(r.segments@.take(0).len() == 0);
    } else {
        lemma_flatten_in_order_upto(r, (n - 1) as nat);
        let segment = r.segments[n - 1];
        let prefix = r.segments@.take(n as int);
        assert(prefix.drop_last() =~= r.segments@.take(n - 1));
        assert(prefix.last() == segment);
        assert(segment.wf());
        match spec_flatten_upto(r, (n - 1) as nat) {
            Some(before) => {
                match segment {
                    RhythmSegment::Note(d) => {
                        lemma_place_note_in_order(before, EventKind::Start, d, false);
                    },
                    RhythmSegment::Rest(d) => {
                        lemma_place_note_in_order(before, EventKind::Stop, d, false);
                    },
                    RhythmSegment::TiedNote(durs) => {
                        lemma_tied_in_order(durs@, durs.len() as nat, before);
                        assert(spans(durs@).take(durs.len() as int) =~= spans(durs@));
                    },
                    RhythmSegment::Tuplet {
                        actual,
                        normal,
                        note_duration,
                        rhythm,
                        do_not_construct,
                    } => {
                        let full = rhythm.segments.len() as nat;
                        lemma_flatten_in_order_upto(*rhythm, full);
                        assert(rhythm.segments@.take(full as int) =~= rhythm.segments@);
                        lemma_duration_of_value(rhythm.segments@);
                        lemma_times_value(note_duration, actual);
                        lemma_times_value(note_duration, normal);
                        note_duration.lemma_to_duration();
                        match spec_flatten_upto(*rhythm, full) {
                            Some(sub) => {
                                lemma_inner_times(sub.0, sub.0.len(), normal, actual, before.1, before.0);
                                let note = note_duration.whole_notes();
                                let bound = note * (actual as real);
                                let width = note * (normal as real);
                                assert(bound >= 0real && width >= 0real) by (nonlinear_arith)
                                    requires
                                        note > 0real,
                                        bound == note * (actual as real),
                                        width == note * (normal as real),
                                        actual >= 0,
                                        normal >= 0,
                                ;
                                if actual != 0 {
                                    lemma_inner_in_order(sub.0, normal, actual, before.1, before.0, bound);
                                    assert(bound * rescale_factor(normal, actual) == width)
                                        by (nonlinear_arith)
                                        requires
                                            bound == note * (actual as real),
                                            width == note * (normal as real),
                                            rescale_factor(normal, actual) == normal as real
                                                / actual as real,
                                            actual > 0,
                                    ;
                                }
                                match spec_times(note_duration, normal) {
                                    Some(span) => {
                                        lemma_add_value(before.1.0.0, span.0.0);
                                    },
                                    None => {},
                                }
                            },
                            None => {},
                        }
                    },
                }
            },
            None => {},
        }
    }
}

/// The events of a well-formed rhythm come in order of time: none is
/// earlier than the one before it. All lie between the start of the line
/// and its end.
pub proof fn lemma_flatten_in_order(r: Rhythm)
    requires
        r.wf(),
    ensures
        spec_flatten(r) matches Some(events) ==> in_order(events) && in_order_until(
            events,
            r.whole_notes(),
        ),
{
    lemma_flatten_in_order_upto(r, r.segments.len() as nat);
    assert(r.segments@.take(r.segments.len() as int) =~= r.segments@);
}

proof fn lemma_tied_times_wf(durs: Seq<NoteDuration>, k: nat, state: Placed)
    requires
        k <= durs.len(),
        state.1.wf(),
        times_wf(state.0),
    ensures
        spec_place_tied(durs, k, state) matches Some(p) ==> p.1.wf() && times_wf(p.0),
    decreases k,
{
    if k > 0 {
        lemma_tied_times_wf(durs, (k - 1) as nat, state);
        match spec_place_tied(durs, (k - 1) as nat, state) {
            Some(before) => {
                durs[k - 1].lemma_to_duration();
                lemma_add_value(before.1.0.0, durs[k - 1].spec_to_duration().0.0);
            },
            None => {},
        }
    }
}

/// The time of every event of the first `n` segments, and the time reached
/// after them, is well formed.
pub proof fn lemma_flatten_times_wf_upto(r: Rhythm, n: nat)
    requires
        n <= r.segments.len(),
    ensures
        spec_flatten_upto(r, n) matches Some(p) ==> p.1.wf() && times_wf(p.0),
    decreases r, n,
{
    if n == 0 {
        lemma_integer_value(0);
    } else {
        lemma_flatten_times_wf_upto(r, (n - 1) as nat);
        match spec_flatten_upto(r, (n - 1) as nat) {
            Some(before) => {
                match r.segments[n - 1] {
                    RhythmSegment::Note(d) => {
                        d.lemma_to_duration();
                        lemma_add_value(before.1.0.0, d.spec_to_duration().0.0);
                    },
                    RhythmSegment::Rest(d) => {
                        d.lemma_to_duration();
                        lemma_add_value(before.1.0.0, d.spec_to_duration().0.0);
                    },
                    RhythmSegment::TiedNote(durs) => {
                        lemma_tied_times_wf(durs@, durs.len() as nat, before);
                    },
                    RhythmSegment::Tuplet {
                        actual,
                        normal,
                        note_duration,
                        rhythm,
                        do_not_construct,
                    } => {
                        lemma_flatten_times_wf_upto(*rhythm, rhythm.segments.len() as nat);
                        lemma_times_value(note_duration, normal);
                        match spec_flatten_upto(*rhythm, rhythm.segments.len() as nat) {
                            Some(sub) => {
                                lemma_inner_times(sub.0, sub.0.len(), normal, actual, before.1, before.0);
                                match spec_times(note_duration, normal) {
                                    Some(span) => {
                                        lemma_add_value(before.1.0.0, span.0.0);
                                    },
                                    None => {},
                                }
                            },
                            None => {},
                        }
                    },
                }
            },
            None => {},
        }
    }
}

/// The time of every event of a flattened rhythm is well formed.
pub proof fn lemma_flatten_times_wf(r: Rhythm)
    ensures
        spec_flatten(r) matches Some(events) ==> times_wf(events),
{
    lemma_flatten_times_wf_upto(r, r.segments.len() as nat);
}

} // verus!
