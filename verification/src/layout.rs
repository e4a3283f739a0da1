//! The exact part of laying out a polyrhythm: which rhythms there are, how
//! long each written value sounds, and the shortest and longest of a set of
//! spans. Turning spans into pixels is left to the caller.

use vstd::prelude::*;
use crate::headroom::{lemma_durations_fit, rhythm_fits_grid};
use crate::polyrhythm::Polyrhythm;
use crate::rational::{lemma_mul_value, lemma_new_value, Rational};
use crate::rhythm::{spans, lemma_spans_wf, NoteDuration, Rhythm, RhythmSegment};
use crate::time::{all_wf, Duration};
use crate::timeline::spec_count_upto;
use crate::units::WholeNotes;

verus! {

/// A span within a tuplet as it sounds: times `normal / actual`.
pub open spec fn spec_scale_span(span: Duration<WholeNotes>, normal: u32, actual: u32) -> Option<
    Duration<WholeNotes>,
> {
    match Rational::spec_new(normal as i64, actual as i64) {
        Some(ratio) => span.spec_checked_mul(ratio),
        None => None,
    }
}

/// The first `k` spans of a tuplet's inner rhythm, scaled, after `before`.
pub open spec fn spec_scale_spans(
    inner: Seq<Duration<WholeNotes>>,
    k: nat,
    normal: u32,
    actual: u32,
    before: Seq<Duration<WholeNotes>>,
) -> Option<Seq<Duration<WholeNotes>>>
    decreases k,
{
    if k == 0 || k > inner.len() {
        Some(before)
    } else {
        match (
            spec_scale_spans(inner, (k - 1) as nat, normal, actual, before),
            spec_scale_span(inner[k - 1], normal, actual),
        ) {
            (Some(scaled), Some(span)) => Some(scaled.push(span)),
            _ => None,
        }
    }
}

/// How long each written note and rest of the first `n` segments sounds,
/// in the order written; nothing as soon as one span does not fit.
pub open spec fn spec_durations_upto(r: Rhythm, n: nat) -> Option<Seq<Duration<WholeNotes>>>
    decreases r, n,
{
    if n == 0 || n > r.segments.len() {
        Some(Seq::empty())
    } else {
        let inner = match r.segments[n - 1] {
            RhythmSegment::Tuplet { actual, normal, note_duration, rhythm, do_not_construct } => {
                spec_durations_upto(*rhythm, rhythm.segments.len() as nat)
            },
            _ => Some(Seq::empty()),
        };
        match spec_durations_upto(r, (n - 1) as nat) {
            Some(before) => match r.segments[n - 1] {
                RhythmSegment::Note(d) => Some(before.push(d.spec_to_duration())),
                RhythmSegment::TiedNote(durs) => Some(before + spans(durs@)),
                RhythmSegment::Rest(d) => Some(before.push(d.spec_to_duration())),
                RhythmSegment::Tuplet { actual, normal, note_duration, rhythm, do_not_construct } => {
                    match inner {
                        Some(sub) => spec_scale_spans(sub, sub.len(), normal, actual, before),
                        None => None,
                    }
                },
            },
            None => None,
        }
    }
}

/// How long each written note and rest of a rhythm sounds.
pub open spec fn spec_durations(r: Rhythm) -> Option<Seq<Duration<WholeNotes>>> {
    spec_durations_upto(r, r.segments.len() as nat)
}

proof fn lemma_scale_spans(
    inner: Seq<Duration<WholeNotes>>,
    k: nat,
    normal: u32,
    actual: u32,
    before: Seq<Duration<WholeNotes>>,
)
    requires
        k <= inner.len(),
        all_wf(inner),
        all_wf(before),
    ensures
        spec_scale_spans(inner, k, normal, actual, before) matches Some(out) ==> all_wf(out)
            && out.len() == before.len() + k,
    decreases k,
{
    if k > 0 {
        lemma_scale_spans(inner, (k - 1) as nat, normal, actual, before);
        lemma_new_value(normal as i64, actual as i64);
        match Rational::spec_new(normal as i64, actual as i64) {
            Some(ratio) => {
                lemma_mul_value(inner[k - 1].0.0, ratio);
            },
            None => {},
        }
    }
}

proof fn lemma_scale_spans_prefix_fails(
    inner: Seq<Duration<WholeNotes>>,
    k: nat,
    normal: u32,
    actual: u32,
    before: Seq<Duration<WholeNotes>>,
)
    requires
        k <= inner.len(),
        spec_scale_spans(inner, k, normal, actual, before) is None,
    ensures
        spec_scale_spans(inner, inner.len(), normal, actual, before) is None,
    decreases inner.len() - k,
{
    if k < inner.len() {
        lemma_scale_spans_prefix_fails(inner, k + 1, normal, actual, before);
    }
}

proof fn lemma_durations_prefix_fails(r: Rhythm, n: nat)
    requires
        n <= r.segments.len(),
        spec_durations_upto(r, n) is None,
    ensures
        spec_durations(r) is None,
    decreases r.segments.len() - n,
{
    if n < r.segments.len() {
        lemma_durations_prefix_fails(r, n + 1);
    }
}

/// There is one span for each written note and rest, and each is well
/// formed.
pub proof fn lemma_durations_count(r: Rhythm, n: nat)
    requires
        n <= r.segments.len(),
    ensures
        spec_durations_upto(r, n) matches Some(out) ==> all_wf(out) && out.len()
            == spec_count_upto(r, n),
    decreases r, n,
{
    if n > 0 {
        lemma_durations_count(r, (n - 1) as nat);
        match spec_durations_upto(r, (n - 1) as nat) {
            Some(before) => {
                match r.segments[n - 1] {
                    RhythmSegment::Note(d) => {
                        d.lemma_to_duration();
                    },
                    RhythmSegment::Rest(d) => {
                        d.lemma_to_duration();
                    },
                    RhythmSegment::TiedNote(durs) => {
                        lemma_spans_wf(durs@);
                    },
                    RhythmSegment::Tuplet {
                        actual,
                        normal,
                        note_duration,
                        rhythm,
                        do_not_construct,
                    } => {
                        lemma_durations_count(*rhythm, rhythm.segments.len() as nat);
                        match spec_durations_upto(*rhythm, rhythm.segments.len() as nat) {
                            Some(sub) => {
                                lemma_scale_spans(sub, sub.len(), normal, actual, before);
                            },
                            None => {},
                        }
                    },
                }
            },
            None => {},
        }
    }
}

/// Puts the spans of a tuplet's inner rhythm, each times `normal / actual`,
/// after `notes`. Returns whether every span fitted.
fn scale_spans(
    inner: &Vec<Duration<WholeNotes>>,
    normal: u32,
    actual: u32,
    notes: &mut Vec<Duration<WholeNotes>>,
) -> (scaled: bool)
    requires
        all_wf(inner@),
    ensures
        scaled ==> spec_scale_spans(inner@, inner.len() as nat, normal, actual, old(notes)@)
            == Some(final(notes)@),
        !scaled ==> spec_scale_spans(inner@, inner.len() as nat, normal, actual, old(notes)@)
            is None,
{
    let ghost before = notes@;
    let ratio = Rational::new(normal as i64, actual as i64);
    let mut k: usize = 0;
    while k < inner.len()
        invariant
            k <= inner.len(),
            all_wf(inner@),
            ratio == Rational::spec_new(normal as i64, actual as i64),
            ratio matches Some(q) ==> q.wf(),
            before == old(notes)@,
            spec_scale_spans(inner@, k as nat, normal, actual, before) == Some(notes@),
        decreases inner.len() - k,
    {
        let span = match ratio {
            Some(ratio) => inner[k].checked_mul(ratio),
            None => None,
        };
        match span {
            Some(span) => {
                notes.push(span);
            },
            None => {
                proof {
                    lemma_scale_spans_prefix_fails(inner@, (k + 1) as nat, normal, actual, before);
                }
                return false;
            },
        }
        k = k + 1;
    }
    true
}

/// Puts the spans of the written values of a tied note after `notes`.
fn push_spans(durs: &Vec<NoteDuration>, notes: &mut Vec<Duration<WholeNotes>>)
    ensures
        final(notes)@ == old(notes)@ + spans(durs@),
{
    let mut k: usize = 0;
    while k < durs.len()
        invariant
            k <= durs.len(),
            notes@ =~= old(notes)@ + spans(durs@).take(k as int),
        decreases durs.len() - k,
    {
        notes.push(durs[k].to_duration());
        k = k + 1;
    }
    proof {
        assert(spans(durs@).take(k as int) =~= spans(durs@));
    }
}

/// How long each written note and rest of a rhythm sounds, in the order
/// written: its note value, and within a tuplet that value times
/// `normal / actual` for each tuplet around it. Returns nothing where a
/// span does not fit; it fits wherever `rhythm_fits_grid` holds of the
/// rhythm and some grid.
pub fn flatten_rhythm_to_durations(r: &Rhythm) -> (res: Option<Vec<Duration<WholeNotes>>>)
    ensures
        spec_durations(*r) == (match res {
            Some(v) => Some(v@),
            None => None,
        }),
        res matches Some(v) ==> all_wf(v@) && v.len() == spec_count_upto(
            *r,
            r.segments.len() as nat,
        ),
        forall|m: int| r.wf() && #[trigger] rhythm_fits_grid(*r, m) ==> res is Some,
    decreases r,
{
    proof {
        lemma_durations_count(*r, r.segments.len() as nat);
        if r.wf() {
            assert forall|m: int| #[trigger] rhythm_fits_grid(*r, m) implies spec_durations(*r)
                is Some by {
                lemma_durations_fit(*r, m);
            }
        }
    }
    let mut notes: Vec<Duration<WholeNotes>> = Vec::new();
    let mut i: usize = 0;
    while i < r.segments.len()
        invariant
            i <= r.segments.len(),
            spec_durations_upto(*r, i as nat) == Some(notes@),
            forall|m: int| r.wf() && #[trigger] rhythm_fits_grid(*r, m) ==> spec_durations(*r) is Some,
        decreases r.segments.len() - i,
    {
        let placed = match &r.segments[i] {
            RhythmSegment::Note(dur) => {
                notes.push(dur.to_duration());
                true
            },
            RhythmSegment::TiedNote(durs) => {
                push_spans(durs, &mut notes);
                true
            },
            RhythmSegment::Rest(dur) => {
                notes.push(dur.to_duration());
                true
            },
            RhythmSegment::Tuplet { actual, normal, note_duration: _, rhythm, do_not_construct: _ } => {
                match flatten_rhythm_to_durations(rhythm) {
                    Some(sub) => scale_spans(&sub, *normal, *actual, &mut notes),
                    None => false,
                }
            },
        };
        if !placed {
            proof {
                lemma_durations_prefix_fails(*r, (i + 1) as nat);
            }
            return None;
        }
        i = i + 1;
    }
    Some(notes)
}

/// `best` is the shortest span of `spans`, or `fallback` where there is
/// none.
pub open spec fn is_shortest(
    best: Duration<WholeNotes>,
    spans: Seq<Duration<WholeNotes>>,
    fallback: Duration<WholeNotes>,
) -> bool {
    if spans.len() == 0 {
        best == fallback
    } else {
        spans.contains(best) && forall|i: int| 0 <= i < spans.len() ==> best@ <= (#[trigger] spans[i])@
    }
}

/// `best` is the longest span of `spans`, or `fallback` where there is
/// none.
pub open spec fn is_longest(
    best: Duration<WholeNotes>,
    spans: Seq<Duration<WholeNotes>>,
    fallback: Duration<WholeNotes>,
) -> bool {
    if spans.len() == 0 {
        best == fallback
    } else {
        spans.contains(best) && forall|i: int| 0 <= i < spans.len() ==> (#[trigger] spans[i])@ <= best@
    }
}

/// The shortest of the spans, or `fallback` where there is none.
pub fn shortest_duration(spans: &Vec<Duration<WholeNotes>>, fallback: Duration<WholeNotes>) -> (best:
    Duration<WholeNotes>)
    requires
        all_wf(spans@),
    ensures
        is_shortest(best, spans@, fallback),
{
    if spans.len() == 0 {
        return fallback;
    }
    let mut best = spans[0];
    let mut i: usize = 1;
    while i < spans.len()
        invariant
            1 <= i <= spans.len(),
            all_wf(spans@),
            best.wf(),
            spans@.contains(best),
            forall|j: int| 0 <= j < i ==> best@ <= (#[trigger] spans@[j])@,
        decreases spans.len() - i,
    {
        if spans[i].lt(&best) {
            best = spans[i];
        }
        i = i + 1;
    }
    best
}

/// The longest of the spans, or `fallback` where there is none.
pub fn longest_duration(spans: &Vec<Duration<WholeNotes>>, fallback: Duration<WholeNotes>) -> (best:
    Duration<WholeNotes>)
    requires
        all_wf(spans@),
    ensures
        is_longest(best, spans@, fallback),
{
    if spans.len() == 0 {
        return fallback;
    }
    let mut best = spans[0];
    let mut i: usize = 1;
    while i < spans.len()
        invariant
            1 <= i <= spans.len(),
            all_wf(spans@),
            best.wf(),
            spans@.contains(best),
            forall|j: int| 0 <= j < i ==> (#[trigger] spans@[j])@ <= best@,
        decreases spans.len() - i,
    {
        if best.lt(&spans[i]) {
            best = spans[i];
        }
        i = i + 1;
    }
    best
}

/// The rhythms of the first `n` rhythm lines: each original followed by
/// its approximations.
pub open spec fn spec_lines_upto(p: Polyrhythm, n: nat) -> Seq<Rhythm>
    decreases n,
{
    if n == 0 || n > p.rhythms.len() {
        Seq::empty()
    } else {
        spec_lines_upto(p, (n - 1) as nat).push(p.rhythms[n - 1].original) + p.rhythms[n
            - 1].approximations@
    }
}

/// Every rhythm of a polyrhythm in the order drawn: the pulse, if there is
/// one, then each original followed by its approximations.
pub open spec fn spec_all_rhythms(p: Polyrhythm) -> Seq<Rhythm> {
    (match p.pulse {
        Some(pulse) => seq![pulse],
        None => Seq::empty(),
    }) + spec_lines_upto(p, p.rhythms.len() as nat)
}

/// The rhythms that the references of a sequence point to.
pub open spec fn referents(refs: Seq<&Rhythm>) -> Seq<Rhythm> {
    Seq::new(refs.len(), |i: int| *refs[i])
}

/// Every rhythm of a polyrhythm in the order drawn: the pulse, if there is
/// one, then each original followed by its approximations.
#[verifier::loop_isolation(false)]
pub fn all_rhythms(p: &Polyrhythm) -> (res: Vec<&Rhythm>)
    ensures
        referents(res@) =~= spec_all_rhythms(*p),
{
    let mut all: Vec<&Rhythm> = Vec::new();
    match &p.pulse {
        Some(pulse) => {
            all.push(pulse);
        },
        None => {},
    }
    let ghost head = referents(all@);
    let mut i: usize = 0;
    while i < p.rhythms.len()
        invariant
            i <= p.rhythms.len(),
            referents(all@) =~= head + spec_lines_upto(*p, i as nat),
        decreases p.rhythms.len() - i,
    {
        let line = &p.rhythms[i];
        let ghost lines = spec_lines_upto(*p, i as nat);
        all.push(&line.original);
        let ghost before = referents(all@);
        proof {
            assert(before =~= (head + lines).push(line.original));
        }
        let mut k: usize = 0;
        while k < line.approximations.len()
            invariant
                k <= line.approximations.len(),
                referents(all@) =~= before + line.approximations@.take(k as int),
            decreases line.approximations.len() - k,
        {
            let ghost placed = referents(all@);
            all.push(&line.approximations[k]);
            proof {
                assert(referents(all@) =~= placed.push(line.approximations@[k as int]));
                assert(line.approximations@.take(k + 1) =~= line.approximations@.take(
                    k as int,
                ).push(line.approximations@[k as int]));
            }
            k = k + 1;
        }
        proof {
            assert(line.approximations@.take(k as int) =~= line.approximations@);
            assert(spec_lines_upto(*p, (i + 1) as nat) =~= lines.push(line.original)
                + line.approximations@);
            assert(referents(all@) =~= head + spec_lines_upto(*p, (i + 1) as nat));
        }
        i = i + 1;
    }
    all
}

} // verus!
