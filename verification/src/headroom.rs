//! For which rhythms flattening is certain to succeed. Every time of a
//! rhythm is a whole number of parts of some grid: 2048 parts to the whole
//! note where there is no tuplet, finer where tuplets divide the time
//! further. Where such a grid exists and the rhythm is short enough for it,
//! every step of flattening fits.

use vstd::prelude::*;
use vstd::arithmetic::div_mod::lemma_fundamental_div_mod;
use crate::grid::{
    grid_numer, lemma_add_on_grid, lemma_duration_exact, lemma_finer_grid, lemma_grid_parts,
    lemma_mul_on_grid, lemma_note_units, lemma_notes_units_grow, lemma_segment_units,
    lemma_segments_units_grow, lemma_sub_on_grid, lemma_times_on_grid, lemma_within_grid,
    note_units, notes_units, on_grid, rhythm_units, segment_units, segments_units, within_grid,
};
use crate::layout::{spec_durations, spec_durations_upto, spec_scale_span, spec_scale_spans};
use crate::lowest_terms::lemma_lowest_form;
use crate::polyrhythm::{
    marks_of, shorter, spec_flatten, spec_flatten_to_marks, spec_flatten_upto, spec_pair_error,
    spec_pairs_error, spec_penalised, spec_place_inner, spec_place_note, spec_place_tied,
    spec_rescale, spec_score_error, spec_score_marks, Event, EventKind, Mark, Placed,
};
use crate::rational::{lemma_integer_value, lemma_lowest_value, lemma_value_order, Rational};
use crate::rhythm::{spans, spec_times, NoteDuration, Rhythm, RhythmSegment};
use crate::time::{Duration, Time};
use crate::timeline::{lemma_flatten_count, spec_count};
use crate::units::{lemma_tempo_factor, spec_seconds_per_whole_note, Seconds, WholeNotes};

verus! {

/// Whether `m` parts to the whole note are fine enough for a segment: the
/// count of a tuplet divides `m`, and what is left is fine enough for its
/// inner rhythm.
pub open spec fn segment_fits_grid(s: RhythmSegment, m: int) -> bool
    decreases s,
{
    match s {
        RhythmSegment::Tuplet { actual, normal, note_duration, rhythm, do_not_construct } => {
            &&& actual > 0
            &&& m % (actual as int) == 0
            &&& rhythm_fits_grid(*rhythm, m / (actual as int))
        },
        _ => true,
    }
}

/// Whether `m` parts to the whole note are fine enough for every time of a
/// rhythm, and the rhythm short enough for them: `m` is a multiple of 2048
/// and of the count of every tuplet, in turn, and the length of the rhythm
/// in parts of `m`, times `m`, fits.
pub open spec fn rhythm_fits_grid(r: Rhythm, m: int) -> bool
    decreases r,
{
    &&& m > 0
    &&& m % 2048 == 0
    &&& m * m <= i64::MAX
    &&& rhythm_units(r) * (m / 2048) * m <= i64::MAX
    &&& forall|i: int|
        0 <= i < r.segments.len() ==> segment_fits_grid(#[trigger] r.segments[i], m)
}

/// The time reached is `x` parts of `m`, and every event so far lies on
/// the grid, no later than that.
pub open spec fn placed_within(p: Placed, m: int, x: int) -> bool {
    &&& p.1.wf()
    &&& on_grid(p.1.0.0, x, m)
    &&& forall|i: int| 0 <= i < p.0.len() ==> within_grid((#[trigger] p.0[i]).time.0.0, m, x)
}

proof fn lemma_note_fits(
    state: Placed,
    kind: EventKind,
    d: NoteDuration,
    tied: bool,
    m: int,
    x: int,
)
    requires
        placed_within(state, m, x),
        m > 0,
        m % 2048 == 0,
        m * m <= i64::MAX,
        x >= 0,
        (x + note_units(d) * (m / 2048)) * m <= i64::MAX,
    ensures
        spec_place_note(state, kind, d, tied) matches Some(p) && placed_within(
            p,
            m,
            x + note_units(d) * (m / 2048),
        ),
{
    let s = m / 2048;
    let u = note_units(d);
    let span = d.spec_to_duration().0.0;
    d.lemma_to_duration();
    lemma_note_units(d);
    lemma_fundamental_div_mod(m, 2048);
    lemma_finer_grid(span, u, 2048, s);
    assert(u * s >= 0) by (nonlinear_arith)
        requires
            u > 0,
            s >= 0,
    ;
    lemma_add_on_grid(state.1.0.0, span, x, u * s, m);
    lemma_within_grid(state.1.0.0, x, m, x + u * s);
    let p = spec_place_note(state, kind, d, tied)->Some_0;
    assert forall|i: int| 0 <= i < p.0.len() implies within_grid(
        (#[trigger] p.0[i]).time.0.0,
        m,
        x + u * s,
    ) by {
        if i < state.0.len() {
            assert(p.0[i] == state.0[i]);
        }
    }
}

proof fn lemma_tied_fits(durs: Seq<NoteDuration>, k: nat, state: Placed, m: int, x: int)
    requires
        k <= durs.len(),
        placed_within(state, m, x),
        m > 0,
        m % 2048 == 0,
        m * m <= i64::MAX,
        x >= 0,
        (x + notes_units(durs, durs.len()) * (m / 2048)) * m <= i64::MAX,
    ensures
        spec_place_tied(durs, k, state) matches Some(p) && placed_within(
            p,
            m,
            x + notes_units(durs, k) * (m / 2048),
        ),
    decreases k,
{
    let s = m / 2048;
    if k == 0 {
        assert(notes_units(durs, 0) * s == 0) by (nonlinear_arith)
            requires
                notes_units(durs, 0) == 0,
        ;
    } else {
        lemma_tied_fits(durs, (k - 1) as nat, state, m, x);
        let before = spec_place_tied(durs, (k - 1) as nat, state)->Some_0;
        let a = notes_units(durs, (k - 1) as nat);
        let u = note_units(durs[k - 1]);
        let all = notes_units(durs, durs.len());
        lemma_notes_units_grow(durs, (k - 1) as nat, durs.len());
        lemma_notes_units_grow(durs, k, durs.len());
        lemma_note_units(durs[k - 1]);
        lemma_fundamental_div_mod(m, 2048);
        assert(a * s + u * s == (a + u) * s && 0 <= a * s && (a + u) * s <= all * s)
            by (nonlinear_arith)
            requires
                0 <= a,
                a + u <= all,
                s >= 0,
        ;
        assert((x + a * s + u * s) * m <= (x + all * s) * m) by (nonlinear_arith)
            requires
                a * s + u * s <= all * s,
                m > 0,
        ;
        lemma_note_fits(before, EventKind::Start, durs[k - 1], k < durs.len(), m, x + a * s);
    }
}

/// The ratio of a tuplet with a count other than zero is `normal` parts of
/// `actual`.
proof fn lemma_ratio_on_grid(normal: u32, actual: u32)
    requires
        actual > 0,
    ensures
        Rational::spec_new(normal as i64, actual as i64) matches Some(ratio) && ratio.wf()
            && on_grid(ratio, normal as int, actual as int),
{
    lemma_lowest_value(normal as int, actual as int);
    lemma_lowest_form(normal as int, actual as int);
}

proof fn lemma_rescale_fits(
    time: Time<WholeNotes>,
    normal: u32,
    actual: u32,
    start: Time<WholeNotes>,
    m: int,
    x: int,
    most: int,
)
    requires
        actual > 0,
        m > 0,
        m % (actual as int) == 0,
        m * m <= i64::MAX,
        within_grid(time.0.0, m / (actual as int), most),
        start.wf(),
        on_grid(start.0.0, x, m),
        x >= 0,
        (x + most * normal) * m <= i64::MAX,
    ensures
        spec_rescale(time, normal, actual, start) matches Some(t) && within_grid(
            t.0.0,
            m,
            x + most * normal,
        ),
{
    let inner_grid = m / (actual as int);
    let t = time.0.0;
    let xt = grid_numer(t, inner_grid);
    lemma_fundamental_div_mod(m, actual as int);
    assert(inner_grid > 0 && inner_grid * actual == m) by (nonlinear_arith)
        requires
            m == actual * inner_grid,
            m > 0,
            actual > 0,
    ;
    lemma_grid_parts(t, inner_grid);
    lemma_ratio_on_grid(normal, actual);
    let ratio = Rational::spec_new(normal as i64, actual as i64)->Some_0;
    assert(0 <= xt * normal <= most * normal) by (nonlinear_arith)
        requires
            0 <= xt <= most,
            normal >= 0,
    ;
    assert(m <= m * m && x + xt * normal <= (x + most * normal) * m && (x + xt * normal) * m <= (x
        + most * normal) * m) by (nonlinear_arith)
        requires
            m >= 1,
            x >= 0,
            0 <= xt * normal <= most * normal,
    ;
    lemma_mul_on_grid(t, ratio, xt, normal as int, inner_grid, actual as int);
    let offset = t.spec_checked_mul(ratio)->Some_0;
    lemma_add_on_grid(start.0.0, offset, x, xt * normal, m);
    let landed = start.0.0.spec_checked_add(offset)->Some_0;
    lemma_within_grid(landed, x + xt * normal, m, x + most * normal);
}

proof fn lemma_inner_fits(
    inner: Seq<Event>,
    k: nat,
    normal: u32,
    actual: u32,
    start: Time<WholeNotes>,
    events: Seq<Event>,
    m: int,
    x: int,
    most: int,
)
    requires
        k <= inner.len(),
        actual > 0,
        m > 0,
        m % (actual as int) == 0,
        m * m <= i64::MAX,
        forall|i: int|
            0 <= i < inner.len() ==> within_grid(
                (#[trigger] inner[i]).time.0.0,
                m / (actual as int),
                most,
            ),
        forall|i: int|
            0 <= i < events.len() ==> within_grid(
                (#[trigger] events[i]).time.0.0,
                m,
                x + most * normal,
            ),
        start.wf(),
        on_grid(start.0.0, x, m),
        x >= 0,
        (x + most * normal) * m <= i64::MAX,
    ensures
        spec_place_inner(inner, k, normal, actual, start, events) matches Some(out) && (forall|
            i: int,
        |
            0 <= i < out.len() ==> within_grid((#[trigger] out[i]).time.0.0, m, x + most * normal)),
    decreases k,
{
    if k > 0 {
        lemma_inner_fits(inner, (k - 1) as nat, normal, actual, start, events, m, x, most);
        let before = spec_place_inner(inner, (k - 1) as nat, normal, actual, start, events)->Some_0;
        lemma_rescale_fits(inner[k - 1].time, normal, actual, start, m, x, most);
        let out = spec_place_inner(inner, k, normal, actual, start, events)->Some_0;
        assert forall|i: int| 0 <= i < out.len() implies within_grid(
            (#[trigger] out[i]).time.0.0,
            m,
            x + most * normal,
        ) by {
            if i < before.len() {
                assert(out[i] == before[i]);
            }
        }
    }
}

/// The first `n` segments of a well-formed rhythm on a grid that fits it
/// flatten, and the time reached is their length in parts of the grid.
pub proof fn lemma_flatten_fits_upto(r: Rhythm, m: int, n: nat)
    requires
        r.wf(),
        rhythm_fits_grid(r, m),
        n <= r.segments.len(),
    ensures
        spec_flatten_upto(r, n) matches Some(p) && placed_within(
            p,
            m,
            segments_units(r.segments@, n) * (m / 2048),
        ),
    decreases r, n,
{
    let s = m / 2048;
    let segs = r.segments@;
    lemma_fundamental_div_mod(m, 2048);
    if n == 0 {
        lemma_integer_value(0);
        assert(segments_units(segs, 0) * s == 0) by (nonlinear_arith)
            requires
                segments_units(segs, 0) == 0,
        ;
    } else {
        lemma_flatten_fits_upto(r, m, (n - 1) as nat);
        let before = spec_flatten_upto(r, (n - 1) as nat)->Some_0;
        let segment = r.segments[n - 1];
        let a = segments_units(segs, (n - 1) as nat);
        let u = segment_units(segment);
        let all = rhythm_units(r);
        let x = a * s;
        lemma_segment_units(segment);
        lemma_segments_units_grow(segs, (n - 1) as nat, segs.len());
        lemma_segments_units_grow(segs, n, segs.len());
        assert(a * s + u * s == (a + u) * s && 0 <= a * s && 0 <= u * s && (a + u) * s <= all * s)
            by (nonlinear_arith)
            requires
                0 <= a,
                0 <= u,
                a + u <= all,
                s >= 0,
        ;
        assert((x + u * s) * m <= (all * s) * m) by (nonlinear_arith)
            requires
                x + u * s <= all * s,
                m > 0,
        ;
        assert(segment.wf());
        assert(segment_fits_grid(segment, m));
        assert forall|i: int| 0 <= i < before.0.len() implies within_grid(
            (#[trigger] before.0[i]).time.0.0,
            m,
            x + u * s,
        ) by {}
        match segment {
            RhythmSegment::Note(d) => {
                lemma_note_fits(before, EventKind::Start, d, false, m, x);
            },
            RhythmSegment::Rest(d) => {
                lemma_note_fits(before, EventKind::Stop, d, false, m, x);
            },
            RhythmSegment::TiedNote(durs) => {
                lemma_tied_fits(durs@, durs.len() as nat, before, m, x);
            },
            RhythmSegment::Tuplet { actual, normal, note_duration, rhythm, do_not_construct } => {
                let inner_grid = m / (actual as int);
                let inner_s = inner_grid / 2048;
                let full = rhythm.segments.len() as nat;
                lemma_flatten_fits_upto(*rhythm, inner_grid, full);
                let sub = spec_flatten_upto(*rhythm, full)->Some_0;
                let v = note_units(note_duration);
                let inner_units = rhythm_units(*rhythm);
                lemma_note_units(note_duration);
                lemma_segments_units_grow(rhythm.segments@, 0, full);
                lemma_fundamental_div_mod(m, actual as int);
                lemma_fundamental_div_mod(inner_grid, 2048);
                assert(inner_s >= 1 && s == actual * inner_s) by (nonlinear_arith)
                    requires
                        m == actual * inner_grid,
                        inner_grid == 2048 * inner_s,
                        m == 2048 * s,
                        inner_grid > 0,
                ;
                assert(inner_units * 2048 <= inner_units * inner_s * inner_grid)
                    by (nonlinear_arith)
                    requires
                        inner_units >= 0,
                        inner_s >= 1,
                        inner_grid == 2048 * inner_s,
                ;
                lemma_duration_exact(*rhythm);
                lemma_times_on_grid(note_duration, actual);
                let length = rhythm.spec_duration()->Some_0;
                assert(inner_units == v * actual) by (nonlinear_arith)
                    requires
                        length.0.0.numer * 2048 == inner_units * length.0.0.denom,
                        length.0.0.numer * 2048 == v * actual * length.0.0.denom,
                        length.0.0.denom > 0,
                ;
                let most = inner_units * inner_s;
                assert(most * normal == u * s) by (nonlinear_arith)
                    requires
                        most == inner_units * inner_s,
                        inner_units == v * actual,
                        u == v * normal,
                        s == actual * inner_s,
                ;
                lemma_inner_fits(sub.0, sub.0.len(), normal, actual, before.1, before.0, m, x, most);
                lemma_times_on_grid(note_duration, normal);
                let span = spec_times(note_duration, normal)->Some_0;
                lemma_finer_grid(span.0.0, u, 2048, s);
                lemma_add_on_grid(before.1.0.0, span.0.0, x, u * s, m);
            },
        }
    }
}

/// A well-formed rhythm flattens wherever some grid is fine enough for it
/// and the rhythm short enough for the grid.
pub proof fn lemma_flatten_fits(r: Rhythm, m: int)
    requires
        r.wf(),
        rhythm_fits_grid(r, m),
    ensures
        spec_flatten(r) is Some,
{
    lemma_flatten_fits_upto(r, m, r.segments.len() as nat);
}

/// The most that one pair of marks can add to the score, in parts of
/// `factor.denom * m` of a second: the greatest distance of two times plus
/// ten seconds, times fifty.
pub open spec fn pair_bound(factor: Rational, m: int, x: int) -> int {
    (factor.numer * x + 10 * (factor.denom * m)) * 50
}

/// The greatest number that scoring `pairs` pairs of marks has to hold: the
/// most that the pairs can add, plus a hundred seconds, times a hundred, in
/// parts of `factor.denom * m` of a second, times that many parts.
pub open spec fn score_bound(factor: Rational, m: int, x: int, pairs: nat) -> int {
    (pairs * pair_bound(factor, m, x) + 100 * (factor.denom * m)) * 100 * (factor.denom * m)
}

/// Every mark lies on the grid of `m` parts to the whole note, no later
/// than `x` parts.
pub open spec fn marks_within(marks: Seq<Mark>, m: int, x: int) -> bool {
    forall|i: int| 0 <= i < marks.len() ==> within_grid((#[trigger] marks[i]).time.0.0, m, x)
}

proof fn lemma_penalised_fits(span: Duration<Seconds>, extra: u32, weight: u32, g: int, n: int)
    requires
        span.wf(),
        g > 0,
        n >= 0,
        on_grid(span.0.0, n, g),
        g * g <= i64::MAX,
        (n + extra * g) * g <= i64::MAX,
        (n + extra * g) * weight <= i64::MAX,
    ensures
        spec_penalised(span, extra, weight) matches Some(p) && p.wf() && on_grid(
            p.0.0,
            (n + extra * g) * weight,
            g,
        ),
{
    let e = Rational { numer: extra as i64, denom: 1 };
    let w = Rational { numer: weight as i64, denom: 1 };
    lemma_integer_value(extra as int);
    lemma_integer_value(weight as int);
    lemma_finer_grid(e, extra as int, 1, g);
    assert(1 * g == g && extra * g >= 0) by (nonlinear_arith)
        requires
            g > 0,
            extra >= 0,
    ;
    lemma_add_on_grid(span.0.0, e, n, extra * g, g);
    let sum = span.0.0.spec_checked_add(e)->Some_0;
    assert(g * 1 == g && g <= g * g) by (nonlinear_arith)
        requires
            g >= 1,
    ;
    lemma_mul_on_grid(sum, w, n + extra * g, weight as int, g, 1);
}

proof fn lemma_pair_fits(factor: Rational, original: Mark, approx: Mark, m: int, x: int)
    requires
        factor.wf(),
        factor.numer > 0,
        m > 0,
        x >= 0,
        within_grid(original.time.0.0, m, x),
        within_grid(approx.time.0.0, m, x),
        pair_bound(factor, m, x) * (factor.denom * m) <= i64::MAX,
    ensures
        spec_pair_error(factor, original, approx) matches Some(e) && within_grid(
            e.0.0,
            factor.denom * m,
            pair_bound(factor, m, x),
        ),
{
    let g = factor.denom * m;
    let n = factor.numer * x;
    let o = original.time.0.0;
    let a = approx.time.0.0;
    let xo = grid_numer(o, m);
    let xa = grid_numer(a, m);
    lemma_grid_parts(o, m);
    lemma_grid_parts(a, m);
    assert(g >= 1 && n >= 0 && 0 <= factor.numer * xo <= n && 0 <= factor.numer * xa <= n)
        by (nonlinear_arith)
        requires
            g == factor.denom * m,
            n == factor.numer * x,
            factor.denom >= 1,
            m >= 1,
            factor.numer > 0,
            0 <= xo <= x,
            0 <= xa <= x,
    ;
    let bound = pair_bound(factor, m, x);
    assert(bound == (n + 10 * g) * 50);
    assert(n <= bound && n + 10 * g <= bound && g <= bound && bound <= bound * g && g * g <= bound
        * g && n * g <= bound * g && (n + 10 * g) * g <= bound * g) by (nonlinear_arith)
        requires
            bound == (n + 10 * g) * 50,
            n >= 0,
            g >= 1,
    ;
    assert(on_grid(factor, factor.numer as int, factor.denom as int)) by (nonlinear_arith);
    lemma_mul_on_grid(factor, o, factor.numer as int, xo, factor.denom as int, m);
    lemma_mul_on_grid(factor, a, factor.numer as int, xa, factor.denom as int, m);
    let os = factor.spec_checked_mul(o)->Some_0;
    let az = factor.spec_checked_mul(a)->Some_0;
    assert((factor.numer * xo) * g <= n * g && (factor.numer * xa) * g <= n * g)
        by (nonlinear_arith)
        requires
            0 <= factor.numer * xo <= n,
            0 <= factor.numer * xa <= n,
            g >= 1,
    ;
    lemma_sub_on_grid(os, az, factor.numer * xo, factor.numer * xa, g);
    let diff = os.spec_checked_sub(az)->Some_0;
    let gap = diff.spec_abs();
    let dist = if factor.numer * xo < factor.numer * xa {
        factor.numer * xa - factor.numer * xo
    } else {
        factor.numer * xo - factor.numer * xa
    };
    assert(0 <= dist <= n);
    if original.kind != approx.kind {
        assert((dist + 10 * g) * g <= (n + 10 * g) * g && (dist + 10 * g) * 50 <= bound)
            by (nonlinear_arith)
            requires
                0 <= dist <= n,
                g >= 1,
                bound == (n + 10 * g) * 50,
        ;
        lemma_penalised_fits(Duration(Seconds(gap)), 10, 50, g, dist);
        let e = spec_penalised(Duration(Seconds(gap)), 10, 50)->Some_0;
        lemma_within_grid(e.0.0, (dist + 10 * g) * 50, g, bound);
    } else {
        lemma_within_grid(gap, dist, g, bound);
    }
}

proof fn lemma_pairs_fit(
    factor: Rational,
    original: Seq<Mark>,
    approx: Seq<Mark>,
    m: int,
    x: int,
    k: nat,
    pairs: nat,
)
    requires
        factor.wf(),
        factor.numer > 0,
        m > 0,
        x >= 0,
        marks_within(original, m, x),
        marks_within(approx, m, x),
        k <= pairs <= shorter(original.len(), approx.len()),
        score_bound(factor, m, x, pairs) <= i64::MAX,
    ensures
        spec_pairs_error(factor, original, approx, k) matches Some(sum) && sum.wf() && 0
            <= grid_numer(sum.0.0, factor.denom * m) <= k * pair_bound(factor, m, x)
            && on_grid(
            sum.0.0,
            grid_numer(sum.0.0, factor.denom * m),
            factor.denom * m,
        ),
    decreases k,
{
    let g = factor.denom * m;
    let bound = pair_bound(factor, m, x);
    assert(g >= 1 && bound >= 0) by (nonlinear_arith)
        requires
            g == factor.denom * m,
            bound == (factor.numer * x + 10 * g) * 50,
            factor.denom >= 1,
            m >= 1,
            factor.numer > 0,
            x >= 0,
    ;
    if k == 0 {
        lemma_integer_value(0);
        let zero = Rational { numer: 0, denom: 1 };
        assert(zero.numer * g == 0 * zero.denom) by (nonlinear_arith)
            requires
                zero.numer == 0,
        ;
        lemma_within_grid(zero, 0, g, 0);
        assert(0 * bound == 0) by (nonlinear_arith);
    } else {
        lemma_pairs_fit(factor, original, approx, m, x, (k - 1) as nat, pairs);
        let sum = spec_pairs_error(factor, original, approx, (k - 1) as nat)->Some_0;
        let n = grid_numer(sum.0.0, g);
        assert(bound * g <= score_bound(factor, m, x, pairs) && g * g <= score_bound(
            factor,
            m,
            x,
            pairs,
        ) && (k * bound) * g <= score_bound(factor, m, x, pairs) && (k - 1) * bound + bound == k
            * bound) by (nonlinear_arith)
            requires
                score_bound(factor, m, x, pairs) == (pairs * bound + 100 * g) * 100 * g,
                1 <= k <= pairs,
                bound >= 0,
                g >= 1,
        ;
        lemma_pair_fits(factor, original[k - 1], approx[k - 1], m, x);
        let pair = spec_pair_error(factor, original[k - 1], approx[k - 1])->Some_0;
        let y = grid_numer(pair.0.0, g);
        lemma_grid_parts(pair.0.0, g);
        assert((n + y) * g <= (k * bound) * g) by (nonlinear_arith)
            requires
                0 <= n <= (k - 1) * bound,
                0 <= y <= bound,
                (k - 1) * bound + bound == k * bound,
                g >= 1,
        ;
        lemma_add_on_grid(sum.0.0, pair.0.0, n, y, g);
        let next = sum.0.0.spec_checked_add(pair.0.0)->Some_0;
        lemma_within_grid(next, n + y, g, k * bound);
    }
}

/// Whether scoring two sequences of marks at a tempo is certain to fit:
/// the tempo is not zero beats per minute, every mark lies on the grid of
/// `m` parts to the whole note, none later than `x` parts, and
/// `score_bound` fits for the tempo's seconds per whole note.
pub open spec fn marks_fit_grid(
    tempo: (NoteDuration, u32),
    original: Seq<Mark>,
    approx: Seq<Mark>,
    m: int,
    x: int,
) -> bool {
    &&& tempo.1 != 0
    &&& m > 0
    &&& x >= 0
    &&& marks_within(original, m, x)
    &&& marks_within(approx, m, x)
    &&& score_bound(
        spec_seconds_per_whole_note(tempo)->Some_0,
        m,
        x,
        shorter(original.len(), approx.len()),
    ) <= i64::MAX
}

/// Two sequences of marks have a score wherever `marks_fit_grid` holds of
/// them, some grid and some latest time.
pub proof fn lemma_score_marks_fits(
    tempo: (NoteDuration, u32),
    original: Seq<Mark>,
    approx: Seq<Mark>,
    m: int,
    x: int,
)
    requires
        marks_fit_grid(tempo, original, approx, m, x),
    ensures
        spec_score_marks(tempo, original, approx) is Some,
{
    lemma_tempo_factor(tempo);
    let factor = spec_seconds_per_whole_note(tempo)->Some_0;
    lemma_value_order(factor, factor);
    let pairs = shorter(original.len(), approx.len());
    lemma_pairs_fit(factor, original, approx, m, x, pairs, pairs);
    let sum = spec_pairs_error(factor, original, approx, pairs)->Some_0;
    let g = factor.denom * m;
    let bound = pair_bound(factor, m, x);
    let n = grid_numer(sum.0.0, g);
    assert(g >= 1 && bound >= 0) by (nonlinear_arith)
        requires
            g == factor.denom * m,
            bound == (factor.numer * x + 10 * g) * 50,
            factor.denom >= 1,
            m >= 1,
            factor.numer > 0,
            x >= 0,
    ;
    assert(g * g <= score_bound(factor, m, x, pairs) && (n + 100 * g) * g <= score_bound(
        factor,
        m,
        x,
        pairs,
    ) && (n + 100 * g) * 100 <= score_bound(factor, m, x, pairs)) by (nonlinear_arith)
        requires
            score_bound(factor, m, x, pairs) == (pairs * bound + 100 * g) * 100 * g,
            0 <= n <= pairs * bound,
            bound >= 0,
            g >= 1,
    ;
    lemma_penalised_fits(sum, 100, 100, g, n);
}

/// The marks of a well-formed rhythm on a grid that fits it lie on that
/// grid, none later than the length of the rhythm.
pub proof fn lemma_marks_within(r: Rhythm, m: int)
    requires
        r.wf(),
        rhythm_fits_grid(r, m),
    ensures
        spec_flatten_to_marks(r) matches Some(marks) && marks_within(
            marks,
            m,
            rhythm_units(r) * (m / 2048),
        ),
{
    lemma_flatten_fits_upto(r, m, r.segments.len() as nat);
    let events = spec_flatten(r)->Some_0;
    let marks = marks_of(events);
    assert forall|i: int| 0 <= i < marks.len() implies within_grid(
        (#[trigger] marks[i]).time.0.0,
        m,
        rhythm_units(r) * (m / 2048),
    ) by {
        assert(marks[i].time == events[i].time);
    }
}

/// The longer of two lengths.
pub open spec fn longer(a: int, b: int) -> int {
    if a < b {
        b
    } else {
        a
    }
}

/// Whether scoring `approx` against `original` at a tempo is certain to
/// fit on a grid of `m` parts to the whole note: the tempo is not zero
/// beats per minute, the grid fits both rhythms, and `score_bound` fits for
/// the longer of the two and as many pairs as the shorter one has events.
pub open spec fn score_fits_grid(
    tempo: (NoteDuration, u32),
    original: Rhythm,
    approx: Rhythm,
    m: int,
) -> bool {
    &&& tempo.1 != 0
    &&& rhythm_fits_grid(original, m)
    &&& rhythm_fits_grid(approx, m)
    &&& score_bound(
        spec_seconds_per_whole_note(tempo)->Some_0,
        m,
        longer(rhythm_units(original), rhythm_units(approx)) * (m / 2048),
        shorter(
            spec_count(original),
            spec_count(approx),
        ),
    ) <= i64::MAX
}

/// Two well-formed rhythms have a score wherever `score_fits_grid` holds of
/// them and some grid.
pub proof fn lemma_score_fits(tempo: (NoteDuration, u32), original: Rhythm, approx: Rhythm, m: int)
    requires
        original.wf(),
        approx.wf(),
        score_fits_grid(tempo, original, approx, m),
    ensures
        spec_score_error(tempo, original, approx) is Some,
{
    lemma_marks_within(original, m);
    lemma_marks_within(approx, m);
    lemma_flatten_count(original);
    lemma_flatten_count(approx);
    let o = spec_flatten_to_marks(original)->Some_0;
    let a = spec_flatten_to_marks(approx)->Some_0;
    let s = m / 2048;
    let xo = rhythm_units(original) * s;
    let xa = rhythm_units(approx) * s;
    let x = longer(rhythm_units(original), rhythm_units(approx)) * s;
    lemma_fundamental_div_mod(m, 2048);
    lemma_segments_units_grow(original.segments@, 0, original.segments.len() as nat);
    lemma_segments_units_grow(approx.segments@, 0, approx.segments.len() as nat);
    assert(0 <= xo <= x && 0 <= xa <= x) by (nonlinear_arith)
        requires
            xo == rhythm_units(original) * s,
            xa == rhythm_units(approx) * s,
            x == longer(rhythm_units(original), rhythm_units(approx)) * s,
            rhythm_units(original) >= 0,
            rhythm_units(approx) >= 0,
            s >= 0,
    ;
    assert(marks_within(o, m, x)) by {
        assert forall|i: int| 0 <= i < o.len() implies within_grid(
            (#[trigger] o[i]).time.0.0,
            m,
            x,
        ) by {}
    }
    assert(marks_within(a, m, x)) by {
        assert forall|i: int| 0 <= i < a.len() implies within_grid(
            (#[trigger] a[i]).time.0.0,
            m,
            x,
        ) by {}
    }
    lemma_score_marks_fits(tempo, o, a, m, x);
}

/// Every span lies on the grid of `m` parts to the whole note and is no
/// longer than `x` parts.
pub open spec fn spans_within(spans: Seq<Duration<WholeNotes>>, m: int, x: int) -> bool {
    forall|i: int| 0 <= i < spans.len() ==> within_grid((#[trigger] spans[i]).0.0, m, x)
}

proof fn lemma_note_span_within(d: NoteDuration, m: int, most: int)
    requires
        m > 0,
        m % 2048 == 0,
        note_units(d) * (m / 2048) <= most,
    ensures
        within_grid(d.spec_to_duration().0.0, m, most),
{
    let s = m / 2048;
    let u = note_units(d);
    d.lemma_to_duration();
    lemma_note_units(d);
    lemma_fundamental_div_mod(m, 2048);
    lemma_finer_grid(d.spec_to_duration().0.0, u, 2048, s);
    assert(u * s >= 0) by (nonlinear_arith)
        requires
            u > 0,
            s >= 0,
    ;
    lemma_within_grid(d.spec_to_duration().0.0, u * s, m, most);
}

proof fn lemma_scale_spans_fit(
    inner: Seq<Duration<WholeNotes>>,
    k: nat,
    normal: u32,
    actual: u32,
    before: Seq<Duration<WholeNotes>>,
    m: int,
    most: int,
)
    requires
        k <= inner.len(),
        actual > 0,
        m > 0,
        m % (actual as int) == 0,
        m * m <= i64::MAX,
        spans_within(inner, m / (actual as int), most),
        spans_within(before, m, most * normal),
        most * normal <= i64::MAX,
    ensures
        spec_scale_spans(inner, k, normal, actual, before) matches Some(out) && spans_within(
            out,
            m,
            most * normal,
        ),
    decreases k,
{
    if k > 0 {
        lemma_scale_spans_fit(inner, (k - 1) as nat, normal, actual, before, m, most);
        let scaled = spec_scale_spans(inner, (k - 1) as nat, normal, actual, before)->Some_0;
        let inner_grid = m / (actual as int);
        let t = inner[k - 1].0.0;
        let xt = grid_numer(t, inner_grid);
        lemma_fundamental_div_mod(m, actual as int);
        assert(inner_grid > 0 && inner_grid * actual == m && m <= m * m) by (nonlinear_arith)
            requires
                m == actual * inner_grid,
                m > 0,
                actual > 0,
        ;
        lemma_grid_parts(t, inner_grid);
        lemma_ratio_on_grid(normal, actual);
        let ratio = Rational::spec_new(normal as i64, actual as i64)->Some_0;
        assert(0 <= xt * normal <= most * normal) by (nonlinear_arith)
            requires
                0 <= xt <= most,
                normal >= 0,
        ;
        lemma_mul_on_grid(t, ratio, xt, normal as int, inner_grid, actual as int);
        let span = t.spec_checked_mul(ratio)->Some_0;
        lemma_within_grid(span, xt * normal, m, most * normal);
        let out = spec_scale_spans(inner, k, normal, actual, before)->Some_0;
        assert(spec_scale_span(inner[k - 1], normal, actual) == Some(Duration(WholeNotes(span))));
        assert forall|i: int| 0 <= i < out.len() implies within_grid(
            (#[trigger] out[i]).0.0,
            m,
            most * normal,
        ) by {
            if i < scaled.len() {
                assert(out[i] == scaled[i]);
            }
        }
    }
}

/// The sounding spans of the first `n` segments of a well-formed rhythm on
/// a grid that fits it all fit, and none is longer than the rhythm.
pub proof fn lemma_durations_fit_upto(r: Rhythm, m: int, n: nat)
    requires
        r.wf(),
        rhythm_fits_grid(r, m),
        n <= r.segments.len(),
    ensures
        spec_durations_upto(r, n) matches Some(out) && spans_within(
            out,
            m,
            rhythm_units(r) * (m / 2048),
        ),
    decreases r, n,
{
    let s = m / 2048;
    let segs = r.segments@;
    let all = rhythm_units(r);
    lemma_fundamental_div_mod(m, 2048);
    if n > 0 {
        lemma_durations_fit_upto(r, m, (n - 1) as nat);
        let before = spec_durations_upto(r, (n - 1) as nat)->Some_0;
        let segment = r.segments[n - 1];
        let a = segments_units(segs, (n - 1) as nat);
        let u = segment_units(segment);
        lemma_segment_units(segment);
        lemma_segments_units_grow(segs, (n - 1) as nat, segs.len());
        lemma_segments_units_grow(segs, n, segs.len());
        assert(0 <= u * s <= all * s && all * s <= all * s * m) by (nonlinear_arith)
            requires
                0 <= u <= all,
                s >= 0,
                m >= 1,
        ;
        assert(segment.wf());
        assert(segment_fits_grid(segment, m));
        match segment {
            RhythmSegment::Note(d) => {
                lemma_note_span_within(d, m, all * s);
            },
            RhythmSegment::Rest(d) => {
                lemma_note_span_within(d, m, all * s);
            },
            RhythmSegment::TiedNote(durs) => {
                let tied = spans(durs@);
                assert forall|i: int| 0 <= i < tied.len() implies within_grid(
                    (#[trigger] tied[i]).0.0,
                    m,
                    all * s,
                ) by {
                    lemma_note_units(durs@[i]);
                    lemma_notes_units_grow(durs@, i as nat, durs.len() as nat);
                    lemma_notes_units_grow(durs@, (i + 1) as nat, durs.len() as nat);
                    let v = note_units(durs@[i]);
                    assert(v * s <= all * s) by (nonlinear_arith)
                        requires
                            v <= u,
                            u <= all,
                            s >= 0,
                    ;
                    lemma_note_span_within(durs@[i], m, all * s);
                }
                let out = before + tied;
                assert forall|i: int| 0 <= i < out.len() implies within_grid(
                    (#[trigger] out[i]).0.0,
                    m,
                    all * s,
                ) by {
                    if i < before.len() {
                        assert(out[i] == before[i]);
                    } else {
                        assert(out[i] == tied[i - before.len()]);
                    }
                }
            },
            RhythmSegment::Tuplet { actual, normal, note_duration, rhythm, do_not_construct } => {
                let inner_grid = m / (actual as int);
                let inner_s = inner_grid / 2048;
                let full = rhythm.segments.len() as nat;
                lemma_durations_fit_upto(*rhythm, inner_grid, full);
                let sub = spec_durations_upto(*rhythm, full)->Some_0;
                let v = note_units(note_duration);
                let inner_units = rhythm_units(*rhythm);
                lemma_note_units(note_duration);
                lemma_segments_units_grow(rhythm.segments@, 0, full);
                lemma_fundamental_div_mod(m, actual as int);
                lemma_fundamental_div_mod(inner_grid, 2048);
                assert(inner_s >= 1 && s == actual * inner_s) by (nonlinear_arith)
                    requires
                        m == actual * inner_grid,
                        inner_grid == 2048 * inner_s,
                        m == 2048 * s,
                        inner_grid > 0,
                ;
                assert(inner_units * 2048 <= inner_units * inner_s * inner_grid)
                    by (nonlinear_arith)
                    requires
                        inner_units >= 0,
                        inner_s >= 1,
                        inner_grid == 2048 * inner_s,
                ;
                lemma_duration_exact(*rhythm);
                lemma_times_on_grid(note_duration, actual);
                let length = rhythm.spec_duration()->Some_0;
                assert(inner_units == v * actual) by (nonlinear_arith)
                    requires
                        length.0.0.numer * 2048 == inner_units * length.0.0.denom,
                        length.0.0.numer * 2048 == v * actual * length.0.0.denom,
                        length.0.0.denom > 0,
                ;
                let most = inner_units * inner_s;
                assert(most * normal == u * s) by (nonlinear_arith)
                    requires
                        most == inner_units * inner_s,
                        inner_units == v * actual,
                        u == v * normal,
                        s == actual * inner_s,
                ;
                assert forall|i: int| 0 <= i < before.len() implies within_grid(
                    (#[trigger] before[i]).0.0,
                    m,
                    all * s,
                ) by {}
                // Everything placed before is within the rhythm; the tuplet's own
                // spans are within the tuplet, which is within the rhythm.
                lemma_scale_spans_within(sub, normal, actual, before, m, most, all * s);
            },
        }
    }
}

proof fn lemma_scale_spans_within(
    inner: Seq<Duration<WholeNotes>>,
    normal: u32,
    actual: u32,
    before: Seq<Duration<WholeNotes>>,
    m: int,
    most: int,
    all: int,
)
    requires
        actual > 0,
        m > 0,
        m % (actual as int) == 0,
        m * m <= i64::MAX,
        spans_within(inner, m / (actual as int), most),
        spans_within(before, m, all),
        0 <= most * normal <= all,
        all <= i64::MAX,
    ensures
        spec_scale_spans(inner, inner.len(), normal, actual, before) matches Some(out)
            && spans_within(out, m, all),
{
    lemma_scale_spans_fit(inner, inner.len(), normal, actual, Seq::empty(), m, most);
    lemma_scale_spans_append(inner, inner.len(), normal, actual, before);
    let alone = spec_scale_spans(inner, inner.len(), normal, actual, Seq::empty())->Some_0;
    let out = spec_scale_spans(inner, inner.len(), normal, actual, before)->Some_0;
    assert forall|i: int| 0 <= i < out.len() implies within_grid((#[trigger] out[i]).0.0, m, all) by {
        if i < before.len() {
            assert(out[i] == before[i]);
        } else {
            assert(out[i] == alone[i - before.len()]);
        }
    }
}

/// Scaling behind some spans is scaling behind none, put behind them.
proof fn lemma_scale_spans_append(
    inner: Seq<Duration<WholeNotes>>,
    k: nat,
    normal: u32,
    actual: u32,
    before: Seq<Duration<WholeNotes>>,
)
    requires
        k <= inner.len(),
    ensures
        spec_scale_spans(inner, k, normal, actual, before) == (match spec_scale_spans(
            inner,
            k,
            normal,
            actual,
            Seq::empty(),
        ) {
            Some(alone) => Some(before + alone),
            None => None,
        }),
    decreases k,
{
    if k == 0 {
        assert(before + Seq::<Duration<WholeNotes>>::empty() =~= before);
    } else {
        lemma_scale_spans_append(inner, (k - 1) as nat, normal, actual, before);
        match (
            spec_scale_spans(inner, (k - 1) as nat, normal, actual, Seq::empty()),
            spec_scale_span(inner[k - 1], normal, actual),
        ) {
            (Some(alone), Some(span)) => {
                assert((before + alone).push(span) =~= before + alone.push(span));
            },
            _ => {},
        }
    }
}

/// The sounding spans of a well-formed rhythm all fit wherever some grid
/// is fine enough for the rhythm and the rhythm short enough for the grid.
pub proof fn lemma_durations_fit(r: Rhythm, m: int)
    requires
        r.wf(),
        rhythm_fits_grid(r, m),
    ensures
        spec_durations(r) is Some,
{
    lemma_durations_fit_upto(r, m, r.segments.len() as nat);
}

} // verus!
