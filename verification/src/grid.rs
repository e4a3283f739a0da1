//! Every written note value is a whole number of 2048ths of a whole note.
//! Counting in that unit says, in integers alone, what a duration is and
//! for which rhythms it is certain to fit.

use vstd::prelude::*;
use vstd::arithmetic::div_mod::{
    lemma_div_multiples_vanish, lemma_fundamental_div_mod, lemma_mod_multiples_basic,
};
use crate::lowest_terms::{lemma_lowest_divides, lemma_lowest_form};
use crate::rational::{lemma_abs_value, lemma_integer_value, lemma_lowest_value, Rational};
use crate::rhythm::{
    spans, spec_duration_of, spec_times, NoteDuration, NoteDurationKind, Rhythm, RhythmSegment,
};
use crate::time::Duration;

verus! {

/// The parts into which a whole note is counted here.
pub open spec fn grid() -> int {
    2048
}

/// `a` is `x` parts of `m`.
pub open spec fn on_grid(a: Rational, x: int, m: int) -> bool {
    a.numer * m == x * a.denom
}

/// The 1024ths of a whole note that an undotted note of a kind lasts.
pub open spec fn kind_units(kind: NoteDurationKind) -> int {
    match kind {
        NoteDurationKind::Whole => 1024,
        NoteDurationKind::Half => 512,
        NoteDurationKind::Quarter => 256,
        NoteDurationKind::Eigth => 128,
        NoteDurationKind::Sixteenth => 64,
        NoteDurationKind::Nd32 => 32,
        NoteDurationKind::Nd64 => 16,
        NoteDurationKind::Nd128 => 8,
        NoteDurationKind::Nd256 => 4,
        NoteDurationKind::Nd512 => 2,
        NoteDurationKind::Nd1024 => 1,
    }
}

/// The 2048ths of a whole note that a note value lasts.
pub open spec fn note_units(d: NoteDuration) -> int {
    if d.dotted {
        3 * kind_units(d.kind)
    } else {
        2 * kind_units(d.kind)
    }
}

/// The 2048ths that the first `k` of a sequence of note values last.
pub open spec fn notes_units(durs: Seq<NoteDuration>, k: nat) -> int
    decreases k,
{
    if k == 0 || k > durs.len() {
        0
    } else {
        notes_units(durs, (k - 1) as nat) + note_units(durs[k - 1])
    }
}

/// The 2048ths that a segment takes in its rhythm.
pub open spec fn segment_units(s: RhythmSegment) -> int {
    match s {
        RhythmSegment::Note(d) => note_units(d),
        RhythmSegment::TiedNote(durs) => notes_units(durs@, durs.len() as nat),
        RhythmSegment::Rest(d) => note_units(d),
        RhythmSegment::Tuplet { actual, normal, note_duration, rhythm, do_not_construct } => {
            note_units(note_duration) * normal
        },
    }
}

/// The 2048ths that the first `n` segments last.
pub open spec fn segments_units(segs: Seq<RhythmSegment>, n: nat) -> int
    decreases n,
{
    if n == 0 || n > segs.len() {
        0
    } else {
        segments_units(segs, (n - 1) as nat) + segment_units(segs[n - 1])
    }
}

/// The 2048ths of a whole note that a rhythm lasts.
pub open spec fn rhythm_units(r: Rhythm) -> int {
    segments_units(r.segments@, r.segments.len() as nat)
}

/// A note value lasts a whole, positive number of 2048ths.
pub proof fn lemma_note_units(d: NoteDuration)
    ensures
        0 < note_units(d) <= 3072,
        on_grid(d.spec_to_duration().0.0, note_units(d), grid()),
{
    let a = d.spec_to_duration().0.0;
    let k = d.kind.denominator();
    let h = kind_units(d.kind);
    assert(h * k == 1024);
    if d.dotted {
        assert(a.numer == 3 && a.denom == 2 * k);
        assert(3 * 2048 == (3 * h) * (2 * k)) by (nonlinear_arith)
            requires
                h * k == 1024,
        ;
    } else {
        assert(a.numer == 1 && a.denom == k);
        assert(1 * 2048 == (2 * h) * k) by (nonlinear_arith)
            requires
                h * k == 1024,
        ;
    }
}

/// Two fractions that are whole numbers of parts of `m`, not negative and
/// small enough, have a sum that fits, and it is the sum of the parts.
pub proof fn lemma_add_on_grid(a: Rational, b: Rational, x: int, y: int, m: int)
    requires
        a.wf(),
        b.wf(),
        m > 0,
        x >= 0,
        y >= 0,
        on_grid(a, x, m),
        on_grid(b, y, m),
        (x + y) * m <= i64::MAX,
        m * m <= i64::MAX,
    ensures
        a.spec_checked_add(b) matches Some(r) && r.wf() && on_grid(r, x + y, m),
{
    let k = lemma_lowest_divides(a.numer as int, a.denom as int, x, m);
    let j = lemma_lowest_divides(b.numer as int, b.denom as int, y, m);
    let p = a.numer * b.denom;
    let q = b.numer * a.denom;
    let d = a.denom * b.denom;
    assert(k >= 1 && j >= 1) by (nonlinear_arith)
        requires
            m == k * a.denom,
            m == j * b.denom,
            m > 0,
            a.denom > 0,
            b.denom > 0,
    ;
    assert(0 <= a.numer <= x && 0 <= b.numer <= y && a.denom <= m && b.denom <= m)
        by (nonlinear_arith)
        requires
            x == k * a.numer,
            y == j * b.numer,
            m == k * a.denom,
            m == j * b.denom,
            k >= 1,
            j >= 1,
            x >= 0,
            y >= 0,
            a.denom > 0,
            b.denom > 0,
    ;
    assert(0 <= p <= x * m && 0 <= q <= y * m && 0 < d <= m * m) by (nonlinear_arith)
        requires
            p == a.numer * b.denom,
            q == b.numer * a.denom,
            d == a.denom * b.denom,
            0 <= a.numer <= x,
            0 <= b.numer <= y,
            0 < a.denom <= m,
            0 < b.denom <= m,
    ;
    assert(x * m + y * m == (x + y) * m) by (nonlinear_arith);
    assert(a.add_fits(b));
    lemma_lowest_value(p + q, d);
    lemma_lowest_form(p + q, d);
    let r = Rational::lowest(p + q, d);
    assert((p + q) * m == (x + y) * d) by (nonlinear_arith)
        requires
            p == a.numer * b.denom,
            q == b.numer * a.denom,
            d == a.denom * b.denom,
            a.numer * m == x * a.denom,
            b.numer * m == y * b.denom,
    ;
    assert((r.numer * m - (x + y) * r.denom) * d == 0) by (nonlinear_arith)
        requires
            r.numer * d == (p + q) * r.denom,
            (p + q) * m == (x + y) * d,
    ;
    assert(r.numer * m == (x + y) * r.denom) by (nonlinear_arith)
        requires
            (r.numer * m - (x + y) * r.denom) * d == 0,
            d > 0,
    ;
}

/// A multiple of a note value always fits, and is that multiple of its
/// 2048ths.
pub proof fn lemma_times_on_grid(note: NoteDuration, count: u32)
    ensures
        spec_times(note, count) matches Some(d) && d.wf() && on_grid(
            d.0.0,
            note_units(note) * count,
            grid(),
        ),
{
    let a = note.spec_to_duration().0.0;
    let c = Rational { numer: count as i64, denom: 1 };
    note.lemma_to_duration();
    lemma_note_units(note);
    lemma_integer_value(count as int);
    let n = a.numer * c.numer;
    let d = a.denom * c.denom;
    assert(0 <= n <= 3 * 0x1_0000_0000 && d == a.denom) by (nonlinear_arith)
        requires
            n == a.numer * c.numer,
            d == a.denom * c.denom,
            0 < a.numer <= 3,
            0 <= c.numer < 0x1_0000_0000,
            c.denom == 1,
    ;
    lemma_lowest_value(n, d);
    lemma_lowest_form(n, d);
    let r = Rational::lowest(n, d);
    let u = note_units(note);
    assert(n * 2048 == (u * count) * d) by (nonlinear_arith)
        requires
            n == a.numer * count,
            d == a.denom,
            a.numer * 2048 == u * a.denom,
    ;
    assert((r.numer * 2048 - (u * count) * r.denom) * d == 0) by (nonlinear_arith)
        requires
            r.numer * d == n * r.denom,
            n * 2048 == (u * count) * d,
    ;
    assert(r.numer * 2048 == (u * count) * r.denom) by (nonlinear_arith)
        requires
            (r.numer * 2048 - (u * count) * r.denom) * d == 0,
            d > 0,
    ;
}

/// The 2048ths of a prefix are not negative and not more than those of a
/// longer prefix.
pub proof fn lemma_notes_units_grow(durs: Seq<NoteDuration>, k: nat, n: nat)
    requires
        k <= n <= durs.len(),
    ensures
        0 <= notes_units(durs, k) <= notes_units(durs, n),
    decreases n,
{
    if k < n {
        lemma_notes_units_grow(durs, k, (n - 1) as nat);
        lemma_note_units(durs[n - 1]);
    } else if n > 0 {
        lemma_notes_units_grow(durs, (k - 1) as nat, (n - 1) as nat);
        lemma_note_units(durs[n - 1]);
    }
}

/// The first `k` values of a tied note add up to a span that fits, where
/// the 2048ths of the whole group are few enough.
pub proof fn lemma_tied_on_grid(durs: Seq<NoteDuration>, k: nat)
    requires
        k <= durs.len(),
        notes_units(durs, durs.len()) * 2048 <= i64::MAX,
    ensures
        Duration::spec_checked_sum(spans(durs).take(k as int)) matches Some(d) && d.wf() && on_grid(
            d.0.0,
            notes_units(durs, k),
            grid(),
        ),
    decreases k,
{
    if k == 0 {
        lemma_integer_value(0);
        assert(spans(durs).take(0).len() == 0);
    } else {
        lemma_tied_on_grid(durs, (k - 1) as nat);
        let prefix = spans(durs).take(k as int);
        assert(prefix.drop_last() =~= spans(durs).take(k - 1));
        assert(prefix.last() == durs[k - 1].spec_to_duration());
        let acc = Duration::spec_checked_sum(spans(durs).take(k - 1))->Some_0;
        let x = notes_units(durs, (k - 1) as nat);
        let y = note_units(durs[k - 1]);
        durs[k - 1].lemma_to_duration();
        lemma_note_units(durs[k - 1]);
        lemma_notes_units_grow(durs, (k - 1) as nat, durs.len());
        lemma_notes_units_grow(durs, k, durs.len());
        let total = notes_units(durs, durs.len());
        assert((x + y) * 2048 <= total * 2048) by (nonlinear_arith)
            requires
                x + y <= total,
        ;
        lemma_add_on_grid(acc.0.0, durs[k - 1].spec_to_duration().0.0, x, y, 2048);
    }
}

/// The 2048ths of a segment are not negative.
pub proof fn lemma_segment_units(s: RhythmSegment)
    ensures
        segment_units(s) >= 0,
{
    match s {
        RhythmSegment::Note(d) => lemma_note_units(d),
        RhythmSegment::Rest(d) => lemma_note_units(d),
        RhythmSegment::TiedNote(durs) => lemma_notes_units_grow(durs@, 0, durs.len() as nat),
        RhythmSegment::Tuplet { actual, normal, note_duration, rhythm, do_not_construct } => {
            lemma_note_units(note_duration);
            assert(note_units(note_duration) * normal >= 0) by (nonlinear_arith)
                requires
                    note_units(note_duration) > 0,
                    normal >= 0,
            ;
        },
    }
}

/// The 2048ths of a prefix are not negative and not more than those of a
/// longer prefix.
pub proof fn lemma_segments_units_grow(segs: Seq<RhythmSegment>, k: nat, n: nat)
    requires
        k <= n <= segs.len(),
    ensures
        0 <= segments_units(segs, k) <= segments_units(segs, n),
    decreases n,
{
    if k < n {
        lemma_segments_units_grow(segs, k, (n - 1) as nat);
        lemma_segment_units(segs[n - 1]);
    } else if n > 0 {
        lemma_segments_units_grow(segs, (k - 1) as nat, (n - 1) as nat);
        lemma_segment_units(segs[n - 1]);
    }
}

/// A segment whose 2048ths are few enough has a span, and the span is
/// that many 2048ths.
pub proof fn lemma_segment_on_grid(s: RhythmSegment)
    requires
        segment_units(s) * 2048 <= i64::MAX,
    ensures
        s.spec_duration() matches Some(d) && d.wf() && on_grid(d.0.0, segment_units(s), grid()),
{
    match s {
        RhythmSegment::Note(d) => {
            d.lemma_to_duration();
            lemma_note_units(d);
        },
        RhythmSegment::Rest(d) => {
            d.lemma_to_duration();
            lemma_note_units(d);
        },
        RhythmSegment::TiedNote(durs) => {
            lemma_tied_on_grid(durs@, durs.len() as nat);
            assert(spans(durs@).take(durs.len() as int) =~= spans(durs@));
        },
        RhythmSegment::Tuplet { actual, normal, note_duration, rhythm, do_not_construct } => {
            lemma_times_on_grid(note_duration, normal);
        },
    }
}

/// The first `n` segments of a rhythm whose 2048ths are few enough have a
/// span, and it is their 2048ths.
pub proof fn lemma_segments_on_grid(segs: Seq<RhythmSegment>, n: nat)
    requires
        n <= segs.len(),
        segments_units(segs, segs.len()) * 2048 <= i64::MAX,
    ensures
        spec_duration_of(segs.take(n as int)) matches Some(d) && d.wf() && on_grid(
            d.0.0,
            segments_units(segs, n),
            grid(),
        ),
    decreases n,
{
    if n == 0 {
        lemma_integer_value(0);
        assert(segs.take(0).len() == 0);
    } else {
        lemma_segments_on_grid(segs, (n - 1) as nat);
        let prefix = segs.take(n as int);
        assert(prefix.drop_last() =~= segs.take(n - 1));
        assert(prefix.last() == segs[n - 1]);
        let acc = spec_duration_of(segs.take(n - 1))->Some_0;
        let x = segments_units(segs, (n - 1) as nat);
        let y = segment_units(segs[n - 1]);
        let total = segments_units(segs, segs.len());
        lemma_segment_units(segs[n - 1]);
        lemma_segments_units_grow(segs, (n - 1) as nat, segs.len());
        lemma_segments_units_grow(segs, n, segs.len());
        assert((x + y) * 2048 <= total * 2048 && y * 2048 <= total * 2048) by (nonlinear_arith)
            requires
                x + y <= total,
                x >= 0,
        ;
        lemma_segment_on_grid(segs[n - 1]);
        let d = segs[n - 1].spec_duration()->Some_0;
        lemma_add_on_grid(acc.0.0, d.0.0, x, y, 2048);
    }
}

/// A rhythm that lasts no more than `i64::MAX / 2048` 2048ths of a whole
/// note (about two million million whole notes) has a duration, at any depth of
/// tuplets, and the duration is exactly its 2048ths over 2048.
pub proof fn lemma_duration_exact(r: Rhythm)
    requires
        rhythm_units(r) * 2048 <= i64::MAX,
    ensures
        r.spec_duration() matches Some(d) && d.wf() && d.0.0.numer * 2048 == rhythm_units(r)
            * d.0.0.denom,
{
    lemma_segments_on_grid(r.segments@, r.segments.len() as nat);
    assert(r.segments@.take(r.segments.len() as int) =~= r.segments@);
}

/// How many parts of `m` the fraction `t` is, where its denominator divides
/// `m`.
pub open spec fn grid_numer(t: Rational, m: int) -> int {
    t.numer * (m / (t.denom as int))
}

/// `t` is a whole number of parts of `m`, not negative and at most `most`.
pub open spec fn within_grid(t: Rational, m: int, most: int) -> bool {
    &&& t.wf()
    &&& m % (t.denom as int) == 0
    &&& 0 <= grid_numer(t, m) <= most
}

/// A well-formed fraction that is `x` parts of `m` has a denominator that
/// divides `m`.
pub proof fn lemma_within_grid(t: Rational, x: int, m: int, most: int)
    requires
        t.wf(),
        m > 0,
        on_grid(t, x, m),
        0 <= x <= most,
    ensures
        within_grid(t, m, most),
        grid_numer(t, m) == x,
{
    let k = lemma_lowest_divides(t.numer as int, t.denom as int, x, m);
    let d = t.denom as int;
    lemma_mod_multiples_basic(k, d);
    lemma_div_multiples_vanish(k, d);
    assert(k * d == d * k) by (nonlinear_arith);
    assert(t.numer * k == k * t.numer) by (nonlinear_arith);
}

/// A fraction whose denominator divides `m` is `grid_numer` parts of `m`.
pub proof fn lemma_grid_parts(t: Rational, m: int)
    requires
        t.denom > 0,
        m % (t.denom as int) == 0,
    ensures
        on_grid(t, grid_numer(t, m), m),
{
    let d = t.denom as int;
    lemma_fundamental_div_mod(m, d);
    let k = m / d;
    assert(t.numer * m == (t.numer * k) * d) by (nonlinear_arith)
        requires
            m == d * k,
    ;
}

/// Two fractions that are whole numbers of parts of `m1` and of `m2`, not
/// negative and small enough, have a product that fits, and it is the
/// product of the parts, of `m1 * m2`.
pub proof fn lemma_mul_on_grid(a: Rational, b: Rational, x: int, y: int, m1: int, m2: int)
    requires
        a.wf(),
        b.wf(),
        m1 > 0,
        m2 > 0,
        x >= 0,
        y >= 0,
        on_grid(a, x, m1),
        on_grid(b, y, m2),
        x * y <= i64::MAX,
        m1 * m2 <= i64::MAX,
    ensures
        a.spec_checked_mul(b) matches Some(r) && r.wf() && on_grid(r, x * y, m1 * m2),
{
    let k = lemma_lowest_divides(a.numer as int, a.denom as int, x, m1);
    let j = lemma_lowest_divides(b.numer as int, b.denom as int, y, m2);
    let n = a.numer * b.numer;
    let d = a.denom * b.denom;
    assert(k >= 1 && j >= 1) by (nonlinear_arith)
        requires
            m1 == k * a.denom,
            m2 == j * b.denom,
            m1 > 0,
            m2 > 0,
            a.denom > 0,
            b.denom > 0,
    ;
    assert(0 <= a.numer <= x && 0 <= b.numer <= y && a.denom <= m1 && b.denom <= m2)
        by (nonlinear_arith)
        requires
            x == k * a.numer,
            y == j * b.numer,
            m1 == k * a.denom,
            m2 == j * b.denom,
            k >= 1,
            j >= 1,
            x >= 0,
            y >= 0,
            a.denom > 0,
            b.denom > 0,
    ;
    assert(0 <= n <= x * y && 0 < d <= m1 * m2) by (nonlinear_arith)
        requires
            n == a.numer * b.numer,
            d == a.denom * b.denom,
            0 <= a.numer <= x,
            0 <= b.numer <= y,
            0 < a.denom <= m1,
            0 < b.denom <= m2,
    ;
    assert(a.mul_fits(b));
    lemma_lowest_value(n, d);
    lemma_lowest_form(n, d);
    let r = Rational::lowest(n, d);
    let p = a.numer * m1;
    let q = b.numer * m2;
    assert(n * (m1 * m2) == p * q) by (nonlinear_arith)
        requires
            n == a.numer * b.numer,
            p == a.numer * m1,
            q == b.numer * m2,
    ;
    assert(p * q == (x * y) * d) by (nonlinear_arith)
        requires
            p == x * a.denom,
            q == y * b.denom,
            d == a.denom * b.denom,
    ;
    assert((r.numer * (m1 * m2) - (x * y) * r.denom) * d == 0) by (nonlinear_arith)
        requires
            r.numer * d == n * r.denom,
            n * (m1 * m2) == (x * y) * d,
    ;
    assert(r.numer * (m1 * m2) == (x * y) * r.denom) by (nonlinear_arith)
        requires
            (r.numer * (m1 * m2) - (x * y) * r.denom) * d == 0,
            d > 0,
    ;
}

/// A fraction that is `x` parts of `m` is `x * s` parts of `m * s`.
pub proof fn lemma_finer_grid(t: Rational, x: int, m: int, s: int)
    requires
        on_grid(t, x, m),
    ensures
        on_grid(t, x * s, m * s),
{
    assert(t.numer * (m * s) == (x * s) * t.denom) by (nonlinear_arith)
        requires
            t.numer * m == x * t.denom,
    ;
}

/// Two fractions that are whole numbers of parts of `m`, not negative and
/// small enough, have a difference that fits. It is the difference of the
/// parts, and its absolute value the distance of the parts.
pub proof fn lemma_sub_on_grid(a: Rational, b: Rational, x: int, y: int, m: int)
    requires
        a.wf(),
        b.wf(),
        m > 0,
        x >= 0,
        y >= 0,
        on_grid(a, x, m),
        on_grid(b, y, m),
        x * m <= i64::MAX,
        y * m <= i64::MAX,
        m * m <= i64::MAX,
    ensures
        a.spec_checked_sub(b) matches Some(r) && r.wf() && on_grid(r, x - y, m) && r.spec_abs().wf()
            && on_grid(r.spec_abs(), if x < y { y - x } else { x - y }, m),
{
    let k = lemma_lowest_divides(a.numer as int, a.denom as int, x, m);
    let j = lemma_lowest_divides(b.numer as int, b.denom as int, y, m);
    let p = a.numer * b.denom;
    let q = b.numer * a.denom;
    let d = a.denom * b.denom;
    assert(k >= 1 && j >= 1) by (nonlinear_arith)
        requires
            m == k * a.denom,
            m == j * b.denom,
            m > 0,
            a.denom > 0,
            b.denom > 0,
    ;
    assert(0 <= a.numer <= x && 0 <= b.numer <= y && a.denom <= m && b.denom <= m)
        by (nonlinear_arith)
        requires
            x == k * a.numer,
            y == j * b.numer,
            m == k * a.denom,
            m == j * b.denom,
            k >= 1,
            j >= 1,
            x >= 0,
            y >= 0,
            a.denom > 0,
            b.denom > 0,
    ;
    assert(0 <= p <= x * m && 0 <= q <= y * m && 0 < d <= m * m) by (nonlinear_arith)
        requires
            p == a.numer * b.denom,
            q == b.numer * a.denom,
            d == a.denom * b.denom,
            0 <= a.numer <= x,
            0 <= b.numer <= y,
            0 < a.denom <= m,
            0 < b.denom <= m,
    ;
    assert(a.sub_fits(b));
    lemma_lowest_value(p - q, d);
    lemma_lowest_form(p - q, d);
    let r = Rational::lowest(p - q, d);
    assert((p - q) * m == (x - y) * d) by (nonlinear_arith)
        requires
            p == a.numer * b.denom,
            q == b.numer * a.denom,
            d == a.denom * b.denom,
            a.numer * m == x * a.denom,
            b.numer * m == y * b.denom,
    ;
    assert((r.numer * m - (x - y) * r.denom) * d == 0) by (nonlinear_arith)
        requires
            r.numer * d == (p - q) * r.denom,
            (p - q) * m == (x - y) * d,
    ;
    assert(r.numer * m == (x - y) * r.denom) by (nonlinear_arith)
        requires
            (r.numer * m - (x - y) * r.denom) * d == 0,
            d > 0,
    ;
    lemma_abs_value(r);
    assert((r.numer < 0) == (x < y)) by (nonlinear_arith)
        requires
            r.numer * m == (x - y) * r.denom,
            m > 0,
            r.denom > 0,
    ;
    if r.numer < 0 {
        assert((-r.numer) * m == (y - x) * r.denom) by (nonlinear_arith)
            requires
                r.numer * m == (x - y) * r.denom,
        ;
    }
}

} // verus!
