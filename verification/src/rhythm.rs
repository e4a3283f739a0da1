//! Written note values and the rhythm tree built from them.

use vstd::prelude::*;
use crate::grid::{
    lemma_duration_exact, lemma_segment_on_grid, lemma_times_on_grid, note_units, rhythm_units,
    segment_units,
};
use crate::lowest_terms::{gcd, is_lowest};
use crate::rational::{
    lemma_add_value, lemma_integer_value, lemma_is_lowest_of, lemma_mul_value, lemma_value_order,
    lemma_value_unique, Rational,
};
use crate::time::{all_wf, total, Duration};
use crate::units::WholeNotes;

verus! {

/// A written note value: a power-of-two part of a whole note.
#[derive(Clone, Copy, Debug, PartialEq, Eq, Structural, Hash)]
pub enum NoteDurationKind {
    Whole,
    Half,
    Quarter,
    Eigth,
    Sixteenth,
    Nd32,
    Nd64,
    Nd128,
    Nd256,
    Nd512,
    Nd1024,
}

/// A written note value, possibly dotted. The dot lengthens the note by
/// half; it never changes the kind.
#[derive(Clone, Copy, Debug, PartialEq, Eq, Structural, Hash)]
pub struct NoteDuration {
    pub kind: NoteDurationKind,
    pub dotted: bool,
}

impl NoteDurationKind {
    /// The position in the series whole, half, quarter, ...
    pub open spec fn index(self) -> nat {
        match self {
            NoteDurationKind::Whole => 0,
            NoteDurationKind::Half => 1,
            NoteDurationKind::Quarter => 2,
            NoteDurationKind::Eigth => 3,
            NoteDurationKind::Sixteenth => 4,
            NoteDurationKind::Nd32 => 5,
            NoteDurationKind::Nd64 => 6,
            NoteDurationKind::Nd128 => 7,
            NoteDurationKind::Nd256 => 8,
            NoteDurationKind::Nd512 => 9,
            NoteDurationKind::Nd1024 => 10,
        }
    }

    /// How many notes of this kind make a whole note.
    pub open spec fn denominator(self) -> int {
        match self {
            NoteDurationKind::Whole => 1,
            NoteDurationKind::Half => 2,
            NoteDurationKind::Quarter => 4,
            NoteDurationKind::Eigth => 8,
            NoteDurationKind::Sixteenth => 16,
            NoteDurationKind::Nd32 => 32,
            NoteDurationKind::Nd64 => 64,
            NoteDurationKind::Nd128 => 128,
            NoteDurationKind::Nd256 => 256,
            NoteDurationKind::Nd512 => 512,
            NoteDurationKind::Nd1024 => 1024,
        }
    }

    /// The part of a whole note that a note of this kind lasts.
    pub open spec fn spec_to_ratio(self) -> Rational {
        Rational { numer: 1, denom: self.denominator() as i64 }
    }

    /// Each kind lasts half as long as the one before it, starting from the
    /// whole note: the parts are a strictly decreasing series of powers of
    /// two.
    pub proof fn lemma_halving(self, next: NoteDurationKind)
        requires
            next.index() == self.index() + 1,
        ensures
            next.denominator() == 2 * self.denominator(),
            next.spec_to_ratio()@ < self.spec_to_ratio()@,
            NoteDurationKind::Whole.denominator() == 1,
    {
        lemma_value_order(next.spec_to_ratio(), self.spec_to_ratio());
    }

    /// The part of a whole note that a note of this kind lasts.
    pub fn to_ratio(self) -> (r: Rational)
        ensures
            r == self.spec_to_ratio(),
            r.wf(),
            r@ == 1real / (self.denominator() as real),
    {
        let denom: i64 = match self {
            NoteDurationKind::Whole => 1,
            NoteDurationKind::Half => 2,
            NoteDurationKind::Quarter => 4,
            NoteDurationKind::Eigth => 8,
            NoteDurationKind::Sixteenth => 16,
            NoteDurationKind::Nd32 => 32,
            NoteDurationKind::Nd64 => 64,
            NoteDurationKind::Nd128 => 128,
            NoteDurationKind::Nd256 => 256,
            NoteDurationKind::Nd512 => 512,
            NoteDurationKind::Nd1024 => 1024,
        };
        proof {
            lemma_unit_fraction_lowest(denom as int);
        }
        Rational { numer: 1, denom }
    }

    /// The kind of which `number` make a whole note, where `number` is one of
    /// the powers of two from 1 to 1024.
    pub fn from_number(number: u32) -> (res: Option<NoteDurationKind>)
        ensures
            match res {
                Some(kind) => kind.denominator() == number,
                None => forall|kind: NoteDurationKind| kind.denominator() != number,
            },
    {
        match number {
            1 => Some(NoteDurationKind::Whole),
            2 => Some(NoteDurationKind::Half),
            4 => Some(NoteDurationKind::Quarter),
            8 => Some(NoteDurationKind::Eigth),
            16 => Some(NoteDurationKind::Sixteenth),
            32 => Some(NoteDurationKind::Nd32),
            64 => Some(NoteDurationKind::Nd64),
            128 => Some(NoteDurationKind::Nd128),
            256 => Some(NoteDurationKind::Nd256),
            512 => Some(NoteDurationKind::Nd512),
            1024 => Some(NoteDurationKind::Nd1024),
            _ => None,
        }
    }
}

/// One over a positive number is in lowest terms.
pub proof fn lemma_unit_fraction_lowest(d: int)
    requires
        d > 0,
    ensures
        is_lowest(1, d),
{
    reveal_with_fuel(gcd, 4);
    if d > 1 {
        vstd::arithmetic::div_mod::lemma_small_mod(1, d as nat);
        assert((d as nat) % 1 == 0);
    }
}

/// Three over twice a power of two, up to 2048, is in lowest terms.
proof fn lemma_dotted_lowest(kind: NoteDurationKind)
    ensures
        is_lowest(3, 2 * kind.denominator()),
{
    reveal_with_fuel(gcd, 6);
    match kind {
        NoteDurationKind::Whole => assert(gcd(3, 2) == 1),
        NoteDurationKind::Half => assert(gcd(3, 4) == 1),
        NoteDurationKind::Quarter => assert(gcd(3, 8) == 1),
        NoteDurationKind::Eigth => assert(gcd(3, 16) == 1),
        NoteDurationKind::Sixteenth => assert(gcd(3, 32) == 1),
        NoteDurationKind::Nd32 => assert(gcd(3, 64) == 1),
        NoteDurationKind::Nd64 => assert(gcd(3, 128) == 1),
        NoteDurationKind::Nd128 => assert(gcd(3, 256) == 1),
        NoteDurationKind::Nd256 => assert(gcd(3, 512) == 1),
        NoteDurationKind::Nd512 => assert(gcd(3, 1024) == 1),
        NoteDurationKind::Nd1024 => assert(gcd(3, 2048) == 1),
    }
}

impl NoteDuration {
    /// The length in whole notes, as a number.
    pub open spec fn whole_notes(self) -> real {
        if self.dotted {
            3real / ((2 * self.kind.denominator()) as real)
        } else {
            1real / (self.kind.denominator() as real)
        }
    }

    /// The length as a span: the kind's part of a whole note, times three
    /// halves where dotted.
    pub open spec fn spec_to_duration(self) -> Duration<WholeNotes> {
        if self.dotted {
            Duration(WholeNotes(Rational { numer: 3, denom: (2 * self.kind.denominator()) as i64 }))
        } else {
            Duration(WholeNotes(Rational { numer: 1, denom: self.kind.denominator() as i64 }))
        }
    }

    /// The span of a note value is well formed, positive, and has the value
    /// of `whole_notes`.
    pub proof fn lemma_to_duration(self)
        ensures
            self.spec_to_duration().wf(),
            self.spec_to_duration()@ == self.whole_notes(),
            self.whole_notes() > 0real,
    {
        let d = self.spec_to_duration().0.0;
        if self.dotted {
            lemma_dotted_lowest(self.kind);
        } else {
            lemma_unit_fraction_lowest(self.kind.denominator());
        }
        assert(d@ == d.numer as real / d.denom as real);
        assert(d.numer as real / d.denom as real > 0real) by (nonlinear_arith)
            requires
                d.numer > 0,
                d.denom > 0,
        ;
    }

    /// The length of the note as a span of whole notes.
    pub fn to_duration(self) -> (d: Duration<WholeNotes>)
        ensures
            d == self.spec_to_duration(),
            d.wf(),
            d@ == self.whole_notes(),
    {
        let whole = Duration::<WholeNotes>::whole_note();
        let kind = self.kind.to_ratio();
        let dot = if self.dotted {
            Rational { numer: 3, denom: 2 }
        } else {
            Rational::one()
        };
        proof {
            self.lemma_to_duration();
            reveal_with_fuel(gcd, 4);
            assert(dot.wf());
            let k = self.kind.denominator();
            assert(whole.0.0.numer * kind.numer == 1 && whole.0.0.denom * kind.denom == k)
                by (nonlinear_arith)
                requires
                    whole.0.0.numer == 1,
                    whole.0.0.denom == 1,
                    kind.numer == 1,
                    kind.denom == k,
            ;
            lemma_is_lowest_of(kind, 1, k);
            assert(kind.numer * dot.numer == dot.numer && kind.denom * dot.denom == k * dot.denom)
                by (nonlinear_arith)
                requires
                    kind.numer == 1,
                    kind.denom == k,
            ;
            lemma_is_lowest_of(self.spec_to_duration().0.0, dot.numer as int, k * dot.denom);
        }
        let plain = whole.checked_mul(kind).unwrap();
        plain.checked_mul(dot).unwrap()
    }
}

impl Duration<WholeNotes> {
    /// The span of a whole note.
    pub fn whole_note() -> (d: Self)
        ensures
            d == Duration(WholeNotes(Rational { numer: 1, denom: 1 })),
            d.wf(),
            d@ == 1real,
    {
        Duration(WholeNotes(Rational::one()))
    }

    /// The span of an undotted note of a kind.
    pub fn of_kind(kind: NoteDurationKind) -> (d: Self)
        ensures
            d == Duration(WholeNotes(kind.spec_to_ratio())),
            d.wf(),
            d@ == 1real / (kind.denominator() as real),
    {
        Duration(WholeNotes(kind.to_ratio()))
    }

    /// The span of a half note.
    pub fn half_note() -> (d: Self)
        ensures
            d == Duration(WholeNotes(Rational { numer: 1, denom: 2 })),
            d.wf(),
    {
        Self::of_kind(NoteDurationKind::Half)
    }

    /// The span of a quarter note.
    pub fn quarter_note() -> (d: Self)
        ensures
            d == Duration(WholeNotes(Rational { numer: 1, denom: 4 })),
            d.wf(),
    {
        Self::of_kind(NoteDurationKind::Quarter)
    }

    /// The span of an eighth note.
    pub fn eigth_note() -> (d: Self)
        ensures
            d == Duration(WholeNotes(Rational { numer: 1, denom: 8 })),
            d.wf(),
    {
        Self::of_kind(NoteDurationKind::Eigth)
    }

    /// The span of a sixteenth note.
    pub fn sixteenth_note() -> (d: Self)
        ensures
            d == Duration(WholeNotes(Rational { numer: 1, denom: 16 })),
            d.wf(),
    {
        Self::of_kind(NoteDurationKind::Sixteenth)
    }

    /// The span of a thirty-second note.
    pub fn thirtysecond_note() -> (d: Self)
        ensures
            d == Duration(WholeNotes(Rational { numer: 1, denom: 32 })),
            d.wf(),
    {
        Self::of_kind(NoteDurationKind::Nd32)
    }

    /// The span of a sixty-fourth note.
    pub fn sixtyfourth_note() -> (d: Self)
        ensures
            d == Duration(WholeNotes(Rational { numer: 1, denom: 64 })),
            d.wf(),
    {
        Self::of_kind(NoteDurationKind::Nd64)
    }

    /// The span of a hundred-and-twenty-eighth note.
    pub fn onehundredtwentyeighth_note() -> (d: Self)
        ensures
            d == Duration(WholeNotes(Rational { numer: 1, denom: 128 })),
            d.wf(),
    {
        Self::of_kind(NoteDurationKind::Nd128)
    }
}

/// A line of music: segments one after the other.
#[derive(Debug)]
pub struct Rhythm {
    pub segments: Vec<RhythmSegment>,
}

/// A field that only this module can fill, so that a tuplet is made by
/// `RhythmSegment::new_tuplet` and nowhere else.
#[derive(Debug)]
pub struct DoNotConstruct(());

/// One segment of a rhythm.
#[derive(Debug)]
pub enum RhythmSegment {
    /// One sounding note.
    Note(NoteDuration),
    /// Written note values that sound as one note. Never empty.
    TiedNote(Vec<NoteDuration>),
    /// Silence.
    Rest(NoteDuration),
    /// `actual` notes of `note_duration` in the space of `normal` such notes.
    /// The inner rhythm lasts `note_duration` times `actual` as written.
    Tuplet {
        actual: u32,
        normal: u32,
        note_duration: NoteDuration,
        rhythm: Box<Rhythm>,
        do_not_construct: DoNotConstruct,
    },
}

/// The inner rhythm of a tuplet does not last what the tuplet says.
#[derive(Clone, Copy, Debug, PartialEq, Eq)]
pub struct TupletInnerDurationMismatch {
    /// What the inner rhythm lasts.
    pub actual: Duration<WholeNotes>,
    /// What it should last: the note value times the tuplet's `actual`.
    pub expected: Duration<WholeNotes>,
}

/// The spans of a sequence of note values.
pub open spec fn spans(durs: Seq<NoteDuration>) -> Seq<Duration<WholeNotes>> {
    Seq::new(durs.len(), |i: int| durs[i].spec_to_duration())
}

/// `count` times the span of `note`, or nothing where it does not fit.
pub open spec fn spec_times(note: NoteDuration, count: u32) -> Option<Duration<WholeNotes>> {
    note.spec_to_duration().spec_checked_mul(Rational { numer: count as i64, denom: 1 })
}

/// The spans of the segments added up from the left, starting at zero;
/// nothing as soon as one span or one sum does not fit.
pub open spec fn spec_duration_of(segs: Seq<RhythmSegment>) -> Option<Duration<WholeNotes>>
    decreases segs.len(),
{
    if segs.len() == 0 {
        Some(Duration(WholeNotes(Rational { numer: 0, denom: 1 })))
    } else {
        match (spec_duration_of(segs.drop_last()), segs.last().spec_duration()) {
            (Some(acc), Some(d)) => acc.spec_checked_add(d),
            _ => None,
        }
    }
}

/// The lengths of the segments in whole notes, added up.
pub open spec fn whole_notes_of(segs: Seq<RhythmSegment>) -> real
    decreases segs.len(),
{
    if segs.len() == 0 {
        0real
    } else {
        whole_notes_of(segs.drop_last()) + segs.last().whole_notes()
    }
}

impl RhythmSegment {
    /// A tied note is not empty, and the inner rhythm of a tuplet is well
    /// formed and lasts the note value times `actual`.
    pub open spec fn wf(self) -> bool
        decreases self,
    {
        match self {
            RhythmSegment::Note(_) => true,
            RhythmSegment::TiedNote(durs) => durs.len() > 0,
            RhythmSegment::Rest(_) => true,
            RhythmSegment::Tuplet { actual, normal, note_duration, rhythm, do_not_construct } => {
                &&& rhythm.wf()
                &&& rhythm.spec_duration() is Some
                &&& rhythm.spec_duration() == spec_times(note_duration, actual)
            },
        }
    }

    /// The span that the segment takes in the rhythm that holds it, as
    /// written: for a tuplet the note value times `normal`.
    pub open spec fn spec_duration(self) -> Option<Duration<WholeNotes>> {
        match self {
            RhythmSegment::Note(d) => Some(d.spec_to_duration()),
            RhythmSegment::TiedNote(durs) => Duration::spec_checked_sum(spans(durs@)),
            RhythmSegment::Rest(d) => Some(d.spec_to_duration()),
            RhythmSegment::Tuplet { actual, normal, note_duration, rhythm, do_not_construct } => {
                spec_times(note_duration, normal)
            },
        }
    }

    /// The length of the segment in whole notes, as a number.
    pub open spec fn whole_notes(self) -> real {
        match self {
            RhythmSegment::Note(d) => d.whole_notes(),
            RhythmSegment::TiedNote(durs) => total(spans(durs@)),
            RhythmSegment::Rest(d) => d.whole_notes(),
            RhythmSegment::Tuplet { actual, normal, note_duration, rhythm, do_not_construct } => {
                note_duration.whole_notes() * (normal as real)
            },
        }
    }

    /// A span that fits is exactly the length of the segment.
    pub proof fn lemma_duration_value(self)
        ensures
            self.spec_duration() matches Some(d) ==> d.wf() && d@ == self.whole_notes(),
    {
        match self {
            RhythmSegment::Note(d) => d.lemma_to_duration(),
            RhythmSegment::Rest(d) => d.lemma_to_duration(),
            RhythmSegment::TiedNote(durs) => {
                lemma_spans_wf(durs@);
                Duration::lemma_sum_value(spans(durs@));
            },
            RhythmSegment::Tuplet { actual, normal, note_duration, rhythm, do_not_construct } => {
                lemma_times_value(note_duration, normal);
            },
        }
    }
}

/// The span of every note value is well formed.
pub proof fn lemma_spans_wf(durs: Seq<NoteDuration>)
    ensures
        all_wf(spans(durs)),
{
    assert forall|i: int| 0 <= i < spans(durs).len() implies (#[trigger] spans(durs)[i]).wf() by {
        durs[i].lemma_to_duration();
    }
}

/// A multiple of a note value that fits is exactly that multiple.
pub proof fn lemma_times_value(note: NoteDuration, count: u32)
    ensures
        spec_times(note, count) matches Some(d) ==> d.wf() && d@ == note.whole_notes() * (
        count as real),
{
    note.lemma_to_duration();
    lemma_integer_value(count as int);
    lemma_mul_value(note.spec_to_duration().0.0, Rational { numer: count as i64, denom: 1 });
}

/// A span of a sequence of segments that fits is exactly the sum of their
/// lengths.
pub proof fn lemma_duration_of_value(segs: Seq<RhythmSegment>)
    ensures
        spec_duration_of(segs) matches Some(d) ==> d.wf() && d@ == whole_notes_of(segs),
    decreases segs.len(),
{
    if segs.len() == 0 {
        lemma_integer_value(0);
    } else {
        lemma_duration_of_value(segs.drop_last());
        segs.last().lemma_duration_value();
        match (spec_duration_of(segs.drop_last()), segs.last().spec_duration()) {
            (Some(acc), Some(d)) => {
                lemma_add_value(acc.0.0, d.0.0);
            },
            _ => {},
        }
    }
}

/// Once the span of a prefix does not fit, the span of the whole does not.
pub proof fn lemma_duration_of_prefix_fails(segs: Seq<RhythmSegment>, n: int)
    requires
        0 <= n <= segs.len(),
        spec_duration_of(segs.take(n)) is None,
    ensures
        spec_duration_of(segs) is None,
    decreases segs.len() - n,
{
    if n < segs.len() {
        assert(segs.take(n + 1).drop_last() =~= segs.take(n));
        lemma_duration_of_prefix_fails(segs, n + 1);
    } else {
        assert(segs.take(n) =~= segs);
    }
}

impl Rhythm {
    /// Every segment is well formed.
    pub open spec fn wf(self) -> bool
        decreases self,
    {
        forall|i: int| 0 <= i < self.segments.len() ==> (#[trigger] self.segments[i]).wf()
    }

    /// The span of the whole line as written.
    pub open spec fn spec_duration(self) -> Option<Duration<WholeNotes>> {
        spec_duration_of(self.segments@)
    }

    /// The length of the whole line in whole notes: the sum of the lengths
    /// of its segments.
    pub open spec fn whole_notes(self) -> real {
        whole_notes_of(self.segments@)
    }
}

/// `count` times the span of `note`. It always fits.
pub fn times(note: NoteDuration, count: u32) -> (d: Duration<WholeNotes>)
    ensures
        spec_times(note, count) == Some(d),
        d.wf(),
        d@ == note.whole_notes() * (count as real),
        d.0.0.numer * 2048 == note_units(note) * count * d.0.0.denom,
{
    proof {
        lemma_times_value(note, count);
        lemma_times_on_grid(note, count);
    }
    note.to_duration().checked_mul(Rational::from_u32(count)).unwrap()
}

impl RhythmSegment {
    /// Makes a tuplet, if the inner rhythm lasts exactly `note_duration`
    /// times `actual`; else reports what it lasts and what it should last.
    /// This is the only way to make a tuplet. Returns nothing only where the
    /// duration of the inner rhythm does not fit, which takes more than
    /// `i64::MAX / 2048` 2048ths of a whole note.
    pub fn new_tuplet(actual: u32, normal: u32, note_duration: NoteDuration, rhythm: Rhythm) -> (res:
        Option<Result<RhythmSegment, TupletInnerDurationMismatch>>)
        ensures
            rhythm_units(rhythm) * 2048 <= i64::MAX ==> res is Some,
            match res {
                None => rhythm.spec_duration() is None,
                Some(Ok(segment)) => {
                    &&& rhythm.spec_duration() is Some
                    &&& rhythm.spec_duration() == spec_times(note_duration, actual)
                    &&& rhythm.whole_notes() == note_duration.whole_notes() * (actual as real)
                    &&& segment.wf() == rhythm.wf()
                    &&& segment matches RhythmSegment::Tuplet {
                        actual: a,
                        normal: n,
                        note_duration: d,
                        rhythm: r,
                        do_not_construct,
                    }
                    &&& a == actual
                    &&& n == normal
                    &&& d == note_duration
                    &&& *r == rhythm
                },
                Some(Err(mismatch)) => {
                    &&& rhythm.spec_duration() == Some(mismatch.actual)
                    &&& spec_times(note_duration, actual) == Some(mismatch.expected)
                    &&& mismatch.actual@ == rhythm.whole_notes()
                    &&& mismatch.expected@ == note_duration.whole_notes() * (actual as real)
                    &&& rhythm.whole_notes() != note_duration.whole_notes() * (actual as real)
                },
            },
    {
        proof {
            lemma_times_on_grid(note_duration, actual);
        }
        let actual_inner_duration = match rhythm.duration() {
            Some(d) => d,
            None => {
                return None;
            },
        };
        let expected_inner_duration = times(note_duration, actual);
        if actual_inner_duration == expected_inner_duration {
            Some(
                Ok(
                    RhythmSegment::Tuplet {
                        actual,
                        normal,
                        note_duration,
                        rhythm: Box::new(rhythm),
                        do_not_construct: DoNotConstruct(()),
                    },
                ),
            )
        } else {
            proof {
                if actual_inner_duration@ == expected_inner_duration@ {
                    lemma_value_unique(actual_inner_duration.0.0, expected_inner_duration.0.0);
                }
            }
            Some(
                Err(
                    TupletInnerDurationMismatch {
                        actual: actual_inner_duration,
                        expected: expected_inner_duration,
                    },
                ),
            )
        }
    }

    /// The span that the segment takes in the rhythm that holds it: the
    /// note value of a note or rest, the sum of the values of a tied note,
    /// and for a tuplet the note value times `normal`. Returns nothing only
    /// where the span does not fit, which takes more than `i64::MAX / 2048`
    /// 2048ths of a whole note.
    #[verifier::loop_isolation(false)]
    pub fn duration(&self) -> (res: Option<Duration<WholeNotes>>)
        ensures
            res == self.spec_duration(),
            res matches Some(d) ==> d.wf() && d@ == self.whole_notes(),
            segment_units(*self) * 2048 <= i64::MAX ==> (res matches Some(d) && d.0.0.numer * 2048
                == segment_units(*self) * d.0.0.denom),
    {
        proof {
            self.lemma_duration_value();
            if segment_units(*self) * 2048 <= i64::MAX {
                lemma_segment_on_grid(*self);
            }
        }
        match self {
            RhythmSegment::Note(dur) => Some(dur.to_duration()),
            RhythmSegment::TiedNote(durs) => {
                let mut acc = Duration::<WholeNotes>::zero();
                let mut i: usize = 0;
                while i < durs.len()
                    invariant
                        i <= durs.len(),
                        acc.wf(),
                        self.spec_duration() == Duration::spec_checked_sum(spans(durs@)),
                        Duration::spec_checked_sum(spans(durs@).take(i as int)) == Some(acc),
                    decreases durs.len() - i,
                {
                    proof {
                        assert(spans(durs@).take(i + 1).drop_last() =~= spans(durs@).take(i as int));
                    }
                    match acc.checked_add(durs[i].to_duration()) {
                        Some(next) => {
                            acc = next;
                        },
                        None => {
                            proof {
                                let prefix = spans(durs@).take(i + 1);
                                assert(prefix.last() == durs[i as int].spec_to_duration());
                                assert(Duration::spec_checked_sum(prefix) is None);
                                Duration::lemma_sum_prefix_fails(spans(durs@), i + 1);
                            }
                            return None;
                        },
                    }
                    i = i + 1;
                }
                proof {
                    assert(spans(durs@).take(i as int) =~= spans(durs@));
                }
                Some(acc)
            },
            RhythmSegment::Rest(dur) => Some(dur.to_duration()),
            RhythmSegment::Tuplet { actual: _, normal, note_duration, rhythm: _, do_not_construct: _ } => {
                Some(times(*note_duration, *normal))
            },
        }
    }
}

impl Rhythm {
    /// The span of the whole line as written: the sum of the spans of its
    /// segments. Returns nothing only where a sum does not fit, which takes
    /// more than `i64::MAX / 2048` 2048ths of a whole note.
    #[verifier::loop_isolation(false)]
    pub fn duration(&self) -> (res: Option<Duration<WholeNotes>>)
        ensures
            res == self.spec_duration(),
            res matches Some(d) ==> d.wf() && d@ == self.whole_notes(),
            rhythm_units(*self) * 2048 <= i64::MAX ==> (res matches Some(d) && d.0.0.numer * 2048
                == rhythm_units(*self) * d.0.0.denom),
    {
        proof {
            if rhythm_units(*self) * 2048 <= i64::MAX {
                lemma_duration_exact(*self);
            }
        }
        let mut acc = Duration::<WholeNotes>::zero();
        let mut i: usize = 0;
        while i < self.segments.len()
            invariant
                i <= self.segments.len(),
                acc.wf(),
                spec_duration_of(self.segments@.take(i as int)) == Some(acc),
            decreases self.segments.len() - i,
        {
            proof {
                assert(self.segments@.take(i + 1).drop_last() =~= self.segments@.take(i as int));
            }
            let next = match self.segments[i].duration() {
                Some(d) => acc.checked_add(d),
                None => None,
            };
            match next {
                Some(sum) => {
                    acc = sum;
                },
                None => {
                    proof {
                        lemma_duration_of_prefix_fails(self.segments@, i + 1);
                    }
                    return None;
                },
            }
            i = i + 1;
        }
        proof {
            assert(self.segments@.take(i as int) =~= self.segments@);
            lemma_duration_of_value(self.segments@);
        }
        Some(acc)
    }
}

} // verus!
