//! The two physical units of the timing model. A quantity in whole notes and
//! a quantity in seconds are different types and are never combined; the
//! tempo converts one into the other.

use vstd::prelude::*;
use crate::rational::{
    lemma_div_value, lemma_integer_value, lemma_lowest_bounds, lemma_mul_value, Rational,
};
use crate::rhythm::NoteDuration;

verus! {

/// A quantity measured in one unit: an exact rational with a unit's name.
pub trait Unit: Copy {
    /// The number of units.
    spec fn ratio(self) -> Rational;

    /// The quantity of `r` units.
    spec fn with_ratio(r: Rational) -> Self;

    /// The quantity of `r` units is `r` units.
    proof fn lemma_with_ratio(r: Rational)
        ensures
            Self::with_ratio(r).ratio() == r,
    ;

    /// A quantity is the quantity of its number of units.
    proof fn lemma_ratio_with(self)
        ensures
            Self::with_ratio(self.ratio()) == self,
    ;

    /// The number of units.
    fn to_ratio(self) -> (r: Rational)
        ensures
            r == self.ratio(),
    ;

    /// The quantity of `r` units.
    fn from_ratio(r: Rational) -> (u: Self)
        ensures
            u == Self::with_ratio(r),
    ;

    /// No units at all.
    fn zero() -> (z: Self)
        ensures
            z == Self::with_ratio(Rational::spec_zero()),
            z.ratio() == Rational::spec_zero(),
            z.ratio().wf(),
            z.ratio()@ == 0real,
    {
        proof {
            Self::lemma_with_ratio(Rational::spec_zero());
        }
        Self::from_ratio(Rational::zero())
    }

    /// The sum of two quantities, or nothing where it does not fit.
    fn checked_add(self, rhs: Self) -> (res: Option<Self>)
        requires
            self.ratio().wf(),
            rhs.ratio().wf(),
        ensures
            res == (match self.ratio().spec_checked_add(rhs.ratio()) {
                Some(r) => Some(Self::with_ratio(r)),
                None => None,
            }),
            res matches Some(u) ==> u.ratio().wf() && u.ratio()@ == self.ratio()@ + rhs.ratio()@,
    {
        match self.to_ratio().checked_add(rhs.to_ratio()) {
            Some(r) => {
                proof {
                    Self::lemma_with_ratio(r);
                }
                Some(Self::from_ratio(r))
            },
            None => None,
        }
    }

    /// The difference of two quantities, or nothing where it does not fit.
    fn checked_sub(self, rhs: Self) -> (res: Option<Self>)
        requires
            self.ratio().wf(),
            rhs.ratio().wf(),
        ensures
            res == (match self.ratio().spec_checked_sub(rhs.ratio()) {
                Some(r) => Some(Self::with_ratio(r)),
                None => None,
            }),
            res matches Some(u) ==> u.ratio().wf() && u.ratio()@ == self.ratio()@ - rhs.ratio()@,
    {
        match self.to_ratio().checked_sub(rhs.to_ratio()) {
            Some(r) => {
                proof {
                    Self::lemma_with_ratio(r);
                }
                Some(Self::from_ratio(r))
            },
            None => None,
        }
    }

    /// The quantity times a rational factor, or nothing where it does not
    /// fit.
    fn checked_mul(self, factor: Rational) -> (res: Option<Self>)
        requires
            self.ratio().wf(),
            factor.wf(),
        ensures
            res == (match self.ratio().spec_checked_mul(factor) {
                Some(r) => Some(Self::with_ratio(r)),
                None => None,
            }),
            res matches Some(u) ==> u.ratio().wf() && u.ratio()@ == self.ratio()@ * factor@,
    {
        match self.to_ratio().checked_mul(factor) {
            Some(r) => {
                proof {
                    Self::lemma_with_ratio(r);
                }
                Some(Self::from_ratio(r))
            },
            None => None,
        }
    }

    /// The quantity over a rational divisor, or nothing for a zero divisor
    /// or where it does not fit.
    fn checked_div(self, divisor: Rational) -> (res: Option<Self>)
        requires
            self.ratio().wf(),
            divisor.wf(),
        ensures
            res == (match self.ratio().spec_checked_div(divisor) {
                Some(r) => Some(Self::with_ratio(r)),
                None => None,
            }),
            res matches Some(u) ==> u.ratio().wf() && divisor@ != 0real && u.ratio()@
                == self.ratio()@ / divisor@,
    {
        match self.to_ratio().checked_div(divisor) {
            Some(r) => {
                proof {
                    Self::lemma_with_ratio(r);
                }
                Some(Self::from_ratio(r))
            },
            None => None,
        }
    }

    /// Whether this quantity is less than `rhs`.
    fn lt(&self, rhs: &Self) -> (res: bool)
        requires
            self.ratio().wf(),
            rhs.ratio().wf(),
        ensures
            res == (self.ratio()@ < rhs.ratio()@),
    {
        self.to_ratio().lt(&rhs.to_ratio())
    }

    /// Whether this quantity is at most `rhs`.
    fn le(&self, rhs: &Self) -> (res: bool)
        requires
            self.ratio().wf(),
            rhs.ratio().wf(),
        ensures
            res == (self.ratio()@ <= rhs.ratio()@),
    {
        self.to_ratio().le(&rhs.to_ratio())
    }
}

/// A quantity in whole notes.
#[derive(Clone, Copy, Debug, PartialEq, Eq, Structural, Hash)]
pub struct WholeNotes(pub Rational);

/// A quantity in seconds.
#[derive(Clone, Copy, Debug, PartialEq, Eq, Structural, Hash)]
pub struct Seconds(pub Rational);

impl Unit for WholeNotes {
    open spec fn ratio(self) -> Rational {
        self.0
    }

    open spec fn with_ratio(r: Rational) -> Self {
        WholeNotes(r)
    }

    proof fn lemma_with_ratio(r: Rational) {
    }

    proof fn lemma_ratio_with(self) {
    }

    fn to_ratio(self) -> (r: Rational) {
        self.0
    }

    fn from_ratio(r: Rational) -> (u: Self) {
        WholeNotes(r)
    }
}

impl Unit for Seconds {
    open spec fn ratio(self) -> Rational {
        self.0
    }

    open spec fn with_ratio(r: Rational) -> Self {
        Seconds(r)
    }

    proof fn lemma_with_ratio(r: Rational) {
    }

    proof fn lemma_ratio_with(self) {
    }

    fn to_ratio(self) -> (r: Rational) {
        self.0
    }

    fn from_ratio(r: Rational) -> (u: Self) {
        Seconds(r)
    }
}

impl View for WholeNotes {
    type V = real;

    open spec fn view(&self) -> real {
        self.0@
    }
}

impl View for Seconds {
    type V = real;

    open spec fn view(&self) -> real {
        self.0@
    }
}

/// The seconds that one whole note lasts at a tempo of `tempo.1` beats of
/// `tempo.0` per minute, as a number.
pub open spec fn seconds_per_whole_note(tempo: (NoteDuration, u32)) -> real {
    60real / (tempo.0.whole_notes() * (tempo.1 as real))
}

/// The whole notes played per minute at a tempo: the beat times the beats
/// per minute.
pub open spec fn spec_whole_notes_per_minute(tempo: (NoteDuration, u32)) -> Option<Rational> {
    tempo.0.spec_to_duration().0.0.spec_checked_mul(Rational { numer: tempo.1 as i64, denom: 1 })
}

/// The whole notes played per second at a tempo.
pub open spec fn spec_whole_notes_per_second(tempo: (NoteDuration, u32)) -> Option<Rational> {
    match spec_whole_notes_per_minute(tempo) {
        Some(per_minute) => per_minute.spec_checked_div(Rational { numer: 60, denom: 1 }),
        None => None,
    }
}

/// The seconds that one whole note lasts at a tempo; nothing at zero beats
/// per minute.
pub open spec fn spec_seconds_per_whole_note(tempo: (NoteDuration, u32)) -> Option<Rational> {
    match spec_whole_notes_per_second(tempo) {
        Some(per_second) => (Rational { numer: 1, denom: 1 }).spec_checked_div(per_second),
        None => None,
    }
}

/// The tempo factor exists for every tempo but zero beats per minute, and is
/// sixty over the product of the beat and the beats per minute.
pub proof fn lemma_tempo_factor(tempo: (NoteDuration, u32))
    ensures
        spec_seconds_per_whole_note(tempo) is Some <==> tempo.1 != 0,
        spec_seconds_per_whole_note(tempo) matches Some(f) ==> f.wf() && f@ > 0real && f@
            == seconds_per_whole_note(tempo),
{
    let beat = tempo.0.spec_to_duration().0.0;
    let bpm = Rational { numer: tempo.1 as i64, denom: 1 };
    let sixty = Rational { numer: 60, denom: 1 };
    let one = Rational { numer: 1, denom: 1 };
    tempo.0.lemma_to_duration();
    lemma_integer_value(tempo.1 as int);
    lemma_integer_value(60);
    lemma_integer_value(1);
    assert(0 < beat.numer <= 3 && 0 < beat.denom <= 2048);
    assert(0 <= beat.numer * bpm.numer <= 3 * 0x1_0000_0000 && beat.denom * bpm.denom
        == beat.denom) by (nonlinear_arith)
        requires
            0 < beat.numer <= 3,
            0 <= bpm.numer < 0x1_0000_0000,
            bpm.denom == 1,
    ;
    lemma_mul_value(beat, bpm);
    lemma_lowest_bounds(beat.numer * bpm.numer, beat.denom * bpm.denom);
    let per_minute = beat.spec_checked_mul(bpm)->Some_0;
    assert((beat.numer * bpm.numer == 0) == (tempo.1 == 0)) by (nonlinear_arith)
        requires
            beat.numer > 0,
            bpm.numer == tempo.1,
    ;
    assert(per_minute.numer * sixty.denom == per_minute.numer && per_minute.denom * sixty.numer
        == per_minute.denom * 60) by (nonlinear_arith)
        requires
            sixty.numer == 60,
            sixty.denom == 1,
    ;
    lemma_div_value(per_minute, sixty);
    lemma_lowest_bounds(per_minute.numer as int, per_minute.denom * 60);
    let per_second = per_minute.spec_checked_div(sixty)->Some_0;
    assert(one.numer * per_second.denom == per_second.denom && one.denom * per_second.numer
        == per_second.numer) by (nonlinear_arith)
        requires
            one.numer == 1,
            one.denom == 1,
    ;
    lemma_div_value(one, per_second);
    if tempo.1 != 0 {
        let f = one.spec_checked_div(per_second)->Some_0;
        let b = tempo.0.whole_notes();
        let m = tempo.1 as real;
        assert(f@ == 60real / (b * m) && f@ > 0real) by (nonlinear_arith)
            requires
                b > 0real,
                m > 0real,
                f@ == 1real / ((b * m) / 60real),
        ;
    }
}

impl WholeNotes {
    /// The number of units is a well-formed fraction.
    pub open spec fn wf(self) -> bool {
        self.0.wf()
    }

    /// The seconds that this many whole notes last at a tempo: the tempo
    /// factor times the quantity. Nothing at zero beats per minute or where
    /// the product does not fit.
    pub open spec fn spec_to_seconds(self, tempo: (NoteDuration, u32)) -> Option<Seconds> {
        match spec_seconds_per_whole_note(tempo) {
            Some(factor) => match factor.spec_checked_mul(self.0) {
                Some(r) => Some(Seconds(r)),
                None => None,
            },
            None => None,
        }
    }

    /// A conversion that fits is the quantity times the tempo factor.
    pub proof fn lemma_to_seconds(self, tempo: (NoteDuration, u32))
        requires
            self.wf(),
        ensures
            self.spec_to_seconds(tempo) matches Some(s) ==> s.wf() && tempo.1 != 0 && s@ == self@
                * seconds_per_whole_note(tempo),
    {
        lemma_tempo_factor(tempo);
        match spec_seconds_per_whole_note(tempo) {
            Some(factor) => {
                lemma_mul_value(factor, self.0);
                assert(factor@ * self@ == self@ * factor@) by (nonlinear_arith);
            },
            None => {},
        }
    }

    /// The seconds that this many whole notes last at a tempo of `tempo.1`
    /// beats of `tempo.0` per minute.
    pub fn to_seconds(self, tempo: (NoteDuration, u32)) -> (res: Option<Seconds>)
        requires
            self.wf(),
        ensures
            res == self.spec_to_seconds(tempo),
            res matches Some(s) ==> s.wf() && tempo.1 != 0 && s@ == self@ * seconds_per_whole_note(
                tempo,
            ),
    {
        proof {
            self.lemma_to_seconds(tempo);
        }
        match calculate_duration_multiplier(tempo) {
            Some(seconds_per_whole_note) => match seconds_per_whole_note.checked_mul(self.0) {
                Some(r) => Some(Seconds(r)),
                None => None,
            },
            None => None,
        }
    }
}

/// The seconds that one whole note lasts at a tempo of `tempo.1` beats of
/// `tempo.0` per minute: sixty over the product of the two. Nothing at zero
/// beats per minute.
pub fn calculate_duration_multiplier(tempo: (NoteDuration, u32)) -> (res: Option<Rational>)
    ensures
        res == spec_seconds_per_whole_note(tempo),
        res is Some <==> tempo.1 != 0,
        res matches Some(f) ==> f.wf() && f@ > 0real && f@ == seconds_per_whole_note(tempo),
{
    proof {
        lemma_tempo_factor(tempo);
        tempo.0.lemma_to_duration();
    }
    let whole_notes_per_minute = match tempo.0.to_duration().0.0.checked_mul(
        Rational::from_u32(tempo.1),
    ) {
        Some(r) => r,
        None => {
            return None;
        },
    };
    let whole_notes_per_second = match whole_notes_per_minute.checked_div(Rational::from_u32(60)) {
        Some(r) => r,
        None => {
            return None;
        },
    };
    Rational::one().checked_div(whole_notes_per_second)
}

impl Seconds {
    /// The number of units is a well-formed fraction.
    pub open spec fn wf(self) -> bool {
        self.0.wf()
    }

    /// The quantity without its sign.
    pub open spec fn spec_abs(self) -> Seconds {
        Seconds(self.0.spec_abs())
    }

    /// The absolute value.
    pub fn abs(&self) -> (s: Seconds)
        requires
            self.wf(),
        ensures
            s == self.spec_abs(),
            s.wf(),
            s@ == (if self@ < 0real { -self@ } else { self@ }),
    {
        Seconds(self.0.abs())
    }
}

} // verus!
