//! Spans and points of time, each in one unit. A point plus a span is a
//! point; the difference of two points is a span.

use vstd::prelude::*;
use crate::lowest_terms::lemma_integer_is_lowest;
use crate::rational::{lemma_add_value, lemma_value_order, Rational};
use crate::rhythm::NoteDuration;
use crate::units::{seconds_per_whole_note, Seconds, Unit, WholeNotes};

verus! {

/// A span of time in the unit `U`.
#[derive(Clone, Copy, Debug, PartialEq, Eq, Structural, Hash)]
pub struct Duration<U>(pub U);

/// A point in time in the unit `U`, counted from the start of a rhythm line.
#[derive(Clone, Copy, Debug, PartialEq, Eq, Structural, Hash)]
pub struct Time<U>(pub U);

impl<U: Unit> View for Duration<U> {
    type V = real;

    open spec fn view(&self) -> real {
        self.0.ratio()@
    }
}

impl<U: Unit> View for Time<U> {
    type V = real;

    open spec fn view(&self) -> real {
        self.0.ratio()@
    }
}

/// A rational result, where there is one, as a span in `U`.
pub open spec fn as_duration<U: Unit>(r: Option<Rational>) -> Option<Duration<U>> {
    match r {
        Some(x) => Some(Duration::of(x)),
        None => None,
    }
}

/// A rational result, where there is one, as a point in `U`.
pub open spec fn as_time<U: Unit>(r: Option<Rational>) -> Option<Time<U>> {
    match r {
        Some(x) => Some(Time::at(x)),
        None => None,
    }
}

/// Whether every span of a sequence is well formed.
pub open spec fn all_wf<U: Unit>(s: Seq<Duration<U>>) -> bool {
    forall|i: int| 0 <= i < s.len() ==> (#[trigger] s[i]).wf()
}

/// The sum of the values of a sequence of spans.
pub open spec fn total<U: Unit>(s: Seq<Duration<U>>) -> real
    decreases s.len(),
{
    if s.len() == 0 {
        0real
    } else {
        total(s.drop_last()) + s.last()@
    }
}

impl<U: Unit> Duration<U> {
    /// The number of units is a well-formed fraction.
    pub open spec fn wf(self) -> bool {
        self.0.ratio().wf()
    }

    /// The span of `r` units.
    pub open spec fn of(r: Rational) -> Self {
        Duration(U::with_ratio(r))
    }

    /// The sum of two spans, where it fits.
    pub open spec fn spec_checked_add(self, rhs: Self) -> Option<Self> {
        as_duration(self.0.ratio().spec_checked_add(rhs.0.ratio()))
    }

    /// The difference of two spans, where it fits.
    pub open spec fn spec_checked_sub(self, rhs: Self) -> Option<Self> {
        as_duration(self.0.ratio().spec_checked_sub(rhs.0.ratio()))
    }

    /// The span times a factor, where it fits.
    pub open spec fn spec_checked_mul(self, factor: Rational) -> Option<Self> {
        as_duration(self.0.ratio().spec_checked_mul(factor))
    }

    /// The span over a divisor other than zero, where it fits.
    pub open spec fn spec_checked_div(self, divisor: Rational) -> Option<Self> {
        as_duration(self.0.ratio().spec_checked_div(divisor))
    }

    /// The spans added up from the left, starting at zero; nothing as soon as
    /// one sum does not fit.
    pub open spec fn spec_checked_sum(s: Seq<Self>) -> Option<Self>
        decreases s.len(),
    {
        if s.len() == 0 {
            Some(Self::of(Rational { numer: 0, denom: 1 }))
        } else {
            match Self::spec_checked_sum(s.drop_last()) {
                Some(acc) => acc.spec_checked_add(s.last()),
                None => None,
            }
        }
    }

    /// A sum that fits is the sum of the values.
    pub proof fn lemma_sum_value(s: Seq<Self>)
        requires
            all_wf(s),
        ensures
            Self::spec_checked_sum(s) matches Some(d) ==> d.wf() && d@ == total(s),
        decreases s.len(),
    {
        U::lemma_with_ratio(Rational { numer: 0, denom: 1 });
        if s.len() == 0 {
            let z = Rational { numer: 0, denom: 1 };
            lemma_integer_is_lowest(0);
            lemma_value_order(z, z);
        } else {
            Self::lemma_sum_value(s.drop_last());
            match Self::spec_checked_sum(s.drop_last()) {
                Some(acc) => {
                    lemma_add_value(acc.0.ratio(), s.last().0.ratio());
                    match acc.0.ratio().spec_checked_add(s.last().0.ratio()) {
                        Some(r) => {
                            U::lemma_with_ratio(r);
                        },
                        None => {},
                    }
                },
                None => {},
            }
        }
    }

    /// The empty span.
    pub fn zero() -> (z: Self)
        ensures
            z == Self::of(Rational { numer: 0, denom: 1 }),
            z.wf(),
            z@ == 0real,
    {
        Duration(U::zero())
    }

    /// The number of units.
    pub fn to_ratio(self) -> (r: Rational)
        ensures
            r == self.0.ratio(),
    {
        self.0.to_ratio()
    }

    /// The sum of two spans, or nothing where it does not fit.
    pub fn checked_add(self, rhs: Self) -> (res: Option<Self>)
        requires
            self.wf(),
            rhs.wf(),
        ensures
            res == self.spec_checked_add(rhs),
            res matches Some(d) ==> d.wf() && d@ == self@ + rhs@,
    {
        match self.0.checked_add(rhs.0) {
            Some(sum) => Some(Duration(sum)),
            None => None,
        }
    }

    /// The difference of two spans, or nothing where it does not fit.
    pub fn checked_sub(self, rhs: Self) -> (res: Option<Self>)
        requires
            self.wf(),
            rhs.wf(),
        ensures
            res == self.spec_checked_sub(rhs),
            res matches Some(d) ==> d.wf() && d@ == self@ - rhs@,
    {
        match self.0.checked_sub(rhs.0) {
            Some(difference) => Some(Duration(difference)),
            None => None,
        }
    }

    /// The span scaled by a rational factor.
    pub fn checked_mul(self, factor: Rational) -> (res: Option<Self>)
        requires
            self.wf(),
            factor.wf(),
        ensures
            res == self.spec_checked_mul(factor),
            res matches Some(d) ==> d.wf() && d@ == self@ * factor@,
    {
        match self.0.checked_mul(factor) {
            Some(product) => Some(Duration(product)),
            None => None,
        }
    }

    /// The span divided by a rational divisor; nothing for a zero divisor.
    pub fn checked_div(self, divisor: Rational) -> (res: Option<Self>)
        requires
            self.wf(),
            divisor.wf(),
        ensures
            res == self.spec_checked_div(divisor),
            res matches Some(d) ==> d.wf() && divisor@ != 0real && d@ == self@ / divisor@,
    {
        match self.0.checked_div(divisor) {
            Some(quotient) => Some(Duration(quotient)),
            None => None,
        }
    }

    /// The sum of the spans, added from the left.
    pub fn checked_sum(spans: &Vec<Self>) -> (res: Option<Self>)
        requires
            all_wf(spans@),
        ensures
            res == Self::spec_checked_sum(spans@),
            res matches Some(d) ==> d.wf() && d@ == total(spans@),
    {
        let mut acc = Self::zero();
        let mut i: usize = 0;
        while i < spans.len()
            invariant
                i <= spans.len(),
                all_wf(spans@),
                acc.wf(),
                Self::spec_checked_sum(spans@.take(i as int)) == Some(acc),
            decreases spans.len() - i,
        {
            proof {
                assert(spans@.take(i + 1).drop_last() =~= spans@.take(i as int));
            }
            match acc.checked_add(spans[i]) {
                Some(next) => {
                    acc = next;
                },
                None => {
                    proof {
                        Self::lemma_sum_prefix_fails(spans@, i + 1);
                    }
                    return None;
                },
            }
            i = i + 1;
        }
        proof {
            assert(spans@.take(i as int) =~= spans@);
            Self::lemma_sum_value(spans@);
        }
        Some(acc)
    }

    /// Once the sum of a prefix does not fit, the sum of the whole does not.
    pub proof fn lemma_sum_prefix_fails(s: Seq<Self>, n: int)
        requires
            0 <= n <= s.len(),
            Self::spec_checked_sum(s.take(n)) is None,
        ensures
            Self::spec_checked_sum(s) is None,
        decreases s.len() - n,
    {
        if n < s.len() {
            assert(s.take(n + 1).drop_last() =~= s.take(n));
            Self::lemma_sum_prefix_fails(s, n + 1);
        } else {
            assert(s.take(n) =~= s);
        }
    }

    /// Whether this one is less than `rhs`.
    pub fn lt(&self, rhs: &Self) -> (res: bool)
        requires
            self.wf(),
            rhs.wf(),
        ensures
            res == (self@ < rhs@),
    {
        self.0.lt(&rhs.0)
    }

    /// Whether this one is at most `rhs`.
    pub fn le(&self, rhs: &Self) -> (res: bool)
        requires
            self.wf(),
            rhs.wf(),
        ensures
            res == (self@ <= rhs@),
    {
        self.0.le(&rhs.0)
    }
}

impl<U: Unit> Time<U> {
    /// The number of units is a well-formed fraction.
    pub open spec fn wf(self) -> bool {
        self.0.ratio().wf()
    }

    /// The point `r` units after the start.
    pub open spec fn at(r: Rational) -> Self {
        Time(U::with_ratio(r))
    }

    /// The span from the start to this point.
    pub open spec fn spec_elapsed(self) -> Duration<U> {
        Duration(self.0)
    }

    /// The point `span` later, where it fits.
    pub open spec fn spec_checked_add(self, span: Duration<U>) -> Option<Self> {
        as_time(self.0.ratio().spec_checked_add(span.0.ratio()))
    }

    /// The span from `earlier` to this point, where it fits.
    pub open spec fn spec_checked_sub(self, earlier: Self) -> Option<Duration<U>> {
        as_duration(self.0.ratio().spec_checked_sub(earlier.0.ratio()))
    }

    /// The start of the line.
    pub fn zero() -> (z: Self)
        ensures
            z == Self::at(Rational { numer: 0, denom: 1 }),
            z.wf(),
            z@ == 0real,
    {
        Time(U::zero())
    }

    /// The number of units since the start.
    pub fn to_ratio(self) -> (r: Rational)
        ensures
            r == self.0.ratio(),
    {
        self.0.to_ratio()
    }

    /// The span from the start to this point.
    pub fn elapsed(self) -> (d: Duration<U>)
        ensures
            d == self.spec_elapsed(),
            d@ == self@,
            d.wf() == self.wf(),
    {
        Duration(self.0)
    }

    /// The point `span` later.
    pub fn checked_add(self, span: Duration<U>) -> (res: Option<Self>)
        requires
            self.wf(),
            span.wf(),
        ensures
            res == self.spec_checked_add(span),
            res matches Some(t) ==> t.wf() && t@ == self@ + span@,
    {
        match self.0.checked_add(span.0) {
            Some(sum) => Some(Time(sum)),
            None => None,
        }
    }

    /// The span from `earlier` to this point; negative where `earlier` is
    /// the later one.
    pub fn checked_sub(self, earlier: Self) -> (res: Option<Duration<U>>)
        requires
            self.wf(),
            earlier.wf(),
        ensures
            res == self.spec_checked_sub(earlier),
            res matches Some(d) ==> d.wf() && d@ == self@ - earlier@,
    {
        match self.0.checked_sub(earlier.0) {
            Some(difference) => Some(Duration(difference)),
            None => None,
        }
    }

    /// Whether this one is less than `rhs`.
    pub fn lt(&self, rhs: &Self) -> (res: bool)
        requires
            self.wf(),
            rhs.wf(),
        ensures
            res == (self@ < rhs@),
    {
        self.0.lt(&rhs.0)
    }

    /// Whether this one is at most `rhs`.
    pub fn le(&self, rhs: &Self) -> (res: bool)
        requires
            self.wf(),
            rhs.wf(),
        ensures
            res == (self@ <= rhs@),
    {
        self.0.le(&rhs.0)
    }
}

impl Duration<WholeNotes> {
    /// The span in seconds at a tempo.
    pub open spec fn spec_to_seconds(self, tempo: (NoteDuration, u32)) -> Option<Duration<Seconds>> {
        match self.0.spec_to_seconds(tempo) {
            Some(s) => Some(Duration(s)),
            None => None,
        }
    }

    /// The span in seconds at a tempo of `tempo.1` beats of `tempo.0` per
    /// minute.
    pub fn to_seconds(self, tempo: (NoteDuration, u32)) -> (res: Option<Duration<Seconds>>)
        requires
            self.wf(),
        ensures
            res == self.spec_to_seconds(tempo),
            res matches Some(d) ==> d.wf() && tempo.1 != 0 && d@ == self@ * seconds_per_whole_note(
                tempo,
            ),
    {
        match self.0.to_seconds(tempo) {
            Some(s) => Some(Duration(s)),
            None => None,
        }
    }
}

impl Time<WholeNotes> {
    /// The point in seconds at a tempo.
    pub open spec fn spec_to_seconds(self, tempo: (NoteDuration, u32)) -> Option<Time<Seconds>> {
        match self.0.spec_to_seconds(tempo) {
            Some(s) => Some(Time(s)),
            None => None,
        }
    }

    /// The point in seconds at a tempo of `tempo.1` beats of `tempo.0` per
    /// minute.
    pub fn to_seconds(self, tempo: (NoteDuration, u32)) -> (res: Option<Time<Seconds>>)
        requires
            self.wf(),
        ensures
            res == self.spec_to_seconds(tempo),
            res matches Some(t) ==> t.wf() && tempo.1 != 0 && t@ == self@ * seconds_per_whole_note(
                tempo,
            ),
    {
        match self.0.to_seconds(tempo) {
            Some(s) => Some(Time(s)),
            None => None,
        }
    }
}

} // verus!
