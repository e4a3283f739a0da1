//! How a note value is written: which notehead it gets and how many flags
//! its stem carries.

use vstd::prelude::*;
use crate::rhythm::NoteDurationKind;

verus! {

/// The shape of a notehead.
#[derive(Clone, Copy, Debug, PartialEq, Eq, Structural, Hash)]
pub enum Notehead {
    /// The open head without a stem of a whole note.
    Whole,
    /// The open head of a half note.
    Half,
    /// The filled head of every shorter note.
    Black,
}

impl NoteDurationKind {
    /// The flags on the stem of a note of this kind: none down to the
    /// quarter note, then one more for each halving.
    pub open spec fn spec_flags(self) -> nat {
        if self.index() <= 2 {
            0
        } else {
            (self.index() - 2) as nat
        }
    }

    /// The notehead of a note of this kind.
    pub fn notehead(self) -> (head: Notehead)
        ensures
            head == (match self {
                NoteDurationKind::Whole => Notehead::Whole,
                NoteDurationKind::Half => Notehead::Half,
                _ => Notehead::Black,
            }),
            (head == Notehead::Black) == (self.denominator() >= 4),
    {
        match self {
            NoteDurationKind::Whole => Notehead::Whole,
            NoteDurationKind::Half => Notehead::Half,
            _ => Notehead::Black,
        }
    }

    /// The flags on the stem of a note of this kind.
    pub fn flags(self) -> (count: u8)
        ensures
            count == self.spec_flags(),
            (count == 0) == (self.denominator() <= 4),
    {
        match self {
            NoteDurationKind::Whole => 0,
            NoteDurationKind::Half => 0,
            NoteDurationKind::Quarter => 0,
            NoteDurationKind::Eigth => 1,
            NoteDurationKind::Sixteenth => 2,
            NoteDurationKind::Nd32 => 3,
            NoteDurationKind::Nd64 => 4,
            NoteDurationKind::Nd128 => 5,
            NoteDurationKind::Nd256 => 6,
            NoteDurationKind::Nd512 => 7,
            NoteDurationKind::Nd1024 => 8,
        }
    }
}

} // verus!
