//! What can be wrong with a rhythm as it is read from text.

use vstd::prelude::*;
use vstd::std_specs::convert::FromSpecImpl;
use crate::rhythm::{NoteDurationKind, TupletInnerDurationMismatch};

verus! {

/// An error in the music itself, as opposed to its spelling.
#[derive(Clone, Copy, Debug, PartialEq, Eq)]
pub enum RhythmError {
    /// The inner rhythm of a tuplet does not last what the tuplet says.
    TupletInnerDurationMismatch(TupletInnerDurationMismatch),
    /// A note value that is not a power of two from 1 to 1024.
    InvalidNoteDuration(u32),
}

impl From<TupletInnerDurationMismatch> for RhythmError {
    fn from(v: TupletInnerDurationMismatch) -> (res: Self) {
        Self::TupletInnerDurationMismatch(v)
    }
}

impl FromSpecImpl<TupletInnerDurationMismatch> for RhythmError {
    open spec fn obeys_from_spec() -> bool {
        true
    }

    open spec fn from_spec(v: TupletInnerDurationMismatch) -> Self {
        RhythmError::TupletInnerDurationMismatch(v)
    }
}

/// The note kind of which `number` make a whole note, or the error that
/// names the number.
pub fn note_kind(number: u32) -> (res: Result<NoteDurationKind, RhythmError>)
    ensures
        match res {
            Ok(kind) => kind.denominator() == number,
            Err(e) => e == RhythmError::InvalidNoteDuration(number) && forall|
                kind: NoteDurationKind,
            |
                kind.denominator() != number,
        },
{
    match NoteDurationKind::from_number(number) {
        Some(kind) => Ok(kind),
        None => Err(RhythmError::InvalidNoteDuration(number)),
    }
}

} // verus!
