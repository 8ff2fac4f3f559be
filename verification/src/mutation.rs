//! Mutating a clip instruction: a mutation of a note or a rhythm draws one of its parts anew (or
//! the whole instruction); any other instruction is drawn anew. The random draws are made by
//! the caller and handed in.
use crate::sequencer::{ClipInst, SeqCall};
use crate::units::{Duration, Note, Velocity};
use vstd::prelude::*;

verus! {

/// The part of an instruction that a mutation draws anew.
#[derive(Clone, Copy, Debug, PartialEq, Eq, Structural)]
pub enum PartKind {
    Note,
    Notes,
    Velocity,
    Duration,
    Rhythm,
    Inst,
}

/// A part drawn anew for an instruction.
#[derive(Clone, Debug, PartialEq)]
pub enum InstPart {
    /// The note of a single note.
    Note(Note),
    /// The notes of a rhythm.
    Notes(Vec<Note>),
    Velocity(Velocity),
    Duration(Duration),
    /// The pulses, length and offset of a rhythm.
    Rhythm(u32, u32, u32),
    /// A whole instruction.
    Inst(ClipInst),
}

/// How many kinds of mutation an instruction has: a note changes its note, velocity or duration
/// or is replaced; a rhythm changes its notes, velocity, duration or Euclidean parameters or is
/// replaced; any other instruction is replaced.
pub open spec fn mutation_kind_count(inst: ClipInst) -> u32 {
    match inst {
        ClipInst::Call(SeqCall::QueueNote(..)) => 4,
        ClipInst::Call(SeqCall::QueueSequence(..)) => 5,
        _ => 1,
    }
}

/// The part that mutation `kind` of `inst` draws anew.
pub open spec fn mutation_part(inst: ClipInst, kind: u32) -> PartKind {
    match inst {
        ClipInst::Call(SeqCall::QueueNote(..)) => if kind == 0 {
            PartKind::Note
        } else if kind == 1 {
            PartKind::Velocity
        } else if kind == 2 {
            PartKind::Duration
        } else {
            PartKind::Inst
        },
        ClipInst::Call(SeqCall::QueueSequence(..)) => if kind == 0 {
            PartKind::Notes
        } else if kind == 1 {
            PartKind::Velocity
        } else if kind == 2 {
            PartKind::Duration
        } else if kind == 3 {
            PartKind::Rhythm
        } else {
            PartKind::Inst
        },
        _ => PartKind::Inst,
    }
}

/// The kind of a part.
pub open spec fn part_kind(part: InstPart) -> PartKind {
    match part {
        InstPart::Note(_) => PartKind::Note,
        InstPart::Notes(_) => PartKind::Notes,
        InstPart::Velocity(_) => PartKind::Velocity,
        InstPart::Duration(_) => PartKind::Duration,
        InstPart::Rhythm(..) => PartKind::Rhythm,
        InstPart::Inst(_) => PartKind::Inst,
    }
}

/// The instruction with `part` put in place of the part of its kind (a whole instruction
/// replaces it).
pub open spec fn with_part(inst: ClipInst, part: InstPart) -> ClipInst {
    match (inst, part) {
        (_, InstPart::Inst(i)) => i,
        (ClipInst::Call(SeqCall::QueueNote(c, _, v, d)), InstPart::Note(n)) => ClipInst::Call(
            SeqCall::QueueNote(c, n, v, d),
        ),
        (ClipInst::Call(SeqCall::QueueNote(c, n, _, d)), InstPart::Velocity(v)) => ClipInst::Call(
            SeqCall::QueueNote(c, n, v, d),
        ),
        (ClipInst::Call(SeqCall::QueueNote(c, n, v, _)), InstPart::Duration(d)) => ClipInst::Call(
            SeqCall::QueueNote(c, n, v, d),
        ),
        (
            ClipInst::Call(SeqCall::QueueSequence(c, _, v, d, p, l, o)),
            InstPart::Notes(ns),
        ) => ClipInst::Call(SeqCall::QueueSequence(c, ns, v, d, p, l, o)),
        (
            ClipInst::Call(SeqCall::QueueSequence(c, ns, _, d, p, l, o)),
            InstPart::Velocity(v),
        ) => ClipInst::Call(SeqCall::QueueSequence(c, ns, v, d, p, l, o)),
        (
            ClipInst::Call(SeqCall::QueueSequence(c, ns, v, _, p, l, o)),
            InstPart::Duration(d),
        ) => ClipInst::Call(SeqCall::QueueSequence(c, ns, v, d, p, l, o)),
        (
            ClipInst::Call(SeqCall::QueueSequence(c, ns, v, d, _, _, _)),
            InstPart::Rhythm(p, l, o),
        ) => ClipInst::Call(SeqCall::QueueSequence(c, ns, v, d, p, l, o)),
        _ => inst,
    }
}

/// How many kinds of mutation `inst` has (see `mutation_kind_count`).
pub fn mutation_kinds(inst: &ClipInst) -> (r: u32)
    ensures
        r == mutation_kind_count(*inst),
        *inst matches ClipInst::Call(SeqCall::QueueNote(..)) ==> r == 4,
        *inst matches ClipInst::Call(SeqCall::QueueSequence(..)) ==> r == 5,
        !(*inst matches ClipInst::Call(SeqCall::QueueNote(..))) && !(*inst matches ClipInst::Call(
            SeqCall::QueueSequence(..),
        )) ==> r == 1,
{
    match inst {
        ClipInst::Call(SeqCall::QueueNote(..)) => 4,
        ClipInst::Call(SeqCall::QueueSequence(..)) => 5,
        _ => 1,
    }
}

/// The part that mutation `kind` of `inst` draws anew (see `mutation_part`).
pub fn part_needed(inst: &ClipInst, kind: u32) -> (r: PartKind)
    requires
        kind < mutation_kind_count(*inst),
    ensures
        r == mutation_part(*inst, kind),
        *inst matches ClipInst::Call(SeqCall::QueueNote(..)) ==> r == seq![
            PartKind::Note,
            PartKind::Velocity,
            PartKind::Duration,
            PartKind::Inst,
        ][kind as int],
        *inst matches ClipInst::Call(SeqCall::QueueSequence(..)) ==> r == seq![
            PartKind::Notes,
            PartKind::Velocity,
            PartKind::Duration,
            PartKind::Rhythm,
            PartKind::Inst,
        ][kind as int],
        !(*inst matches ClipInst::Call(SeqCall::QueueNote(..))) && !(*inst matches ClipInst::Call(
            SeqCall::QueueSequence(..),
        )) ==> r == PartKind::Inst,
{
    match inst {
        ClipInst::Call(SeqCall::QueueNote(..)) => {
            if kind == 0 {
                PartKind::Note
            } else if kind == 1 {
                PartKind::Velocity
            } else if kind == 2 {
                PartKind::Duration
            } else {
                PartKind::Inst
            }
        },
        ClipInst::Call(SeqCall::QueueSequence(..)) => {
            if kind == 0 {
                PartKind::Notes
            } else if kind == 1 {
                PartKind::Velocity
            } else if kind == 2 {
                PartKind::Duration
            } else if kind == 3 {
                PartKind::Rhythm
            } else {
                PartKind::Inst
            }
        },
        _ => PartKind::Inst,
    }
}

impl InstPart {
    /// The kind of this part (see `part_kind`).
    pub fn kind(&self) -> (r: PartKind)
        ensures
            r == part_kind(*self),
    {
        match self {
            InstPart::Note(_) => PartKind::Note,
            InstPart::Notes(_) => PartKind::Notes,
            InstPart::Velocity(_) => PartKind::Velocity,
            InstPart::Duration(_) => PartKind::Duration,
            InstPart::Rhythm(..) => PartKind::Rhythm,
            InstPart::Inst(_) => PartKind::Inst,
        }
    }
}

/// Mutation `kind` of `inst`, with the part it draws anew: the part takes the place of the
/// instruction's part of that kind, or of the whole instruction.
pub fn mutate_inst(inst: ClipInst, kind: u32, part: InstPart) -> (r: ClipInst)
    requires
        kind < mutation_kind_count(inst),
        part_kind(part) == mutation_part(inst, kind),
    ensures
        r == with_part(inst, part),
        part matches InstPart::Inst(i) ==> r == i,
        inst matches ClipInst::Call(SeqCall::QueueNote(c, n, v, d)) ==> (part matches InstPart::Note(
            n2,
        ) ==> r == ClipInst::Call(SeqCall::QueueNote(c, n2, v, d))) && (part matches InstPart::Velocity(
            v2,
        ) ==> r == ClipInst::Call(SeqCall::QueueNote(c, n, v2, d))) && (part matches InstPart::Duration(
            d2,
        ) ==> r == ClipInst::Call(SeqCall::QueueNote(c, n, v, d2))),
        inst matches ClipInst::Call(SeqCall::QueueSequence(c, ns, v, d, p, l, o)) ==> (
        part matches InstPart::Notes(ns2) ==> r == ClipInst::Call(
            SeqCall::QueueSequence(c, ns2, v, d, p, l, o),
        )) && (part matches InstPart::Velocity(v2) ==> r == ClipInst::Call(
            SeqCall::QueueSequence(c, ns, v2, d, p, l, o),
        )) && (part matches InstPart::Duration(d2) ==> r == ClipInst::Call(
            SeqCall::QueueSequence(c, ns, v, d2, p, l, o),
        )) && (part matches InstPart::Rhythm(p2, l2, o2) ==> r == ClipInst::Call(
            SeqCall::QueueSequence(c, ns, v, d, p2, l2, o2),
        )),
{
    match (inst, part) {
        (_, InstPart::Inst(i)) => i,
        (ClipInst::Call(SeqCall::QueueNote(c, _, v, d)), InstPart::Note(n)) => ClipInst::Call(
            SeqCall::QueueNote(c, n, v, d),
        ),
        (ClipInst::Call(SeqCall::QueueNote(c, n, _, d)), InstPart::Velocity(v)) => ClipInst::Call(
            SeqCall::QueueNote(c, n, v, d),
        ),
        (ClipInst::Call(SeqCall::QueueNote(c, n, v, _)), InstPart::Duration(d)) => ClipInst::Call(
            SeqCall::QueueNote(c, n, v, d),
        ),
        (
            ClipInst::Call(SeqCall::QueueSequence(c, _, v, d, p, l, o)),
            InstPart::Notes(ns),
        ) => ClipInst::Call(SeqCall::QueueSequence(c, ns, v, d, p, l, o)),
        (
            ClipInst::Call(SeqCall::QueueSequence(c, ns, _, d, p, l, o)),
            InstPart::Velocity(v),
        ) => ClipInst::Call(SeqCall::QueueSequence(c, ns, v, d, p, l, o)),
        (
            ClipInst::Call(SeqCall::QueueSequence(c, ns, v, _, p, l, o)),
            InstPart::Duration(d),
        ) => ClipInst::Call(SeqCall::QueueSequence(c, ns, v, d, p, l, o)),
        (
            ClipInst::Call(SeqCall::QueueSequence(c, ns, v, d, _, _, _)),
            InstPart::Rhythm(p, l, o),
        ) => ClipInst::Call(SeqCall::QueueSequence(c, ns, v, d, p, l, o)),
        (other, _) => other,
    }
}

} // verus!
