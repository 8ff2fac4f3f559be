//! Running through the instructions of a clip: which instruction comes next, given the jumps.
use crate::sequencer::ClipInst;
use vstd::prelude::*;

verus! {

/// The number of set flags.
pub open spec fn count_set(flags: Seq<bool>) -> nat
    decreases flags.len(),
{
    if flags.len() == 0 {
        0
    } else {
        count_set(flags.drop_last()) + if flags.last() {
            1nat
        } else {
            0nat
        }
    }
}

proof fn lemma_count_set_bound(flags: Seq<bool>)
    ensures
        count_set(flags) <= flags.len(),
    decreases flags.len(),
{
    if flags.len() > 0 {
        lemma_count_set_bound(flags.drop_last());
    }
}

proof fn lemma_count_set_update(flags: Seq<bool>, i: int)
    requires
        0 <= i < flags.len(),
        !flags[i],
    ensures
        count_set(flags.update(i, true)) == count_set(flags) + 1,
    decreases flags.len(),
{
    let g = flags.update(i, true);
    if i == flags.len() - 1 {
        assert(g.drop_last() =~= flags.drop_last());
    } else {
        lemma_count_set_update(flags.drop_last(), i);
        assert(g.drop_last() =~= flags.drop_last().update(i, true));
    }
}

/// Where a run through a clip stands. Indices from `start` up to 0 address a prefix clip played
/// before the clip, whose instructions have indices from 0 up to `end`; `jumped[i - start]`
/// records whether the jump at index `i` has jumped.
pub struct PlayerState {
    pub index: int,
    pub start: int,
    pub end: int,
    pub jumped: Seq<bool>,
    pub silence: bool,
}

/// The state after running instruction `inst` at the current index: a jump moves to its target
/// (never before the start) the first time it is reached and is passed over after that; every
/// instruction but a tick ends the initial silence.
pub open spec fn after_instruction(p: PlayerState, inst: ClipInst) -> PlayerState {
    match inst {
        ClipInst::Jmp(offset) => {
            let target = if p.index + offset < p.start {
                p.start
            } else {
                p.index + offset
            };
            if !p.jumped[p.index - p.start] {
                PlayerState {
                    index: target + 1,
                    jumped: p.jumped.update(p.index - p.start, true),
                    silence: false,
                    ..p
                }
            } else {
                PlayerState { index: p.index + 1, silence: false, ..p }
            }
        },
        ClipInst::Tick(_) => PlayerState { index: p.index + 1, ..p },
        ClipInst::Call(_) => PlayerState { index: p.index + 1, silence: false, ..p },
    }
}

/// A bound on the instructions a run has left: each step either uses up a jump or moves forward
/// without one.
pub open spec fn steps_bound(p: PlayerState) -> int {
    (p.jumped.len() - count_set(p.jumped)) * (p.jumped.len() + 1) + (p.end - p.index)
}

/// Steps through a clip, with an optional prefix clip before it.
pub struct ClipPlayer {
    index: i64,
    start: i64,
    end: i64,
    jumped: Vec<bool>,
    silence: bool,
}

impl View for ClipPlayer {
    type V = PlayerState;

    closed spec fn view(&self) -> PlayerState {
        PlayerState {
            index: self.index as int,
            start: self.start as int,
            end: self.end as int,
            jumped: self.jumped@,
            silence: self.silence,
        }
    }
}

impl ClipPlayer {
    /// The indices stay within reach of the clip and the jump record covers every index.
    pub closed spec fn well_formed(self) -> bool {
        &&& -0x1_0000_0000 <= self.start <= 0 <= self.end <= 0x1_0000_0000
        &&& self.end - self.start <= 0xffff_ffff
        &&& self.start <= self.index <= self.end + 0x8000_0000
        &&& self.jumped@.len() == self.end - self.start
    }

    /// A run through a prefix of `prefix_len` instructions and then a clip of `clip_len`.
    pub fn new(prefix_len: usize, clip_len: usize) -> (r: Self)
        requires
            prefix_len + clip_len <= u32::MAX,
        ensures
            r.well_formed(),
            r@ == (PlayerState {
                index: -(prefix_len as int),
                start: -(prefix_len as int),
                end: clip_len as int,
                jumped: Seq::new((prefix_len + clip_len) as nat, |i: int| false),
                silence: true,
            }),
    {
        let total = prefix_len + clip_len;
        let mut jumped: Vec<bool> = Vec::new();
        let mut i: usize = 0;
        while i < total
            invariant
                i <= total,
                jumped@ == Seq::new(i as nat, |j: int| false),
            decreases total - i,
        {
            jumped.push(false);
            i = i + 1;
            assert(jumped@ =~= Seq::new(i as nat, |j: int| false));
        }
        let start = -(prefix_len as i64);
        ClipPlayer { index: start, start, end: clip_len as i64, jumped, silence: true }
    }

    /// The index of the next instruction; negative indices address the prefix.
    pub fn index(&self) -> (r: i64)
        ensures
            r == self@.index,
    {
        self.index
    }

    /// Whether the run has passed the last instruction.
    pub fn finished(&self) -> (r: bool)
        ensures
            r == (self@.index >= self@.end),
    {
        self.index >= self.end
    }

    /// Whether only ticks have run so far.
    pub fn silence(&self) -> (r: bool)
        ensures
            r == self@.silence,
    {
        self.silence
    }

    /// Whether the next instruction is reached for the first time as a jump that has not jumped
    /// (instructions other than jumps always are).
    pub fn first_visit(&self) -> (r: bool)
        requires
            self.well_formed(),
            !(self@.index >= self@.end),
        ensures
            r == !self@.jumped[self@.index - self@.start],
    {
        !self.jumped[(self.index - self.start) as usize]
    }

    /// The next instruction: from `prefix` at negative indices, else from `clip`.
    pub fn instruction<'a>(&self, prefix: &'a [ClipInst], clip: &'a [ClipInst]) -> (r: &'a ClipInst)
        requires
            self.well_formed(),
            !(self@.index >= self@.end),
            prefix@.len() == -self@.start,
            clip@.len() == self@.end,
        ensures
            self@.index < 0 ==> *r == prefix@[self@.index - self@.start],
            self@.index >= 0 ==> *r == clip@[self@.index],
    {
        if self.index < 0 {
            &prefix[(self.index - self.start) as usize]
        } else {
            &clip[self.index as usize]
        }
    }

    /// Moves past the instruction `inst` that was run at the current index. The bound on the
    /// steps left shrinks with each call, so every run through a clip ends.
    pub fn advance(&mut self, inst: &ClipInst)
        requires
            old(self).well_formed(),
            !(old(self)@.index >= old(self)@.end),
        ensures
            final(self).well_formed(),
            final(self)@ == after_instruction(old(self)@, *inst),
            final(self)@.start == old(self)@.start && final(self)@.end == old(self)@.end,
            !(*inst is Tick) ==> !final(self)@.silence,
            *inst is Tick ==> final(self)@.silence == old(self)@.silence,
            !(*inst is Jmp) ==> final(self)@.index == old(self)@.index + 1 && final(self)@.jumped
                == old(self)@.jumped,
            *inst matches ClipInst::Jmp(offset) ==> ({
                let (p, q) = (old(self)@, final(self)@);
                let slot = p.index - p.start;
                &&& p.jumped[slot] ==> q.index == p.index + 1 && q.jumped == p.jumped
                &&& !p.jumped[slot] ==> q.index == (if p.index + offset < p.start {
                    p.start
                } else {
                    p.index + offset
                }) + 1 && q.jumped == p.jumped.update(slot, true)
            }),
            0 <= steps_bound(final(self)@) < steps_bound(old(self)@)
                || final(self)@.index >= final(self)@.end,
            steps_bound(old(self)@) > 0,
    {
        proof {
            lemma_count_set_bound(self.jumped@);
        }
        let ghost before = self@;
        let ghost n = self.jumped@.len() as int;
        assert((n - count_set(before.jumped)) * (n + 1) >= 0) by (nonlinear_arith)
            requires
                count_set(before.jumped) <= n,
        ;
        match inst {
            ClipInst::Jmp(offset) => {
                let slot = (self.index - self.start) as usize;
                if !self.jumped[slot] {
                    let target = if self.index + (*offset as i64) < self.start {
                        self.start
                    } else {
                        self.index + (*offset as i64)
                    };
                    self.jumped.set(slot, true);
                    self.index = target + 1;
                    proof {
                        lemma_count_set_update(before.jumped, slot as int);
                        lemma_count_set_bound(self.jumped@);
                        let k = count_set(before.jumped);
                        assert((n - k - 1) * (n + 1) + (n + 1) == (n - k) * (n + 1)) by (nonlinear_arith);
                        assert((n - (k + 1)) * (n + 1) >= 0) by (nonlinear_arith)
                            requires
                                k + 1 <= n,
                        ;
                    }
                } else {
                    self.index = self.index + 1;
                }
                self.silence = false;
            },
            ClipInst::Tick(_) => {
                self.index = self.index + 1;
            },
            ClipInst::Call(_) => {
                self.index = self.index + 1;
                self.silence = false;
            },
        }
    }
}

} // verus!
