//! Behavior trees: immutable, data-only descriptions of timed animations.
//! A tree is always interpreted against a target entity supplied at play
//! time; no entity reference is embedded in it.

use vstd::prelude::*;
use crate::easing::Easing;
use crate::entity::VAL_LIMIT;

verus! {

/// Longest duration a single timed node may have, in milliseconds.
pub const DUR_LIMIT: u64 = 1_000_000_000;

/// One playable animation primitive. Durations are in milliseconds; scales,
/// offsets and angles in milli-values.
#[derive(Clone, Copy, PartialEq, Eq, Structural, Debug)]
pub enum Primitive {
    /// Interpolate the scale from its value at activation to `(sx, sy)`.
    ScaleTo { duration: u64, sx: i64, sy: i64 },
    /// Interpolate the position from its value at activation by `(dx, dy)`.
    MoveBy { duration: u64, dx: i64, dy: i64 },
    /// Interpolate the rotation from its value at activation to `degrees`.
    RotateTo { duration: u64, degrees: i64 },
    /// Interpolate the opacity from its value at activation to zero.
    FadeOut { duration: u64 },
    /// Interpolate the opacity from its value at activation to full.
    FadeIn { duration: u64 },
    /// Oscillate the opacity between its value at activation and zero, as a
    /// square wave of eight phases over the duration; restore it at the end.
    Blink { duration: u64 },
}

impl Primitive {
    /// Total duration of the primitive, milliseconds.
    pub open spec fn duration(self) -> int {
        match self {
            Primitive::ScaleTo { duration, .. } => duration as int,
            Primitive::MoveBy { duration, .. } => duration as int,
            Primitive::RotateTo { duration, .. } => duration as int,
            Primitive::FadeOut { duration } => duration as int,
            Primitive::FadeIn { duration } => duration as int,
            Primitive::Blink { duration } => duration as int,
        }
    }

    /// Duration within the limit and every target value within the
    /// coordinate bound.
    pub open spec fn wf(self) -> bool {
        &&& self.duration() <= DUR_LIMIT
        &&& match self {
            Primitive::ScaleTo { sx, sy, .. } => -VAL_LIMIT <= sx <= VAL_LIMIT && -VAL_LIMIT <= sy
                <= VAL_LIMIT,
            Primitive::MoveBy { dx, dy, .. } => -VAL_LIMIT <= dx <= VAL_LIMIT && -VAL_LIMIT <= dy
                <= VAL_LIMIT,
            Primitive::RotateTo { degrees, .. } => -VAL_LIMIT <= degrees <= VAL_LIMIT,
            _ => true,
        }
    }

    /// The duration, as an executable value.
    pub fn duration_ms(&self) -> (r: u64)
        ensures
            r as int == self.duration(),
    {
        match self {
            Primitive::ScaleTo { duration, .. } => *duration,
            Primitive::MoveBy { duration, .. } => *duration,
            Primitive::RotateTo { duration, .. } => *duration,
            Primitive::FadeOut { duration } => *duration,
            Primitive::FadeIn { duration } => *duration,
            Primitive::Blink { duration } => *duration,
        }
    }
}

/// The condition of a conditional loop, re-evaluated each time the loop's
/// body completes.
#[derive(Clone, Copy, PartialEq, Eq, Structural, Debug)]
pub enum RepeatCondition {
    /// Always holds: the body repeats forever.
    Forever,
    /// Holds for the next `n` re-evaluations: the body runs once and is then
    /// repeated `n` more times.
    Countdown(u32),
}

/// A behavior tree node: a primitive wrapped in an easing, a timed or
/// unbounded wait, an ordered sequence, or a conditional loop.
pub enum Behavior {
    /// One primitive, its normalized time remapped by `easing`.
    Action { easing: Easing, primitive: Primitive },
    /// Consumes time without mutating the entity.
    Wait { duration: u64 },
    /// Never completes; advancing it is pure time bookkeeping.
    WaitForever,
    /// Children run strictly in order; a child must complete before the next
    /// starts, and remaining children are deferred to subsequent frames. An
    /// empty sequence is a degenerate success: it completes, with no entity
    /// mutation, on its first advance rather than at creation.
    Sequence { children: Vec<Behavior> },
    /// Runs `body`, then, at each completion of `body`, re-evaluates
    /// `condition`: while it holds the body is reset and dispatched again;
    /// when it no longer holds the node completes.
    RepeatWhile { condition: RepeatCondition, body: Box<Behavior> },
}

/// Every tree in the sequence is well formed.
pub open spec fn wf_all(s: Seq<Behavior>) -> bool
    decreases s,
{
    if s.len() == 0 {
        true
    } else {
        wf_all(s.drop_last()) && s.last().wf()
    }
}

impl Behavior {
    /// Every duration within the limit and every target value within the
    /// coordinate bound, throughout the tree.
    pub open spec fn wf(self) -> bool
        decreases self,
    {
        match self {
            Behavior::Action { primitive, .. } => primitive.wf(),
            Behavior::Wait { duration } => duration <= DUR_LIMIT,
            Behavior::WaitForever => true,
            Behavior::Sequence { children } => wf_all(children@),
            Behavior::RepeatWhile { body, .. } => body.wf(),
        }
    }
}

/// In a well-formed forest every member is well formed.
pub proof fn lemma_wf_all_index(s: Seq<Behavior>)
    requires
        wf_all(s),
    ensures
        forall|i: int| 0 <= i < s.len() ==> (#[trigger] s[i]).wf(),
    decreases s,
{
    if s.len() > 0 {
        lemma_wf_all_index(s.drop_last());
        assert forall|i: int| 0 <= i < s.len() implies (#[trigger] s[i]).wf() by {
            if i < s.len() - 1 {
                assert(s.drop_last()[i] == s[i]);
            } else {
                assert(s.last() == s[i]);
            }
        }
    }
}

/// A forest whose members are each well formed is well formed.
pub proof fn lemma_wf_all_intro(s: Seq<Behavior>)
    requires
        forall|i: int| 0 <= i < s.len() ==> (#[trigger] s[i]).wf(),
    ensures
        wf_all(s),
    decreases s,
{
    if s.len() > 0 {
        assert(forall|i: int| 0 <= i < s.drop_last().len() ==> (#[trigger] s.drop_last()[i])
            == s[i]);
        lemma_wf_all_intro(s.drop_last());
        assert(s.last() == s[s.len() - 1]);
    }
}

} // verus!
