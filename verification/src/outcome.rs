//! Exact outcomes of solved positions and their total order: a forced win
//! in fewer plies beats one in more, anything undetermined sits in the
//! middle, and a loss delayed longer beats one that comes sooner.

use vstd::prelude::*;

verus! {

/// Outcome of a position for the player to move: a forced win within the
/// given number of own plies, a forced loss delayed at most the given
/// number of plies, or no forced result known.
#[derive(Debug, Clone, Copy, PartialEq, Eq, Hash, Structural)]
pub enum GameAnalysis {
    Winning(usize),
    Losing(usize),
    Neutral,
}

/// Strict order on outcomes, from the mover's point of view: every win
/// beats neutral beats every loss; a faster win beats a slower one; a
/// longer-delayed loss beats a shorter one.
pub open spec fn better(a: GameAnalysis, b: GameAnalysis) -> bool {
    match (a, b) {
        (GameAnalysis::Winning(x), GameAnalysis::Winning(y)) => x < y,
        (GameAnalysis::Winning(_), GameAnalysis::Neutral) => true,
        (GameAnalysis::Winning(_), GameAnalysis::Losing(_)) => true,
        (GameAnalysis::Neutral, GameAnalysis::Losing(_)) => true,
        (GameAnalysis::Losing(x), GameAnalysis::Losing(y)) => x > y,
        _ => false,
    }
}

/// The order is total: for every pair exactly one of better, equal, or
/// worse holds.
pub proof fn lemma_outcome_order_total(a: GameAnalysis, b: GameAnalysis)
    ensures
        better(a, b) || a == b || better(b, a),
        !(better(a, b) && better(b, a)),
        a == b ==> !better(a, b),
{
}

/// The order is transitive.
pub proof fn lemma_outcome_order_trans(a: GameAnalysis, b: GameAnalysis, c: GameAnalysis)
    requires
        better(a, b),
        better(b, c),
    ensures
        better(a, c),
{
}

/// The chain of the order: faster wins beat slower wins beat neutral beats
/// longer-delayed losses beat faster losses.
pub proof fn lemma_outcome_chain(d: usize)
    ensures
        d < usize::MAX ==> better(GameAnalysis::Winning(d), GameAnalysis::Winning((d + 1) as usize)),
        better(GameAnalysis::Winning(d), GameAnalysis::Neutral),
        better(GameAnalysis::Neutral, GameAnalysis::Losing(d)),
        d < usize::MAX ==> better(GameAnalysis::Losing((d + 1) as usize), GameAnalysis::Losing(d)),
{
}

impl Default for GameAnalysis {
    /// An outcome not yet determined.
    fn default() -> (r: GameAnalysis)
        ensures
            r == GameAnalysis::Neutral,
    {
        GameAnalysis::Neutral
    }
}

impl GameAnalysis {
    pub fn is_winning(&self) -> (r: bool)
        ensures
            r == (self matches GameAnalysis::Winning(_)),
    {
        matches!(self, GameAnalysis::Winning(_))
    }

    pub fn is_losing(&self) -> (r: bool)
        ensures
            r == (self matches GameAnalysis::Losing(_)),
    {
        matches!(self, GameAnalysis::Losing(_))
    }

    pub fn is_neutral(&self) -> (r: bool)
        ensures
            r == (self matches GameAnalysis::Neutral),
    {
        matches!(self, GameAnalysis::Neutral)
    }

    /// The worst outcome of all: losing with no delay left.
    pub fn max() -> (r: GameAnalysis)
        ensures
            r == GameAnalysis::Losing(0),
            forall|o: GameAnalysis| !better(r, o),
    {
        GameAnalysis::Losing(0)
    }

    /// The best outcome of all: winning immediately.
    pub fn min() -> (r: GameAnalysis)
        ensures
            r == GameAnalysis::Winning(0),
            forall|o: GameAnalysis| !better(o, r),
    {
        GameAnalysis::Winning(0)
    }

    /// Decides the strict outcome order.
    pub fn is_better_than(&self, other: &GameAnalysis) -> (r: bool)
        ensures
            r == better(*self, *other),
    {
        match (self, other) {
            (GameAnalysis::Winning(x), GameAnalysis::Winning(y)) => *x < *y,
            (GameAnalysis::Winning(_), GameAnalysis::Neutral) => true,
            (GameAnalysis::Winning(_), GameAnalysis::Losing(_)) => true,
            (GameAnalysis::Neutral, GameAnalysis::Losing(_)) => true,
            (GameAnalysis::Losing(x), GameAnalysis::Losing(y)) => *x > *y,
            _ => false,
        }
    }
}

} // verus!
