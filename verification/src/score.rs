//! Scores of searched positions: a running heuristic value, or the exact
//! disk difference of a finished game. Greater always means better for
//! Light; a terminal outcome outranks every heuristic guess for the side
//! it favours.

use vstd::prelude::*;

verus! {

/// The value of a searched position: a heuristic estimate while the game
/// still runs, or the exact final disk difference (Light minus Dark).
#[derive(Clone, Copy, PartialEq, Eq, Structural, Debug)]
pub enum Score {
    Running(i16),
    Ended(i16),
}

/// The ordering of scores, from Light's perspective: running values and
/// ended values compare numerically among themselves; an ended value
/// beats a running one exactly when its sign favours Light, with a drawn
/// finish preferred only to a losing heuristic.
pub open spec fn score_gt(a: Score, b: Score) -> bool {
    match (a, b) {
        (Score::Running(v1), Score::Running(v2)) => v1 > v2,
        (Score::Running(v1), Score::Ended(s2)) => s2 < 0 || (s2 == 0 && v1 > 0),
        (Score::Ended(s1), Score::Running(v2)) => s1 > 0 || (s1 == 0 && v2 < 0),
        (Score::Ended(s1), Score::Ended(s2)) => s1 > s2,
    }
}

impl Score {
    /// Whether this score is strictly better than `other` for Light;
    /// Dark prefers the other way round.
    pub fn is_better_than(&self, other: &Score) -> (r: bool)
        ensures
            r == score_gt(*self, *other),
    {
        match (*self, *other) {
            (Score::Running(v1), Score::Running(v2)) => v1 > v2,
            (Score::Running(v1), Score::Ended(s2)) => s2 < 0 || (s2 == 0 && v1 > 0),
            (Score::Ended(s1), Score::Running(v2)) => s1 > 0 || (s1 == 0 && v2 < 0),
            (Score::Ended(s1), Score::Ended(s2)) => s1 > s2,
        }
    }
}

/// The ordering of scores loosened by a tolerance: two running values
/// within the tolerance of one another count as beaten either way, so a
/// search may prefer a later near-tied move; terminal comparisons are
/// never loosened.
pub open spec fn score_gt_tol(a: Score, b: Score, tol: int) -> bool {
    match (a, b) {
        (Score::Running(v1), Score::Running(v2)) => v1 + tol > v2,
        _ => score_gt(a, b),
    }
}

impl Score {
    /// Whether this score beats `other` for Light once running values
    /// within `tol` of each other count as beaten.
    pub fn beats_within(&self, other: &Score, tol: i16) -> (r: bool)
        ensures
            r == score_gt_tol(*self, *other, tol as int),
    {
        match (*self, *other) {
            (Score::Running(v1), Score::Running(v2)) => v1 as i32 + tol as i32 > v2 as i32,
            _ => self.is_better_than(other),
        }
    }
}

/// Terminal-score dominance: a won finish beats every running estimate
/// from Light's perspective, and a lost finish loses to every one of
/// them; so each side prefers a terminal outcome in its favour over any
/// heuristic value.
pub proof fn lemma_terminal_dominance(s: i16, v: i16)
    ensures
        s > 0 ==> score_gt(Score::Ended(s), Score::Running(v)),
        s < 0 ==> score_gt(Score::Running(v), Score::Ended(s)),
{
}

} // verus!
