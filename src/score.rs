//! Search scores: exact values and one-sided bounds, always from the point of
//! view of the side to move.

use vstd::prelude::*;

verus! {

/// The distance from the extreme values within which a score counts as a
/// forced mate and is pulled one unit towards zero at every ply.
pub const CHECKMATE_THRESHOLD: i32 = 100;

/// A value is usable as a score when its negation is representable.
pub open spec fn valid_value(v: i32) -> bool {
    v > i32::MIN
}

/// The result of searching a node.
#[derive(Clone, Copy, Debug, PartialEq, Eq, Structural)]
pub enum Score {
    /// The true minimax value of the node.
    Exact(i32),
    /// The true value is at most this.
    UpperBound(i32),
    /// The true value is at least this.
    LowerBound(i32),
}

impl Score {
    pub open spec fn spec_value(self) -> i32 {
        match self {
            Score::Exact(v) => v,
            Score::UpperBound(v) => v,
            Score::LowerBound(v) => v,
        }
    }

    /// The score seen from the other side: the value is negated and the
    /// direction of a bound flips.
    pub open spec fn spec_negate(self) -> Score
        recommends
            valid_value(self.spec_value()),
    {
        match self {
            Score::Exact(v) => Score::Exact((-v) as i32),
            Score::UpperBound(v) => Score::LowerBound((-v) as i32),
            Score::LowerBound(v) => Score::UpperBound((-v) as i32),
        }
    }

    pub open spec fn wf(self) -> bool {
        valid_value(self.spec_value())
    }

    /// The numeric value, whatever kind of score this is.
    pub fn value(self) -> (r: i32)
        ensures
            r == self.spec_value(),
    {
        match self {
            Score::Exact(v) => v,
            Score::UpperBound(v) => v,
            Score::LowerBound(v) => v,
        }
    }

    /// Negamax negation: converts a child's score to its parent's view.
    pub fn negate(self) -> (r: Score)
        requires
            self.wf(),
        ensures
            r == self.spec_negate(),
            r.wf(),
    {
        match self {
            Score::Exact(v) => Score::Exact(-v),
            Score::UpperBound(v) => Score::LowerBound(-v),
            Score::LowerBound(v) => Score::UpperBound(-v),
        }
    }
}

impl From<Score> for i32 {
    fn from(score: Score) -> (r: i32) {
        score.value()
    }
}

impl vstd::std_specs::convert::FromSpecImpl<Score> for i32 {
    open spec fn obeys_from_spec() -> bool {
        true
    }

    open spec fn from_spec(score: Score) -> i32 {
        score.spec_value()
    }
}

/// Negating a score twice gives it back, its value is negated, and the
/// direction of a bound flips.
pub proof fn lemma_negate_round_trip(s: Score)
    requires
        s.wf(),
    ensures
        s.spec_negate().wf(),
        s.spec_negate().spec_negate() == s,
        s.spec_negate().spec_value() == -s.spec_value(),
        s is Exact <==> s.spec_negate() is Exact,
        s is LowerBound <==> s.spec_negate() is UpperBound,
        s is UpperBound <==> s.spec_negate() is LowerBound,
{
}

pub open spec fn spec_discount_checkmates(score: i32) -> i32 {
    if score < i32::MIN + CHECKMATE_THRESHOLD {
        (score + 1) as i32
    } else if score > i32::MAX - CHECKMATE_THRESHOLD {
        (score - 1) as i32
    } else {
        score
    }
}

/// Pulls a score that lies within the checkmate threshold of either extreme
/// one unit towards zero, so that a shorter forced mate is preferred over a
/// longer one. Other scores are left alone.
pub fn discount_checkmates(score: i32) -> (r: i32)
    ensures
        r == spec_discount_checkmates(score),
{
    if score < i32::MIN + CHECKMATE_THRESHOLD {
        score + 1
    } else if score > i32::MAX - CHECKMATE_THRESHOLD {
        score - 1
    } else {
        score
    }
}

/// `n` applications of the checkmate discount.
pub open spec fn discount_times(score: i32, n: nat) -> i32
    decreases n,
{
    if n == 0 {
        score
    } else {
        spec_discount_checkmates(discount_times(score, (n - 1) as nat))
    }
}

/// One discount moves a score at most one unit, towards zero, never across
/// it; a score outside the threshold zones is untouched, and a score inside
/// them always moves.
pub proof fn lemma_discount_step(score: i32)
    ensures
        score >= 0 ==> 0 <= spec_discount_checkmates(score) <= score,
        score <= 0 ==> score <= spec_discount_checkmates(score) <= 0,
        score - 1 <= spec_discount_checkmates(score) <= score + 1,
        (i32::MIN + CHECKMATE_THRESHOLD <= score <= i32::MAX - CHECKMATE_THRESHOLD)
            <==> spec_discount_checkmates(score) == score,
        valid_value(spec_discount_checkmates(score)),
{
}

proof fn lemma_discount_bounded(score: i32, n: nat)
    ensures
        score >= 0 ==> 0 <= discount_times(score, n) <= score,
        score <= 0 ==> score <= discount_times(score, n) <= 0,
    decreases n,
{
    if n > 0 {
        lemma_discount_bounded(score, (n - 1) as nat);
        lemma_discount_step(discount_times(score, (n - 1) as nat));
    }
}

/// Repeated discounting moves a score monotonically towards zero and never
/// across it: after `m >= n` applications the value lies between zero and
/// the value after `n` applications.
pub proof fn lemma_discount_repeated(score: i32, n: nat, m: nat)
    requires
        n <= m,
    ensures
        score >= 0 ==> 0 <= discount_times(score, m) <= discount_times(score, n) <= score,
        score <= 0 ==> score <= discount_times(score, n) <= discount_times(score, m) <= 0,
    decreases m,
{
    lemma_discount_bounded(score, n);
    lemma_discount_bounded(score, m);
    if n < m {
        lemma_discount_repeated(score, n, (m - 1) as nat);
        lemma_discount_step(discount_times(score, (m - 1) as nat));
    }
}

} // verus!
