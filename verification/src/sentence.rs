//! The reviewable item and the review-scheduling algorithm.

use vstd::prelude::*;
use crate::score::{ease_delta, Score};

verus! {

/// One day, as a count of minutes.
pub const ONE_DAY_IN_MINS: u64 = 24 * 60;

/// Six days, as a count of minutes.
pub const SIX_DAYS_IN_MINS: u64 = 24 * 60 * 6;

/// The smallest ease factor, in hundredths.
pub const MIN_EASE: u32 = 130;

/// The largest ease factor, in hundredths.
pub const MAX_EASE: u32 = 350;

/// The ease factor a sentence starts with, in hundredths.
pub const NEUTRAL_EASE: u32 = 250;

/// The latest point in time the scheduler accepts, as a count of
/// minutes.  It keeps every `due_at` computation inside `i64`.
pub const MAX_NOW_MINS: i64 = 100_000_000_000;

/// The largest prior interval the scheduler accepts, in minutes.  It
/// keeps the interval growth inside `u64`.
pub const MAX_PREV_INTERVAL_MINS: u64 = 0x40_0000_0000_0000;

/// A reviewable sentence together with its scheduling state.  The
/// ease factor is held in hundredths and all timestamps are counts of
/// minutes.
pub struct Sentence {
    /// Store-assigned identifier; absent before first persistence.
    pub id: Option<usize>,
    /// The unique, non-empty content.
    pub text: String,
    /// When the sentence was created; immutable after creation.
    pub created_at: i64,
    /// When the sentence was last answered; absent until the first answer.
    pub last_answered_at: Option<i64>,
    /// The time before which the sentence should not be re-shown.
    pub due_at: i64,
    /// Ease factor in hundredths, within `[MIN_EASE, MAX_EASE]`.
    pub ease: u32,
    /// Minutes until the next due date; absent until the first answer.
    pub interval_in_mins: Option<u64>,
    /// How many reviews are completed; zero means "new".
    pub reps: usize,
    /// Suspended sentences are excluded from due and new selection.
    pub is_suspended: bool,
}

/// The mathematical value of a [`Sentence`].
pub struct SentenceModel {
    pub id: Option<int>,
    pub text: Seq<char>,
    pub created_at: int,
    pub last_answered_at: Option<int>,
    pub due_at: int,
    pub ease: int,
    pub interval_in_mins: Option<int>,
    pub reps: int,
    pub is_suspended: bool,
}

impl View for Sentence {
    type V = SentenceModel;

    open spec fn view(&self) -> SentenceModel {
        SentenceModel {
            id: match self.id {
                Some(i) => Some(i as int),
                None => None,
            },
            text: self.text@,
            created_at: self.created_at as int,
            last_answered_at: match self.last_answered_at {
                Some(t) => Some(t as int),
                None => None,
            },
            due_at: self.due_at as int,
            ease: self.ease as int,
            interval_in_mins: match self.interval_in_mins {
                Some(m) => Some(m as int),
                None => None,
            },
            reps: self.reps as int,
            is_suspended: self.is_suspended,
        }
    }
}

impl SentenceModel {
    /// The data invariant of a stored sentence: the ease factor is
    /// clamped, the content is non-empty, and the interval and the
    /// last-answered time are present exactly once the sentence has
    /// been answered.
    pub open spec fn wf(self) -> bool {
        &&& MIN_EASE <= self.ease <= MAX_EASE
        &&& 0 <= self.reps
        &&& (self.reps == 0 <==> self.interval_in_mins is None)
        &&& (self.reps == 0 <==> self.last_answered_at is None)
        &&& (self.interval_in_mins matches Some(iv) ==> 0 <= iv)
        &&& self.text.len() > 0
    }
}

/// Clamps an ease value, in hundredths, to `[MIN_EASE, MAX_EASE]`.
pub open spec fn clamped_ease(e: int) -> int {
    if e < MIN_EASE {
        MIN_EASE as int
    } else if e > MAX_EASE {
        MAX_EASE as int
    } else {
        e
    }
}

/// The ease factor after one score is applied: shift by the score's
/// delta, then clamp.
pub open spec fn next_ease(e: int, score: Score) -> int {
    clamped_ease(e + ease_delta(score))
}

/// The interval after one answer, in minutes, branching on the count
/// of reviews before it is incremented: one day for a new sentence,
/// six days after the first review, and afterwards the prior interval
/// multiplied by the already-updated ease, truncated to whole minutes.
pub open spec fn next_interval(m: SentenceModel, new_ease: int) -> int {
    if m.reps == 0 {
        ONE_DAY_IN_MINS as int
    } else if m.reps == 1 {
        SIX_DAYS_IN_MINS as int
    } else {
        m.interval_in_mins->Some_0 * new_ease / 100
    }
}

/// The whole scheduling state after one answer at time `now`.
pub open spec fn scheduled(m: SentenceModel, score: Score, now: int) -> SentenceModel {
    let e = next_ease(m.ease, score);
    let iv = next_interval(m, e);
    SentenceModel {
        ease: e,
        interval_in_mins: Some(iv),
        reps: m.reps + 1,
        last_answered_at: Some(now),
        due_at: now + iv,
        ..m
    }
}

impl Clone for Sentence {
    fn clone(&self) -> (r: Self)
        ensures
            r@ == self@,
    {
        Sentence {
            id: self.id,
            text: self.text.clone(),
            created_at: self.created_at,
            last_answered_at: self.last_answered_at,
            due_at: self.due_at,
            ease: self.ease,
            interval_in_mins: self.interval_in_mins,
            reps: self.reps,
            is_suspended: self.is_suspended,
        }
    }
}

impl Sentence {
    /// Recomputes the scheduling state after the user answered this
    /// sentence with `score` at time `now`: the ease shifts by the
    /// score's delta and is clamped, the interval follows
    /// [`next_interval`] on the pre-increment review count, the review
    /// count grows by one, and the sentence becomes due again `interval`
    /// minutes after `now`.
    pub fn schedule(&mut self, score: Score, now: i64)
        requires
            0 <= now <= MAX_NOW_MINS,
            old(self)@.reps >= 2 ==> old(self)@.interval_in_mins is Some,
            old(self)@.reps >= 2 ==> old(self)@.interval_in_mins->Some_0
                <= MAX_PREV_INTERVAL_MINS,
            old(self).reps < usize::MAX,
        ensures
            final(self)@ == scheduled(old(self)@, score, now as int),
            MIN_EASE <= final(self)@.ease <= MAX_EASE,
            old(self)@.wf() ==> final(self)@.wf(),
    {
        let e0 = self.ease;
        let new_ease: u32 = match score {
            Score::Hard => if e0 < MIN_EASE + 20 {
                MIN_EASE
            } else if e0 > MAX_EASE + 20 {
                MAX_EASE
            } else {
                e0 - 20
            },
            Score::Good => if e0 < MIN_EASE {
                MIN_EASE
            } else if e0 > MAX_EASE {
                MAX_EASE
            } else {
                e0
            },
            Score::Easy => if e0 > MAX_EASE - 20 {
                MAX_EASE
            } else if e0 + 20 < MIN_EASE {
                MIN_EASE
            } else {
                e0 + 20
            },
        };
        self.ease = new_ease;

        let updated_interval: u64;
        if self.reps == 0 {
            updated_interval = ONE_DAY_IN_MINS;
        } else if self.reps == 1 {
            updated_interval = SIX_DAYS_IN_MINS;
        } else {
            let prev_interval = self.interval_in_mins.unwrap();
            proof {
                assert(prev_interval as int * new_ease as int
                    <= MAX_PREV_INTERVAL_MINS as int * MAX_EASE as int) by (nonlinear_arith)
                    requires
                        0 <= prev_interval as int <= MAX_PREV_INTERVAL_MINS as int,
                        0 <= new_ease as int <= MAX_EASE as int,
                ;
            }
            updated_interval = prev_interval * (new_ease as u64) / 100;
        }
        self.interval_in_mins = Some(updated_interval);

        self.reps = self.reps + 1;

        self.last_answered_at = Some(now);
        self.due_at = now + (updated_interval as i64);
    }

    /// Suspends this sentence; every other field is left unchanged.
    pub fn suspend(&mut self)
        ensures
            final(self)@ == (SentenceModel { is_suspended: true, ..old(self)@ }),
    {
        self.is_suspended = true;
    }
}

/// The ease factor after a whole sequence of scores is applied in
/// order.
pub open spec fn ease_after(e: int, scores: Seq<Score>) -> int
    decreases scores.len(),
{
    if scores.len() == 0 {
        e
    } else {
        ease_after(next_ease(e, scores[0]), scores.drop_first())
    }
}

/// Law: the ease factor never leaves `[MIN_EASE, MAX_EASE]`, whatever
/// sequence of scores is answered from a clamped starting point.
pub proof fn lemma_ease_always_bounded(e: int, scores: Seq<Score>)
    requires
        MIN_EASE <= e <= MAX_EASE,
    ensures
        MIN_EASE <= ease_after(e, scores) <= MAX_EASE,
    decreases scores.len(),
{
    if scores.len() > 0 {
        lemma_ease_always_bounded(next_ease(e, scores[0]), scores.drop_first());
    }
}

/// Law: clamping is idempotent, so re-clamping an already clamped ease
/// changes nothing.
pub proof fn lemma_clamp_idempotent(e: int)
    ensures
        clamped_ease(clamped_ease(e)) == clamped_ease(e),
{
}

/// Law: a sentence that was never reviewed gets an interval of one
/// day, whatever the score.
pub proof fn law_first_answer_one_day(m: SentenceModel, score: Score, now: int)
    requires
        m.reps == 0,
    ensures
        scheduled(m, score, now).interval_in_mins == Some(ONE_DAY_IN_MINS as int),
{
}

/// Law: a sentence reviewed exactly once gets an interval of six days,
/// whatever the score.
pub proof fn law_second_answer_six_days(m: SentenceModel, score: Score, now: int)
    requires
        m.reps == 1,
    ensures
        scheduled(m, score, now).interval_in_mins == Some(SIX_DAYS_IN_MINS as int),
{
}

/// Law: from the third answer on, the new interval is the prior one
/// multiplied by the already-updated ease and truncated to whole
/// minutes.
pub proof fn law_interval_grows_by_updated_ease(m: SentenceModel, score: Score, now: int)
    requires
        m.reps >= 2,
        m.interval_in_mins is Some,
    ensures
        scheduled(m, score, now).interval_in_mins
            == Some(m.interval_in_mins->Some_0 * next_ease(m.ease, score) / 100),
{
}

} // verus!
