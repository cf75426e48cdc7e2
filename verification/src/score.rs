//! Recall-quality scores and their effect on the ease factor.

use vstd::prelude::*;

verus! {

/// How well the user recalled a sentence during a review.
#[derive(Clone, Copy, Debug, PartialEq, Eq, Structural)]
pub enum Score {
    Hard,
    Good,
    Easy,
}

/// The change a score makes to the ease factor, in hundredths.
pub open spec fn ease_delta(score: Score) -> int {
    match score {
        Score::Hard => -20,
        Score::Good => 0,
        Score::Easy => 20,
    }
}

/// Reads a score from the digit the user typed during the answer
/// workflow: `1` is hard, `2` is good, `3` is easy; anything else is
/// not a score.
pub fn parse_score(input: &str) -> (r: Option<Score>)
    ensures
        r == Some(Score::Hard) <==> input@ == seq!['1'],
        r == Some(Score::Good) <==> input@ == seq!['2'],
        r == Some(Score::Easy) <==> input@ == seq!['3'],
        r is None <==> input@ != seq!['1'] && input@ != seq!['2'] && input@ != seq!['3'],
{
    if input.unicode_len() == 1 {
        let c = input.get_char(0);
        proof {
            assert(input@ =~= seq![input@[0]]);
        }
        if c == '1' {
            Some(Score::Hard)
        } else if c == '2' {
            Some(Score::Good)
        } else if c == '3' {
            Some(Score::Easy)
        } else {
            None
        }
    } else {
        None
    }
}

} // verus!
