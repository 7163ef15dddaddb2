use vstd::prelude::*;
use crate::numbers::{all_digits, dec_value, numeral_digits, parse_u64};

verus! {

/// Why no score could be extracted from a run's artifact.
#[derive(Debug, Clone, Copy, PartialEq, Eq, Structural)]
pub enum ScoreError {
    /// The artifact holds no line with any text.
    Empty,
    /// The last line with text is not a decimal non-negative integer that
    /// fits the score's range.
    Unparseable,
    /// The artifact could not be read at all. Raised by the caller that
    /// does the reading, never by `extract_score` itself.
    IoFailure,
}

/// The artifact's last line that holds any text, if one does: worker
/// output may end in blank lines, which the score never occupies.
pub open spec fn last_text_line(lines: Seq<Seq<u8>>) -> Option<Seq<u8>>
    decreases lines.len(),
{
    if lines.len() == 0 {
        None
    } else if lines.last().len() > 0 {
        Some(lines.last())
    } else {
        last_text_line(lines.drop_last())
    }
}

/// What score extraction yields on an artifact read as `lines`.
pub open spec fn score_of_lines(lines: Seq<Seq<u8>>) -> Result<u64, ScoreError> {
    match last_text_line(lines) {
        None => Err(ScoreError::Empty),
        Some(l) => {
            let digits = numeral_digits(l);
            if digits.len() > 0 && all_digits(digits) && dec_value(digits) <= u64::MAX {
                Ok(dec_value(digits) as u64)
            } else {
                Err(ScoreError::Unparseable)
            }
        },
    }
}

/// Extract a run's score from its artifact, read as a sequence of lines:
/// the last line holding any text, parsed as a non-negative decimal
/// integer (an optional leading `+` allowed). Any failure means the run
/// as a whole failed; no partial success exists.
pub fn extract_score(lines: &Vec<Vec<u8>>) -> (r: Result<u64, ScoreError>)
    ensures
        r == score_of_lines(lines.deep_view()),
{
    let ghost all = lines.deep_view();
    let mut i: usize = lines.len();
    proof {
        assert(all.take(i as int) =~= all);
    }
    while i > 0
        invariant
            0 <= i <= lines@.len(),
            all == lines.deep_view(),
            all.len() == lines@.len(),
            last_text_line(all) == last_text_line(all.take(i as int)),
        decreases i,
    {
        i = i - 1;
        proof {
            assert(all[i as int] =~= lines@[i as int]@);
            assert(all.take(i + 1).last() == all[i as int]);
            assert(all.take(i + 1).drop_last() =~= all.take(i as int));
        }
        if lines[i].len() > 0 {
            let parsed = parse_u64(&lines[i]);
            proof {
                assert(last_text_line(all.take(i + 1)) == Some(all[i as int]));
            }
            match parsed {
                Some(v) => {
                    return Ok(v);
                },
                None => {
                    return Err(ScoreError::Unparseable);
                },
            }
        }
    }
    proof {
        assert(all.take(0) =~= Seq::<Seq<u8>>::empty());
    }
    Err(ScoreError::Empty)
}

} // verus!
