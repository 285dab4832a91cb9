//! Ranked completion candidates handed to the rendering layer.

use vstd::prelude::*;
use crate::text::{copy_chars, string_of_chars};

verus! {

/// Whether a candidate's entry sits exactly at the typed position
/// (`PerfectMatch`, no codes remain) or deeper in the subtree
/// (`PrefixMatch`).  `FuzzyMatch` is reserved for phonetic engines.
#[derive(Debug, Clone, Copy, PartialEq, Eq, Structural)]
pub enum MatchType {
    PerfectMatch,
    PrefixMatch,
    FuzzyMatch,
}

/// One ranked completion: the dictionary text, the code units still to
/// be typed to reach it, and the kind of match.
#[derive(Debug)]
pub struct Candidate {
    pub remain_codes: Vec<char>,
    pub text: String,
    pub match_type: MatchType,
}

impl View for Candidate {
    type V = (Seq<char>, Seq<char>, MatchType);

    open spec fn view(&self) -> (Seq<char>, Seq<char>, MatchType) {
        (self.text@, self.remain_codes@, self.match_type)
    }
}

impl Candidate {
    /// A candidate attached exactly at the current position.
    pub fn prefect(text: String) -> (r: Candidate)
        ensures
            r@ == (text@, Seq::<char>::empty(), MatchType::PerfectMatch),
    {
        Candidate { remain_codes: Vec::new(), text, match_type: MatchType::PerfectMatch }
    }

    /// A candidate that still needs `remain` to be typed.
    pub fn prefix(text: String, remain: Vec<char>) -> (r: Candidate)
        ensures
            r@ == (text@, remain@, MatchType::PrefixMatch),
    {
        Candidate { remain_codes: remain, text, match_type: MatchType::PrefixMatch }
    }

    /// Classifies by the remaining codes: empty means a perfect match.
    pub fn new(text: String, remain_codes: Vec<char>) -> (r: Candidate)
        ensures
            r@.0 == text@,
            r@.1 == remain_codes@,
            r@.2 == (if remain_codes@.len() == 0 {
                MatchType::PerfectMatch
            } else {
                MatchType::PrefixMatch
            }),
    {
        if remain_codes.len() == 0 {
            Candidate::prefect(text)
        } else {
            Candidate::prefix(text, remain_codes)
        }
    }

    /// The plain display form: the text followed by the remaining codes.
    pub fn message(&self) -> (r: String)
        ensures
            r@ == self.text@ + self.remain_codes@,
    {
        let mut codes = copy_chars(&self.remain_codes);
        let tail = string_of_chars(&codes);
        let res = self.text.clone();
        let r = res.concat(tail.as_str());
        proof {
            assert(r@ =~= self.text@ + self.remain_codes@);
        }
        r
    }
}

} // verus!
