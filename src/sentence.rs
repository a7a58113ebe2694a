use vstd::prelude::*;

use crate::term::Term;
use crate::truth::{Evidence, Tv};
use crate::stamp::Stamp;

verus! {

/// Punctuation of a sentence.
#[derive(PartialEq, Eq, Structural, Copy, Clone, Debug)]
pub enum EnumPunctation {
    /// judgment `.`
    JUGEMENT,
    /// question `?`
    QUESTION,
    /// goal `!`
    GOAL,
}

/// A term with punctuation, stamp and evidence; events carry an occurrence time,
/// temporal rules an exponential-interval index.
pub struct SentenceDummy {
    pub term: Term,
    pub punct: EnumPunctation,
    pub stamp: Stamp,
    pub evi: Evidence,
    /// occurrence time of events
    pub t: Option<i64>,
    /// index into the table of exponential intervals
    pub expDt: Option<i64>,
}

impl SentenceDummy {
    /// The counts of the sentence's evidence are well formed: `0 <= pos <= cnt`, `cnt >= 1`.
    pub open spec fn cnt_ok(&self) -> bool {
        match self.evi {
            Evidence::CNT { pos, cnt } => 0 <= pos <= cnt && cnt >= 1,
            Evidence::TV(tv) => tv.wf(),
        }
    }
}

impl Clone for SentenceDummy {
    fn clone(&self) -> (r: SentenceDummy)
        ensures
            r.term@ == self.term@,
            r.punct == self.punct,
            r.stamp.evi@ == self.stamp.evi@,
            r.evi == self.evi,
            r.t == self.t,
            r.expDt == self.expDt,
    {
        SentenceDummy {
            term: self.term.clone(),
            punct: self.punct,
            stamp: self.stamp.clone(),
            evi: self.evi,
            t: self.t,
            expDt: self.expDt,
        }
    }
}

/// An eternal sentence with a truth value.
pub fn newEternalSentenceByTv(term: &Term, punct: EnumPunctation, tv: &Tv, stamp: Stamp) -> (r: SentenceDummy)
    ensures
        r.term@ == term@,
        r.punct == punct,
        r.stamp.evi@ == stamp.evi@,
        r.evi == Evidence::TV(*tv),
        r.t is None,
        r.expDt is None,
{
    SentenceDummy { term: term.clone(), punct, stamp, evi: Evidence::TV(*tv), t: None, expDt: None }
}

}
