use vstd::prelude::*;

verus! {

/// A search value: an integer reward, or one of the two sentinels that a
/// fold over no candidates leaves behind.
#[derive(PartialEq, Eq, Structural, Clone, Copy, Debug)]
pub enum Score {
    NegInf,
    Finite(i64),
    PosInf,
}

impl Score {
    /// Strict order: `NegInf` below every finite value, `PosInf` above.
    pub open spec fn lt(self, other: Score) -> bool {
        match (self, other) {
            (Score::NegInf, Score::NegInf) => false,
            (Score::NegInf, _) => true,
            (Score::Finite(a), Score::Finite(b)) => a < b,
            (Score::Finite(_), Score::PosInf) => true,
            _ => false,
        }
    }

    pub fn less_than(&self, other: &Score) -> (r: bool)
        ensures
            r == self.lt(*other),
    {
        match (self, other) {
            (Score::NegInf, Score::NegInf) => false,
            (Score::NegInf, _) => true,
            (Score::Finite(a), Score::Finite(b)) => *a < *b,
            (Score::Finite(_), Score::PosInf) => true,
            _ => false,
        }
    }
}

} // verus!
