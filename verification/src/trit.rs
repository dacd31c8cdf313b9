use vstd::prelude::*;

verus! {

/// Ternary action/trit: Negative (-1), Zero (0), Positive (+1).
#[derive(Debug, Clone, Copy, PartialEq, Eq, Structural, Hash)]
pub enum TritAction {
    Negative,
    Zero,
    Positive,
}

impl TritAction {
    /// The integer a trit stands for: -1, 0 or +1.
    pub open spec fn numeric(self) -> i32 {
        match self {
            TritAction::Negative => -1i32,
            TritAction::Zero => 0i32,
            TritAction::Positive => 1i32,
        }
    }

    /// The trit that stands for `v`, where there is one.
    pub open spec fn from_numeric(v: i32) -> Option<TritAction> {
        if v == -1 {
            Some(TritAction::Negative)
        } else if v == 0 {
            Some(TritAction::Zero)
        } else if v == 1 {
            Some(TritAction::Positive)
        } else {
            None
        }
    }

    pub fn value(&self) -> (r: i32)
        ensures
            r == self.numeric(),
            -1 <= r <= 1,
    {
        match self {
            TritAction::Negative => -1i32,
            TritAction::Zero => 0i32,
            TritAction::Positive => 1i32,
        }
    }

    pub fn from_i32(v: i32) -> (r: Option<Self>)
        ensures
            r == Self::from_numeric(v),
            r is Some <==> (-1 <= v <= 1),
            r matches Some(t) ==> t.numeric() == v,
    {
        match v {
            -1 => Some(TritAction::Negative),
            0 => Some(TritAction::Zero),
            1 => Some(TritAction::Positive),
            _ => None,
        }
    }
}

/// Reading a trit as an integer and back gives the same trit.
pub proof fn law_trit_round_trip(t: TritAction)
    ensures
        TritAction::from_numeric(t.numeric()) == Some(t),
{
}

/// Two trits with the same integer are the same trit.
pub proof fn law_trit_numeric_injective(a: TritAction, b: TritAction)
    ensures
        a.numeric() == b.numeric() ==> a == b,
{
}

} // verus!
