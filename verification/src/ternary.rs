use vstd::prelude::*;

verus! {

/// A ternary state value: -1, 0, or +1.
#[derive(Clone, Copy, Debug, PartialEq, Eq, Structural, Hash)]
pub enum Ternary {
    Neg,
    Zero,
    Pos,
}

impl Ternary {
    /// The integer that the state stands for.
    pub open spec fn spec_value(&self) -> i8 {
        match *self {
            Ternary::Neg => -1i8,
            Ternary::Zero => 0i8,
            Ternary::Pos => 1i8,
        }
    }

    /// The state that stands for `v`, if `v` is -1, 0 or 1.
    pub open spec fn spec_from_i8(v: i8) -> Option<Ternary> {
        if v == -1 {
            Some(Ternary::Neg)
        } else if v == 0 {
            Some(Ternary::Zero)
        } else if v == 1 {
            Some(Ternary::Pos)
        } else {
            None
        }
    }

    #[verifier::when_used_as_spec(spec_value)]
    pub fn value(&self) -> (v: i8)
        ensures
            v == self.spec_value(),
            -1 <= v <= 1,
    {
        match self {
            Ternary::Neg => -1,
            Ternary::Zero => 0,
            Ternary::Pos => 1,
        }
    }

    #[verifier::when_used_as_spec(spec_from_i8)]
    pub fn from_i8(v: i8) -> (r: Option<Self>)
        ensures
            r == Self::spec_from_i8(v),
            r is Some <==> -1 <= v <= 1,
            r matches Some(t) ==> t.spec_value() == v,
    {
        match v {
            -1 => Some(Ternary::Neg),
            0 => Some(Ternary::Zero),
            1 => Some(Ternary::Pos),
            _ => None,
        }
    }

    /// The state with the opposite sign (Zero stays Zero).
    pub open spec fn spec_negate(self) -> Ternary {
        match self {
            Ternary::Neg => Ternary::Pos,
            Ternary::Zero => Ternary::Zero,
            Ternary::Pos => Ternary::Neg,
        }
    }
}

/// `from_i8` undoes `value`: reading a state's integer back gives the state.
pub proof fn lemma_value_round_trip(t: Ternary)
    ensures
        Ternary::spec_from_i8(t.spec_value()) == Some(t),
{
}

/// `value` undoes `from_i8` on every integer that `from_i8` accepts.
pub proof fn lemma_from_i8_round_trip(v: i8)
    requires
        Ternary::spec_from_i8(v) is Some,
    ensures
        Ternary::spec_from_i8(v).unwrap().spec_value() == v,
{
}

/// Flipping the sign twice gives the state back, and flipping negates the value.
pub proof fn lemma_negate_involution(t: Ternary)
    ensures
        t.spec_negate().spec_negate() == t,
        t.spec_negate().spec_value() == -t.spec_value(),
{
}

/// Distinct states stand for distinct integers.
pub proof fn lemma_value_injective(a: Ternary, b: Ternary)
    ensures
        a.spec_value() == b.spec_value() <==> a == b,
{
}

} // verus!
