//! Rotations by whole quarter turns.
use vstd::prelude::*;

verus! {

/// The number of quarter turns to rotate clockwise
#[derive(Clone, Copy, Debug, PartialEq, Eq, Structural, Hash, PartialOrd, Ord)]
pub enum QuarterTurns {
    /// Do not rotate
    Zero,
    One,
    Two,
    /// Corresponds to one quarter turn anticlockwise
    Three,
}

impl QuarterTurns {
    /// The number of clockwise quarter turns, in `0..4`.
    pub open spec fn turns(self) -> nat {
        match self {
            QuarterTurns::Zero => 0,
            QuarterTurns::One => 1,
            QuarterTurns::Two => 2,
            QuarterTurns::Three => 3,
        }
    }

    /// The rotation by `n` quarter turns, taken modulo a full turn.
    pub open spec fn from_turns(n: nat) -> QuarterTurns {
        if n % 4 == 0 {
            QuarterTurns::Zero
        } else if n % 4 == 1 {
            QuarterTurns::One
        } else if n % 4 == 2 {
            QuarterTurns::Two
        } else {
            QuarterTurns::Three
        }
    }

    /// The rotation that performs `self` and then `rhs`.
    pub open spec fn combined(self, rhs: QuarterTurns) -> QuarterTurns {
        QuarterTurns::from_turns(self.turns() + rhs.turns())
    }

    /// Every rotation, in declaration order.
    pub fn all() -> (r: [QuarterTurns; 4])
        ensures
            r@ == seq![QuarterTurns::Zero, QuarterTurns::One, QuarterTurns::Two, QuarterTurns::Three],
    {
        [QuarterTurns::Zero, QuarterTurns::One, QuarterTurns::Two, QuarterTurns::Three]
    }
}

impl Default for QuarterTurns {
    fn default() -> (r: Self)
        ensures
            r == QuarterTurns::Zero,
    {
        QuarterTurns::Zero
    }
}

impl core::ops::Add for QuarterTurns {
    type Output = QuarterTurns;

    fn add(self, rhs: Self) -> (r: Self::Output) {
        match (self, rhs) {
            (QuarterTurns::Zero, r) => r,
            (l, QuarterTurns::Zero) => l,
            (QuarterTurns::One, QuarterTurns::One) => QuarterTurns::Two,
            (QuarterTurns::One, QuarterTurns::Two) => QuarterTurns::Three,
            (QuarterTurns::One, QuarterTurns::Three) => QuarterTurns::Zero,
            (QuarterTurns::Two, QuarterTurns::One) => QuarterTurns::Three,
            (QuarterTurns::Two, QuarterTurns::Two) => QuarterTurns::Zero,
            (QuarterTurns::Two, QuarterTurns::Three) => QuarterTurns::One,
            (QuarterTurns::Three, QuarterTurns::One) => QuarterTurns::Zero,
            (QuarterTurns::Three, QuarterTurns::Two) => QuarterTurns::One,
            (QuarterTurns::Three, QuarterTurns::Three) => QuarterTurns::Two,
        }
    }
}

impl vstd::std_specs::ops::AddSpecImpl for QuarterTurns {
    open spec fn obeys_add_spec() -> bool {
        true
    }

    open spec fn add_req(self, rhs: Self) -> bool {
        true
    }

    open spec fn add_spec(self, rhs: Self) -> Self {
        self.combined(rhs)
    }
}

/// Adding rotations adds their numbers of quarter turns modulo a full turn.
pub proof fn lemma_combined_turns(a: QuarterTurns, b: QuarterTurns)
    ensures
        a.combined(b).turns() == (a.turns() + b.turns()) % 4,
{
}

/// Combining rotations is commutative.
pub proof fn lemma_combined_commutative(a: QuarterTurns, b: QuarterTurns)
    ensures
        a.combined(b) == b.combined(a),
{
}

/// Combining rotations is associative.
pub proof fn lemma_combined_associative(a: QuarterTurns, b: QuarterTurns, c: QuarterTurns)
    ensures
        a.combined(b).combined(c) == a.combined(b.combined(c)),
{
}

/// No rotation is the identity of combination, and every rotation has an inverse.
pub proof fn lemma_combined_identity_and_inverse(a: QuarterTurns)
    ensures
        a.combined(QuarterTurns::Zero) == a,
        QuarterTurns::Zero.combined(a) == a,
        a.combined(QuarterTurns::from_turns((4 - a.turns()) as nat)) == QuarterTurns::Zero,
{
}

} // verus!
