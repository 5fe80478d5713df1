//! Variables and literals.

use vstd::prelude::*;

verus! {

/// Largest variable index whose two literals both have a 32-bit code.
pub const MAX_VAR: u32 = 0x7fff_ffff;

/// A boolean state variable: a latch, an input or an internal signal.
#[derive(Clone, Copy, PartialEq, Eq, Structural, Debug, Hash)]
pub struct Var(pub u32);

/// A signed reference to a variable.
///
/// The code of a literal is twice the index of its variable, plus one when
/// the literal is the negated one. Literals are ordered by their codes.
#[derive(Clone, Copy, PartialEq, Eq, Structural, Debug, Hash)]
pub struct Lit(pub u32);

impl Var {
    /// The positive literal of this variable.
    pub open spec fn spec_lit(self) -> Lit {
        Lit((2 * self.0) as u32)
    }

    /// The positive literal of this variable.
    #[verifier::when_used_as_spec(spec_lit)]
    pub fn lit(self) -> (l: Lit)
        requires
            self.0 <= MAX_VAR,
        ensures
            l == self.spec_lit(),
            l.var() == self,
            l.polarity(),
    {
        Lit(2 * self.0)
    }
}

impl Lit {
    /// The literal of `var` that holds when `var` has the value `polarity`.
    pub open spec fn spec_new(var: Var, polarity: bool) -> Lit {
        Lit((2 * var.0 + if polarity { 0int } else { 1int }) as u32)
    }

    /// The variable this literal refers to.
    pub open spec fn spec_var(self) -> Var {
        Var(self.0 / 2)
    }

    /// Whether the literal is the positive one of its variable.
    pub open spec fn spec_polarity(self) -> bool {
        self.0 % 2 == 0
    }

    /// The literal of the same variable with the opposite sign.
    pub open spec fn spec_not(self) -> Lit {
        if self.0 % 2 == 0 {
            Lit((self.0 + 1) as u32)
        } else {
            Lit((self.0 - 1) as u32)
        }
    }

    /// The bit that this literal contributes to the signature of a cube.
    pub open spec fn spec_sign_bit(self) -> u64 {
        1u64 << ((self.0 % 63) as u64)
    }

    /// The literal of `var` that holds when `var` has the value `polarity`.
    #[verifier::when_used_as_spec(spec_new)]
    pub fn new(var: Var, polarity: bool) -> (l: Lit)
        requires
            var.0 <= MAX_VAR,
        ensures
            l == Lit::spec_new(var, polarity),
            l.var() == var,
            l.polarity() == polarity,
    {
        if polarity {
            Lit(2 * var.0)
        } else {
            Lit(2 * var.0 + 1)
        }
    }

    /// The variable this literal refers to.
    #[verifier::when_used_as_spec(spec_var)]
    pub fn var(self) -> (v: Var)
        ensures
            v == self.spec_var(),
            v.0 <= MAX_VAR,
    {
        Var(self.0 / 2)
    }

    /// Whether the literal is the positive one of its variable.
    #[verifier::when_used_as_spec(spec_polarity)]
    pub fn polarity(self) -> (p: bool)
        ensures
            p == self.spec_polarity(),
    {
        self.0 % 2 == 0
    }

    /// The literal of the same variable with the opposite sign.
    #[verifier::when_used_as_spec(spec_not)]
    pub fn not(self) -> (l: Lit)
        ensures
            l == self.spec_not(),
    {
        if self.0 % 2 == 0 {
            Lit(self.0 + 1)
        } else {
            Lit(self.0 - 1)
        }
    }

    /// The bit that this literal contributes to the signature of a cube.
    #[verifier::when_used_as_spec(spec_sign_bit)]
    pub fn sign_bit(self) -> (b: u64)
        ensures
            b == self.spec_sign_bit(),
    {
        let k: u32 = self.0 % 63;
        1u64 << k
    }
}

/// Negation keeps the variable, flips the sign, and undoes itself.
pub proof fn lemma_not(l: Lit)
    ensures
        l.not().var() == l.var(),
        l.not().polarity() == !l.polarity(),
        l.not().not() == l,
        l.not() != l,
{
}

/// A literal is determined by its variable and its sign.
pub proof fn lemma_lit_parts(l: Lit)
    ensures
        Lit::spec_new(l.var(), l.polarity()) == l,
{
}

} // verus!
