//! The four basis symbols and their signed multiplication table.

use vstd::prelude::*;

verus! {

/// One of the four basis symbols of a quaternion.
#[derive(Clone, Copy, Debug, PartialEq, Eq, Structural)]
pub enum Basis {
    /// The real unit, written `r`.
    R,
    /// The first imaginary unit, written `i`.
    I,
    /// The second imaginary unit, written `j`.
    J,
    /// The third imaginary unit, written `k`.
    K,
}

/// The sign of a product of two basis symbols.
#[derive(Clone, Copy, Debug, PartialEq, Eq, Structural)]
pub enum Sign {
    /// The factor `+1`.
    Plus,
    /// The factor `-1`.
    Minus,
}

/// A basis symbol with a sign: the product of two basis symbols.
#[derive(Clone, Copy, Debug, PartialEq, Eq, Structural)]
pub struct SignedCoefficient {
    /// The sign.
    pub c: Sign,
    /// The basis symbol.
    pub d: Basis,
}

impl Sign {
    /// The sign as a number, `1` or `-1`.
    pub open spec fn factor(self) -> int {
        match self {
            Sign::Plus => 1,
            Sign::Minus => -1,
        }
    }

    /// The sign as a number, `1` or `-1`.
    pub fn value(self) -> (result: i8)
        ensures
            result == self.factor(),
    {
        match self {
            Sign::Plus => 1,
            Sign::Minus => -1,
        }
    }
}

impl Basis {
    /// The symbol at a position in the order `r`, `i`, `j`, `k`.
    pub open spec fn at(index: int) -> Basis {
        if index == 0 {
            Basis::R
        } else if index == 1 {
            Basis::I
        } else if index == 2 {
            Basis::J
        } else {
            Basis::K
        }
    }

    /// The character that names the symbol.
    pub open spec fn symbol(self) -> char {
        match self {
            Basis::R => 'r',
            Basis::I => 'i',
            Basis::J => 'j',
            Basis::K => 'k',
        }
    }

    /// The imaginary unit that follows this one in the cycle `i`, `j`, `k`, `i`;
    /// the real unit follows itself.
    pub open spec fn successor(self) -> Basis {
        match self {
            Basis::R => Basis::R,
            Basis::I => Basis::J,
            Basis::J => Basis::K,
            Basis::K => Basis::I,
        }
    }

    /// The imaginary unit that is neither `a` nor `b`, for two distinct imaginary units.
    pub open spec fn third(a: Basis, b: Basis) -> Basis {
        if a != Basis::I && b != Basis::I {
            Basis::I
        } else if a != Basis::J && b != Basis::J {
            Basis::J
        } else {
            Basis::K
        }
    }

    /// The symbol that a character names, if it names one.
    pub fn from_char(c: char) -> (result: Option<Basis>)
        ensures
            match result {
                Some(b) => b.symbol() == c,
                None => forall|b: Basis| b.symbol() != c,
            },
    {
        if c == 'r' {
            Some(Basis::R)
        } else if c == 'i' {
            Some(Basis::I)
        } else if c == 'j' {
            Some(Basis::J)
        } else if c == 'k' {
            Some(Basis::K)
        } else {
            None
        }
    }

    /// The character that names the symbol.
    pub fn to_char(self) -> (result: char)
        ensures
            result == self.symbol(),
    {
        match self {
            Basis::R => 'r',
            Basis::I => 'i',
            Basis::J => 'j',
            Basis::K => 'k',
        }
    }
}

/// The product of two basis symbols by the rules of the quaternion algebra: the real unit
/// is the identity, an imaginary unit squares to `-r`, and two distinct imaginary units
/// give the third one, with a positive sign when they follow the cycle `i`, `j`, `k`, `i`.
pub open spec fn basis_product(a: Basis, b: Basis) -> SignedCoefficient {
    if a == Basis::R {
        SignedCoefficient { c: Sign::Plus, d: b }
    } else if b == Basis::R {
        SignedCoefficient { c: Sign::Plus, d: a }
    } else if a == b {
        SignedCoefficient { c: Sign::Minus, d: Basis::R }
    } else if a.successor() == b {
        SignedCoefficient { c: Sign::Plus, d: Basis::third(a, b) }
    } else {
        SignedCoefficient { c: Sign::Minus, d: Basis::third(a, b) }
    }
}

/// Multiplies two basis symbols.
pub fn multiply_base(a: Basis, b: Basis) -> (result: SignedCoefficient)
    ensures
        result == basis_product(a, b),
{
    match (a, b) {
        (Basis::R, Basis::R) => SignedCoefficient { c: Sign::Plus, d: Basis::R },
        (Basis::R, Basis::I) => SignedCoefficient { c: Sign::Plus, d: Basis::I },
        (Basis::R, Basis::J) => SignedCoefficient { c: Sign::Plus, d: Basis::J },
        (Basis::R, Basis::K) => SignedCoefficient { c: Sign::Plus, d: Basis::K },
        (Basis::I, Basis::R) => SignedCoefficient { c: Sign::Plus, d: Basis::I },
        (Basis::I, Basis::I) => SignedCoefficient { c: Sign::Minus, d: Basis::R },
        (Basis::I, Basis::J) => SignedCoefficient { c: Sign::Plus, d: Basis::K },
        (Basis::I, Basis::K) => SignedCoefficient { c: Sign::Minus, d: Basis::J },
        (Basis::J, Basis::R) => SignedCoefficient { c: Sign::Plus, d: Basis::J },
        (Basis::J, Basis::I) => SignedCoefficient { c: Sign::Minus, d: Basis::K },
        (Basis::J, Basis::J) => SignedCoefficient { c: Sign::Minus, d: Basis::R },
        (Basis::J, Basis::K) => SignedCoefficient { c: Sign::Plus, d: Basis::I },
        (Basis::K, Basis::R) => SignedCoefficient { c: Sign::Plus, d: Basis::K },
        (Basis::K, Basis::I) => SignedCoefficient { c: Sign::Plus, d: Basis::J },
        (Basis::K, Basis::J) => SignedCoefficient { c: Sign::Minus, d: Basis::I },
        (Basis::K, Basis::K) => SignedCoefficient { c: Sign::Minus, d: Basis::R },
    }
}

/// The multiplication table, entry by entry.
pub proof fn lemma_basis_table()
    ensures
        basis_product(Basis::R, Basis::R) == (SignedCoefficient { c: Sign::Plus, d: Basis::R }),
        basis_product(Basis::R, Basis::I) == (SignedCoefficient { c: Sign::Plus, d: Basis::I }),
        basis_product(Basis::R, Basis::J) == (SignedCoefficient { c: Sign::Plus, d: Basis::J }),
        basis_product(Basis::R, Basis::K) == (SignedCoefficient { c: Sign::Plus, d: Basis::K }),
        basis_product(Basis::I, Basis::R) == (SignedCoefficient { c: Sign::Plus, d: Basis::I }),
        basis_product(Basis::I, Basis::I) == (SignedCoefficient { c: Sign::Minus, d: Basis::R }),
        basis_product(Basis::I, Basis::J) == (SignedCoefficient { c: Sign::Plus, d: Basis::K }),
        basis_product(Basis::I, Basis::K) == (SignedCoefficient { c: Sign::Minus, d: Basis::J }),
        basis_product(Basis::J, Basis::R) == (SignedCoefficient { c: Sign::Plus, d: Basis::J }),
        basis_product(Basis::J, Basis::I) == (SignedCoefficient { c: Sign::Minus, d: Basis::K }),
        basis_product(Basis::J, Basis::J) == (SignedCoefficient { c: Sign::Minus, d: Basis::R }),
        basis_product(Basis::J, Basis::K) == (SignedCoefficient { c: Sign::Plus, d: Basis::I }),
        basis_product(Basis::K, Basis::R) == (SignedCoefficient { c: Sign::Plus, d: Basis::K }),
        basis_product(Basis::K, Basis::I) == (SignedCoefficient { c: Sign::Plus, d: Basis::J }),
        basis_product(Basis::K, Basis::J) == (SignedCoefficient { c: Sign::Minus, d: Basis::I }),
        basis_product(Basis::K, Basis::K) == (SignedCoefficient { c: Sign::Minus, d: Basis::R }),
{
}

} // verus!
