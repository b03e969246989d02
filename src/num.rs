use vstd::prelude::*;
use vstd::string::*;

verus! {

/// The four representations of the numeric tower, narrowest first.
#[derive(PartialEq, Eq, Structural, Clone, Copy, Debug)]
pub enum Kind {
    Integer,
    Rational,
    Float,
    Complex,
}

/// Failure of an operation of the numeric tower, with a reason.
#[derive(Debug)]
pub enum NumError {
    InvalidOp(String),
}

/// A numeric literal as written, with the representation it denotes.
#[derive(Clone, Debug)]
pub struct Literal {
    pub kind: Kind,
    pub text: String,
}

impl Kind {
    /// Position in the order `Integer < Rational < Float < Complex`.
    pub open spec fn rank(self) -> nat {
        match self {
            Kind::Integer => 0,
            Kind::Rational => 1,
            Kind::Float => 2,
            Kind::Complex => 3,
        }
    }

    /// Integer and Rational hold their values exactly.
    pub open spec fn is_exact(self) -> bool {
        self is Integer || self is Rational
    }

    /// The wider of two representations.
    pub open spec fn join(self, other: Kind) -> Kind {
        if self.rank() >= other.rank() {
            self
        } else {
            other
        }
    }

    /// Representation in which logarithms are taken: exact values are first
    /// coerced to a float at the working precision.
    pub open spec fn inexact(self) -> Kind {
        if self.is_exact() {
            Kind::Float
        } else {
            self
        }
    }

    /// Whether `self / rhs` is defined: an exact numerator cannot be divided
    /// by a complex denominator.
    pub open spec fn divides(self, rhs: Kind) -> bool {
        !(self.is_exact() && rhs is Complex)
    }

    /// Why `self / rhs` is refused, naming both representations.
    pub open spec fn div_reason(self) -> Seq<char> {
        if self is Integer {
            "Cannot divide Integer by Complex"@
        } else {
            "Cannot divide Rational by Complex"@
        }
    }

    /// Why `floor` is refused on this representation.
    pub open spec fn floor_reason(self) -> Seq<char> {
        if self is Integer {
            "Cannot floor an Integer"@
        } else {
            "Cannot floor a Complex"@
        }
    }

    /// Whether `floor` is defined on this representation.
    pub open spec fn has_floor(self) -> bool {
        self is Rational || self is Float
    }

    pub fn rank_of(&self) -> (r: u8)
        ensures
            r as nat == self.rank(),
    {
        match self {
            Kind::Integer => 0,
            Kind::Rational => 1,
            Kind::Float => 2,
            Kind::Complex => 3,
        }
    }

    /// Result representation of `+`, `-` and `*`: the wider operand's.
    pub fn promote(self, rhs: Kind) -> (r: Kind)
        ensures
            r == self.join(rhs),
            r.rank() == if self.rank() >= rhs.rank() { self.rank() } else { rhs.rank() },
    {
        if self.rank_of() >= rhs.rank_of() {
            self
        } else {
            rhs
        }
    }

    /// Result representation of `self / rhs`, or the reason it is refused.
    pub fn div(self, rhs: Kind) -> (r: Result<Kind, NumError>)
        ensures
            r is Ok <==> self.divides(rhs),
            r is Ok ==> r->Ok_0 == self.join(rhs),
            r matches Err(NumError::InvalidOp(m)) ==> m@ == self.div_reason(),
    {
        match (self, rhs) {
            (Kind::Integer, Kind::Complex) => Err(
                NumError::InvalidOp(String::from_str("Cannot divide Integer by Complex")),
            ),
            (Kind::Rational, Kind::Complex) => Err(
                NumError::InvalidOp(String::from_str("Cannot divide Rational by Complex")),
            ),
            _ => Ok(self.promote(rhs)),
        }
    }

    /// Representation of `self ^ exp`: an Integer exponent keeps the base's
    /// representation; any other is taken in the wider representation, and an
    /// exact one there becomes a float. An Integer base raised to a negative
    /// Integer exponent has no Integer value; a backend refuses that power
    /// when it meets it.
    pub open spec fn pow_spec(self, exp: Kind) -> Kind {
        if exp is Integer {
            self
        } else {
            self.join(exp).inexact()
        }
    }

    pub fn pow(self, exp: Kind) -> (r: Kind)
        ensures
            r == self.pow_spec(exp),
    {
        match exp {
            Kind::Integer => self,
            _ => self.promote(exp).ln(),
        }
    }

    /// Result representation of negation: unchanged.
    pub fn neg(self) -> (r: Kind)
        ensures
            r == self,
    {
        self
    }

    /// Result representation of the absolute value: unchanged.
    pub fn abs(self) -> (r: Kind)
        ensures
            r == self,
    {
        self
    }

    /// Result representation of `floor`, defined on Rational and Float only.
    pub fn floor(self) -> (r: Result<Kind, NumError>)
        ensures
            r is Ok <==> self.has_floor(),
            r is Ok ==> r->Ok_0 == self,
            r matches Err(NumError::InvalidOp(m)) ==> m@ == self.floor_reason(),
    {
        match self {
            Kind::Complex => Err(NumError::InvalidOp(String::from_str("Cannot floor a Complex"))),
            Kind::Integer => Err(NumError::InvalidOp(String::from_str("Cannot floor an Integer"))),
            _ => Ok(self),
        }
    }

    /// Result representation of the natural logarithm.
    pub fn ln(self) -> (r: Kind)
        ensures
            r == self.inexact(),
    {
        match self {
            Kind::Integer | Kind::Rational => Kind::Float,
            _ => self,
        }
    }

    /// Result representation of a conversion to a float; a complex value
    /// has no float form.
    pub fn to_float(self) -> (r: Result<Kind, NumError>)
        ensures
            r is Ok <==> !(self is Complex),
            r is Ok ==> r->Ok_0 == Kind::Float,
            r matches Err(NumError::InvalidOp(m)) ==> m@ == "Cannot convert a Complex to a Float"@,
    {
        match self {
            Kind::Complex => Err(
                NumError::InvalidOp(String::from_str("Cannot convert a Complex to a Float")),
            ),
            _ => Ok(Kind::Float),
        }
    }

    /// Result representation of `log(self, base)`: the base-10 logarithm of
    /// each operand, the first divided by the second. It fails exactly where
    /// the division of the operands does.
    pub fn log(self, base: Kind) -> (r: Result<Kind, NumError>)
        ensures
            r is Ok <==> self.divides(base),
            r is Ok ==> r->Ok_0 == self.inexact().join(base.inexact()),
            r matches Err(NumError::InvalidOp(m)) ==> m@ == self.div_reason(),
    {
        match self.div(base) {
            Err(e) => Err(e),
            Ok(_) => Ok(self.ln().promote(base.ln())),
        }
    }
}

} // verus!
