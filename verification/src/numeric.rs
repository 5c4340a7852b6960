use vstd::prelude::*;

verus! {

/// Truncating integer division: the quotient is rounded toward zero,
/// which is what `/` computes on the supported scalar types.
pub open spec fn trunc_div(a: int, b: int) -> int {
    if a >= 0 {
        a / b
    } else {
        -((-a) / b)
    }
}

/// The closed set of capabilities a scalar type must offer to serve as
/// array element storage: copy semantics, an additive identity,
/// additive accumulation, multiplication and division.  Each operation
/// is tied to the scalar's mathematical value, and asks its caller to
/// keep the result representable, so that the scalar arithmetic of the
/// array operations can never overflow or wrap.
pub trait Numeric: Sized + Copy {
    /// The mathematical value of this scalar.
    spec fn v(self) -> int;

    /// Whether a mathematical value is representable in this type.
    spec fn fits(x: int) -> bool;

    /// The value of any scalar is representable.
    proof fn lemma_v_fits(self)
        ensures
            Self::fits(self.v()),
    ;

    /// The additive identity is representable.
    proof fn lemma_zero_fits()
        ensures
            Self::fits(0),
    ;

    /// The additive identity.
    fn zero() -> (r: Self)
        ensures
            r.v() == 0,
    ;

    /// Addition, the accumulation step of the reductions.
    fn add_val(self, other: Self) -> (r: Self)
        requires
            Self::fits(self.v() + other.v()),
        ensures
            r.v() == self.v() + other.v(),
    ;

    /// Multiplication.
    fn mul_val(self, other: Self) -> (r: Self)
        requires
            Self::fits(self.v() * other.v()),
        ensures
            r.v() == self.v() * other.v(),
    ;

    /// Division, truncating toward zero.  Division by zero is a
    /// precondition violation, as it is for the scalar type itself.
    fn div_val(self, other: Self) -> (r: Self)
        requires
            other.v() != 0,
            Self::fits(trunc_div(self.v(), other.v())),
        ensures
            r.v() == trunc_div(self.v(), other.v()),
    ;
}

impl Numeric for i64 {
    open spec fn v(self) -> int {
        self as int
    }

    open spec fn fits(x: int) -> bool {
        i64::MIN <= x <= i64::MAX
    }

    proof fn lemma_v_fits(self) {
    }

    proof fn lemma_zero_fits() {
    }

    fn zero() -> (r: Self) {
        0
    }

    fn add_val(self, other: Self) -> (r: Self) {
        self + other
    }

    fn mul_val(self, other: Self) -> (r: Self) {
        self * other
    }

    fn div_val(self, other: Self) -> (r: Self) {
        proof {
            if self == i64::MIN && other == -1i64 {
                assert(trunc_div(self.v(), other.v()) == -((-self.v()) / other.v()));
                assert(-self.v() == 0x8000_0000_0000_0000int);
                assert((0x8000_0000_0000_0000int) / (-1int) == -0x8000_0000_0000_0000int);
            }
        }
        self / other
    }
}

impl Numeric for i32 {
    open spec fn v(self) -> int {
        self as int
    }

    open spec fn fits(x: int) -> bool {
        i32::MIN <= x <= i32::MAX
    }

    proof fn lemma_v_fits(self) {
    }

    proof fn lemma_zero_fits() {
    }

    fn zero() -> (r: Self) {
        0
    }

    fn add_val(self, other: Self) -> (r: Self) {
        self + other
    }

    fn mul_val(self, other: Self) -> (r: Self) {
        self * other
    }

    fn div_val(self, other: Self) -> (r: Self) {
        proof {
            if self == i32::MIN && other == -1i32 {
                assert(trunc_div(self.v(), other.v()) == -((-self.v()) / other.v()));
                assert(-self.v() == 0x8000_0000int);
                assert((0x8000_0000int) / (-1int) == -0x8000_0000int);
            }
        }
        self / other
    }
}

} // verus!
