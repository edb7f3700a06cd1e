use vstd::prelude::*;

verus! {

/// An exact rational `num / den`.
///
/// No sign or zero check is made on `den`: a zero denominator stands for the
/// unbounded value that dividing by a zero rate gives.
#[derive(Clone, Copy, Debug, PartialEq, Eq, Structural)]
pub struct Ratio {
    pub num: i128,
    pub den: i128,
}

/// Componentwise product of two rationals, over unbounded integers.
pub open spec fn mul_spec(a: (int, int), b: (int, int)) -> (int, int) {
    (a.0 * b.0, a.1 * b.1)
}

impl Ratio {
    /// The ratio as a pair of unbounded integers.
    pub open spec fn pair(self) -> (int, int) {
        (self.num as int, self.den as int)
    }

    /// The rational with the given numerator and denominator.
    pub fn new(num: i128, den: i128) -> (r: Ratio)
        ensures
            r.num == num,
            r.den == den,
    {
        Ratio { num, den }
    }

    /// The reciprocal `den / num`.
    pub fn inverse(&self) -> (r: Ratio)
        ensures
            r.num == self.den,
            r.den == self.num,
    {
        Ratio { num: self.den, den: self.num }
    }
}

} // verus!
