use vstd::prelude::*;

verus! {

/// The number type in which scores, densities and matrix cells are held.
///
/// Each operation is a function of its arguments alone, named by a spec
/// function of the same meaning (`plus` by `add_spec`, `less_than` by
/// `lt_spec`, ...); the engine's contracts state its results through those
/// names. Nothing else is assumed of them: no law of arithmetic or of order
/// is used, so the contracts hold however the number type rounds. The usual
/// instance is a wrapper around a binary64 float whose operations are the
/// IEEE operations of the same names, and whose spec functions are those
/// same operations.
pub trait Real: Copy + Sized {
    /// The value of a non-negative integer.
    spec fn from_u64_spec(n: u64) -> Self;

    /// The value below every other one.
    spec fn neg_infinity_spec() -> Self;

    /// `self + other`.
    spec fn add_spec(self, other: Self) -> Self;

    /// `self - other`.
    spec fn sub_spec(self, other: Self) -> Self;

    /// `self * other`.
    spec fn mul_spec(self, other: Self) -> Self;

    /// `self / other`.
    spec fn div_spec(self, other: Self) -> Self;

    /// The square root.
    spec fn sqrt_spec(self) -> Self;

    /// The base-2 logarithm.
    spec fn log2_spec(self) -> Self;

    /// `self < other`.
    spec fn lt_spec(self, other: Self) -> bool;

    /// Density at `x` of the normal law with the given mean and standard
    /// deviation.
    spec fn normal_pdf_spec(mean: Self, std_dev: Self, x: Self) -> Self;

    /// Distribution function at `x` of the normal law with the given mean and
    /// standard deviation.
    spec fn normal_cdf_spec(mean: Self, std_dev: Self, x: Self) -> Self;

    fn from_u64(n: u64) -> (r: Self)
        ensures
            r == Self::from_u64_spec(n),
    ;

    fn neg_infinity() -> (r: Self)
        ensures
            r == Self::neg_infinity_spec(),
    ;

    fn plus(self, other: Self) -> (r: Self)
        ensures
            r == self.add_spec(other),
    ;

    fn minus(self, other: Self) -> (r: Self)
        ensures
            r == self.sub_spec(other),
    ;

    fn times(self, other: Self) -> (r: Self)
        ensures
            r == self.mul_spec(other),
    ;

    fn over(self, other: Self) -> (r: Self)
        ensures
            r == self.div_spec(other),
    ;

    fn sqrt(self) -> (r: Self)
        ensures
            r == self.sqrt_spec(),
    ;

    fn log2(self) -> (r: Self)
        ensures
            r == self.log2_spec(),
    ;

    fn less_than(self, other: Self) -> (r: bool)
        ensures
            r == self.lt_spec(other),
    ;

    /// Density of the normal law; the standard deviation is positive.
    fn normal_pdf(mean: Self, std_dev: Self, x: Self) -> (r: Self)
        requires
            Self::from_u64_spec(0).lt_spec(std_dev),
        ensures
            r == Self::normal_pdf_spec(mean, std_dev, x),
    ;

    /// Distribution function of the normal law; the standard deviation is
    /// positive.
    fn normal_cdf(mean: Self, std_dev: Self, x: Self) -> (r: Self)
        requires
            Self::from_u64_spec(0).lt_spec(std_dev),
        ensures
            r == Self::normal_cdf_spec(mean, std_dev, x),
    ;
}

/// The value of a non-negative integer, in `R`.
pub open spec fn num<R: Real>(n: u64) -> R {
    R::from_u64_spec(n)
}

} // verus!
