//! The bandwidth ratio `q`.
//!
//! `q` is a rational in `(0, 1]` that governs how many deniable bytes may ride
//! on an overt packet: the appendix of an envelope whose overt payload is `s`
//! bytes long must total exactly `ceil(s * q)` bytes.

use vstd::prelude::*;

verus! {

/// Largest denominator a ratio may carry; bounds the intermediate products of
/// the budget computation.
pub const MAX_DENOMINATOR: u32 = 10_000;

/// Largest overt payload size the budget computation accepts.
pub const MAX_OVERT_SIZE: usize = 0x7fff_ffff;

/// The deniable bandwidth ratio, a rational `num / den` in `(0, 1]`.
///
/// The denominator is capped at `MAX_DENOMINATOR`: the ratio stands for a
/// configured deployment value (its wire form is a 32-bit float, whose
/// precision a four-digit denominator already exceeds), and the cap keeps
/// every budget product inside a machine word.
#[derive(Clone, Copy, PartialEq, Eq, Structural, Debug)]
pub struct QRatio {
    pub num: u32,
    pub den: u32,
}

impl QRatio {
    /// A well-formed ratio lies in `(0, 1]` and its denominator is small
    /// enough that budget products fit comfortably in a machine word.
    pub open spec fn wf(self) -> bool {
        1 <= self.num <= self.den <= MAX_DENOMINATOR
    }

    /// `ceil(size * self)`: the exact byte budget of the deniable appendix of
    /// an overt payload of `size` bytes.
    pub open spec fn spec_budget(self, size: int) -> int {
        (size * self.num + self.den - 1) / (self.den as int)
    }

    /// Build a ratio; `None` unless `num / den` lies in `(0, 1]` with a
    /// denominator of at most `MAX_DENOMINATOR`.
    pub fn new(num: u32, den: u32) -> (r: Option<QRatio>)
        ensures
            match r {
                Some(q) => q.wf() && q.num == num && q.den == den,
                None => !(1 <= num <= den <= MAX_DENOMINATOR),
            },
    {
        if 1 <= num && num <= den && den <= MAX_DENOMINATOR {
            Some(QRatio { num, den })
        } else {
            None
        }
    }

    /// The default deployment ratio, `6 / 10`.
    pub fn default_ratio() -> (r: QRatio)
        ensures
            r.wf(),
            r.num == 6,
            r.den == 10,
    {
        QRatio { num: 6, den: 10 }
    }

    /// `ceil(size * self)` as an executable computation.
    pub fn budget(&self, size: usize) -> (r: usize)
        requires
            self.wf(),
            size <= MAX_OVERT_SIZE,
        ensures
            r == self.spec_budget(size as int),
            r <= size,
    {
        proof {
            assert(size * self.num <= MAX_OVERT_SIZE * MAX_DENOMINATOR) by (nonlinear_arith)
                requires
                    0 <= size <= MAX_OVERT_SIZE,
                    0 <= self.num <= MAX_DENOMINATOR,
            ;
            lemma_budget_le_size(*self, size as int);
        }
        let n: u64 = (size as u64) * (self.num as u64) + (self.den as u64) - 1;
        let r: u64 = n / (self.den as u64);
        r as usize
    }
}

/// With `q <= 1` the budget never exceeds the overt payload size itself.
pub proof fn lemma_budget_le_size(q: QRatio, size: int)
    requires
        q.wf(),
        size >= 0,
    ensures
        q.spec_budget(size) <= size,
        q.spec_budget(size) >= 0,
{
    let d = q.den as int;
    let n = q.num as int;
    assert(size * n <= size * d) by (nonlinear_arith)
        requires
            n <= d,
            size >= 0,
    ;
    assert((size * n + d - 1) / d <= (size * d + d - 1) / d) by (nonlinear_arith)
        requires
            size * n <= size * d,
            d >= 1,
    ;
    assert((size * d + d - 1) / d == size) by (nonlinear_arith)
        requires
            d >= 1,
            size >= 0,
    ;
    assert((size * n + d - 1) / d >= 0) by (nonlinear_arith)
        requires
            d >= 1,
            n >= 1,
            size >= 0,
    ;
}

} // verus!
