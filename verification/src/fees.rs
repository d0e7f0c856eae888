//! Maker/taker fee rates in basis points.
use vstd::prelude::*;
use crate::quantity::{pow2_256, Quantity};

verus! {

/// A rate in basis points (1 bps = 0.01 %), always at most 10 000.
#[derive(Debug, Clone, Copy, PartialEq, Eq, Hash, Structural)]
pub struct BasisPoint(u16);

/// A basis-point value above 10 000 was supplied.
#[derive(Debug, Clone, Copy, PartialEq, Eq, Structural)]
pub enum InvalidBasisPoint {
    OutOfRange(u16),
}

/// `ceil(amount × bps / 10 000)`.
pub open spec fn fee_ceil(amount: nat, bps: nat) -> nat {
    (amount * bps + 9999) / 10000
}

impl View for BasisPoint {
    type V = u16;

    closed spec fn view(&self) -> u16 {
        self.0
    }
}

impl BasisPoint {
    #[verifier::type_invariant]
    closed spec fn inv(self) -> bool {
        self.0 <= 10_000
    }

    pub closed spec fn spec_zero() -> BasisPoint {
        BasisPoint(0)
    }

    pub broadcast proof fn lemma_spec_zero()
        ensures
            #[trigger] BasisPoint::spec_zero()@ == 0,
    {
    }

    /// The zero rate.
    pub fn zero() -> (b: BasisPoint)
        ensures
            b@ == 0,
            b == BasisPoint::spec_zero(),
    {
        BasisPoint(0)
    }

    /// The largest rate, 10 000 bps (100 %).
    pub fn max() -> (b: BasisPoint)
        ensures
            b@ == 10_000,
    {
        BasisPoint(10_000)
    }

    /// A rate of `value` bps; rejected when above 10 000.
    pub fn new(value: u16) -> (r: Result<BasisPoint, InvalidBasisPoint>)
        ensures
            match r {
                Ok(b) => value <= 10_000 && b@ == value,
                Err(e) => value > 10_000 && e == InvalidBasisPoint::OutOfRange(value),
            },
    {
        if value > 10_000 {
            return Err(InvalidBasisPoint::OutOfRange(value));
        }
        Ok(BasisPoint(value))
    }

    pub fn get(self) -> (r: u16)
        ensures
            r == self@,
            r <= 10_000,
    {
        proof { use_type_invariant(&self); }
        self.0
    }

    /// Compute `ceil(amount × self / 10 000)`; never exceeds `amount`.
    pub fn mul_ceil(self, amount: Quantity) -> (fee: Quantity)
        ensures
            fee@ == fee_ceil(amount@, self@ as nat),
            fee@ <= amount@,
    {
        proof { use_type_invariant(&self); }
        let bps = self.0 as u64;
        if bps == 0 {
            proof {
                assert(amount@ * 0 == 0);
            }
            return Quantity::zero();
        }
        let (q, r) = amount.checked_div_rem_u64(10_000).unwrap();
        proof {
            assert(q@ * bps <= amount@) by (nonlinear_arith)
                requires q@ * 10000 + r == amount@, bps <= 10000, r >= 0;
        }
        let main = q.checked_mul_u64(bps).unwrap();
        proof {
            assert(r * bps <= 10000 * 10000) by (nonlinear_arith)
                requires r < 10000, bps <= 10000;
        }
        let rem_num = r * bps;
        let rem_ceil = (rem_num + 9_999) / 10_000;
        proof {
            assert(amount@ * bps + 9999 == (q@ * bps) * 10000 + (rem_num + 9999)) by (nonlinear_arith)
                requires q@ * 10000 + r == amount@, rem_num == r * bps;
            assert(((q@ * bps) * 10000 + (rem_num + 9999)) / 10000 == q@ * bps + (rem_num + 9999) / 10000)
                by (nonlinear_arith);
            assert(fee_ceil(amount@, bps as nat) <= amount@) by (nonlinear_arith)
                requires bps <= 10000, fee_ceil(amount@, bps as nat) == (amount@ * bps + 9999) / 10000;
        }
        main.checked_add(Quantity::from_u128(rem_ceil as u128)).unwrap()
    }
}

/// Maker/taker fee rates for a trading pair; zero means no fee on that role.
#[derive(Debug, Clone, Copy, PartialEq, Eq, Structural)]
pub struct FeeRates {
    pub maker: BasisPoint,
    pub taker: BasisPoint,
}

impl Default for FeeRates {
    fn default() -> (r: FeeRates)
        ensures
            r.maker@ == 0,
            r.taker@ == 0,
    {
        FeeRates { maker: BasisPoint::zero(), taker: BasisPoint::zero() }
    }
}

} // verus!
