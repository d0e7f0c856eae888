//! 256-bit unsigned quantities and the price/tick/lot newtypes built on them.
use vstd::prelude::*;
use crate::bytes::{be_value, be_to_u128, lemma_be_value_concat, lemma_pow256_values, u128_to_be};

verus! {

/// 2^64.
pub open spec fn pow2_64() -> nat {
    0x1_0000_0000_0000_0000nat
}

/// 2^128.
pub open spec fn pow2_128() -> nat {
    0x1_0000_0000_0000_0000_0000_0000_0000_0000nat
}

/// 2^256, one past the largest value a [`Quantity`] can hold.
pub open spec fn pow2_256() -> nat {
    0x1_0000_0000_0000_0000_0000_0000_0000_0000_0000_0000_0000_0000_0000_0000_0000_0000nat
}

proof fn lemma_pow2_256_is_square()
    ensures
        pow2_256() == pow2_128() * pow2_128(),
        pow2_128() == pow2_64() * pow2_64(),
{
    assert(pow2_256() == pow2_128() * pow2_128()) by (nonlinear_arith);
    assert(pow2_128() == pow2_64() * pow2_64()) by (nonlinear_arith);
}

/// A 256-bit unsigned quantity represented as a `(high, low)` pair of `u128`
/// limbs; its value is `high · 2^128 + low`.
#[derive(Debug, Clone, Copy, PartialEq, Eq, PartialOrd, Ord, Hash, Structural)]
pub struct Quantity {
    high: u128,
    low: u128,
}

impl View for Quantity {
    type V = nat;

    open spec fn view(&self) -> nat {
        self.spec_high() as nat * pow2_128() + self.spec_low() as nat
    }
}

impl Quantity {
    /// The zero quantity.
    pub fn zero() -> (q: Quantity)
        ensures
            q@ == 0,
            q.spec_high() == 0,
            q.spec_low() == 0,
    {
        Quantity { high: 0, low: 0 }
    }

    /// The largest quantity, `2^256 - 1`.
    pub fn max_value() -> (q: Quantity)
        ensures
            q@ == pow2_256() - 1,
            q.spec_high() == u128::MAX,
            q.spec_low() == u128::MAX,
    {
        Quantity { high: u128::MAX, low: u128::MAX }
    }

    /// The quantity denoting `v`, for `v < 2^256`.
    pub closed spec fn from_value(v: nat) -> Quantity {
        Quantity { high: (v / pow2_128()) as u128, low: (v % pow2_128()) as u128 }
    }

    pub broadcast proof fn lemma_from_value(v: nat)
        requires
            v < pow2_256(),
        ensures
            #[trigger] Quantity::from_value(v)@ == v,
    {
        lemma_pow2_256_is_square();
        assert(v / pow2_128() < pow2_128()) by (nonlinear_arith)
            requires v < pow2_128() * pow2_128();
    }

    /// A quantity's value is below `2^256`.
    pub broadcast proof fn lemma_bound(q: Quantity)
        ensures
            #[trigger] q@ < pow2_256(),
    {
        lemma_pow2_256_is_square();
        assert((q.high as nat) * pow2_128() + (q.low as nat) < pow2_128() * pow2_128()) by (nonlinear_arith)
            requires q.high < pow2_128(), q.low < pow2_128();
    }

    /// Quantities with the same value are the same.
    /// The value is the high half times 2^128 plus the low half; it is
    /// below 2^128 exactly when the high half is zero.
    pub proof fn lemma_parts(q: Quantity)
        ensures
            q@ == q.spec_high() as nat * pow2_128() + q.spec_low() as nat,
            q.spec_high() == 0 <==> q@ < pow2_128(),
    {
        assert(q.high as nat * pow2_128() >= pow2_128() <== q.high > 0) by (nonlinear_arith);
    }

    pub broadcast proof fn lemma_view_injective(a: Quantity, b: Quantity)
        ensures
            #[trigger] a@ == #[trigger] b@ ==> a == b,
    {
        if a@ == b@ {
            assert(a.high == b.high && a.low == b.low) by (nonlinear_arith)
                requires
                    a.high as nat * pow2_128() + a.low as nat == b.high as nat * pow2_128() + b.low as nat,
                    a.low < pow2_128(),
                    b.low < pow2_128(),
            ;
        }
    }

    pub closed spec fn spec_high(&self) -> u128 {
        self.high
    }

    pub closed spec fn spec_low(&self) -> u128 {
        self.low
    }

    pub fn new(high: u128, low: u128) -> (q: Quantity)
        ensures
            q.spec_high() == high,
            q.spec_low() == low,
            q@ == high as nat * pow2_128() + low as nat,
    {
        Quantity { high, low }
    }

    pub fn from_u128(value: u128) -> (q: Quantity)
        ensures
            q@ == value as nat,
            q.spec_high() == 0,
    {
        Quantity { high: 0, low: value }
    }

    pub fn high(&self) -> (r: u128)
        ensures
            r == self.spec_high(),
    {
        self.high
    }

    pub fn low(&self) -> (r: u128)
        ensures
            r == self.spec_low(),
    {
        self.low
    }

    pub fn is_zero(&self) -> (r: bool)
        ensures
            r <==> self@ == 0,
    {
        self.high == 0 && self.low == 0
    }

    pub fn checked_add(self, rhs: Quantity) -> (r: Option<Quantity>)
        ensures
            match r {
                Some(q) => q@ == self@ + rhs@,
                None => self@ + rhs@ >= pow2_256(),
            },
    {
        let carry: u128 = if self.low > u128::MAX - rhs.low { 1 } else { 0 };
        let low: u128 = if carry == 1 {
            self.low - (u128::MAX - rhs.low) - 1
        } else {
            self.low + rhs.low
        };
        if self.high > u128::MAX - rhs.high {
            return None;
        }
        let h = self.high + rhs.high;
        if h > u128::MAX - carry {
            return None;
        }
        Some(Quantity { high: h + carry, low })
    }

    pub fn checked_sub(self, other: Quantity) -> (r: Option<Quantity>)
        ensures
            match r {
                Some(q) => q@ == self@ - other@,
                None => self@ < other@,
            },
    {
        let borrow: u128 = if self.low < other.low { 1 } else { 0 };
        let low: u128 = if borrow == 1 {
            u128::MAX - (other.low - self.low) + 1
        } else {
            self.low - other.low
        };
        if other.high > u128::MAX - borrow {
            return None;
        }
        let oh = other.high + borrow;
        if self.high < oh {
            return None;
        }
        Some(Quantity { high: self.high - oh, low })
    }

    /// Multiply by a `u64`, `None` when the product does not fit in 256 bits.
    pub fn checked_mul_u64(self, rhs: u64) -> (r: Option<Quantity>)
        ensures
            match r {
                Some(q) => q@ == self@ * rhs,
                None => self@ * rhs >= pow2_256(),
            },
    {
        let rhs = rhs as u128;
        let low_lo = self.low % 0x1_0000_0000_0000_0000u128;
        let low_hi = self.low / 0x1_0000_0000_0000_0000u128;
        proof {
            lemma_mul_lt(low_lo as nat, pow2_64(), rhs as nat, pow2_64());
            lemma_mul_lt(low_hi as nat, pow2_64(), rhs as nat, pow2_64());
        }
        let prod_lo = low_lo * rhs;
        let prod_hi = low_hi * rhs;
        let spill = prod_hi / 0x1_0000_0000_0000_0000u128;
        let kept = prod_hi % 0x1_0000_0000_0000_0000u128;
        proof {
            lemma_mul_lt(kept as nat, pow2_64(), pow2_64(), pow2_64() + 1);
        }
        let shifted = kept * 0x1_0000_0000_0000_0000u128;
        let carry: u128 = if prod_lo > u128::MAX - shifted { 1 } else { 0 };
        let low: u128 = if carry == 1 {
            prod_lo - (u128::MAX - shifted) - 1
        } else {
            prod_lo + shifted
        };
        proof {
            lemma_mul_u64_parts(
                self.high as int,
                self.low as int,
                low_hi as int,
                low_lo as int,
                rhs as int,
                prod_hi as int,
                prod_lo as int,
                spill as int,
                kept as int,
                carry as int,
                low as int,
            );
        }
        let hm = self.high.checked_mul(rhs);
        match hm {
            None => {
                proof {
                    lemma_mul_ge_pow2_256(self.high as int, rhs as int, (spill + carry) as int, low as int);
                }
                None
            },
            Some(hm) => {
                if hm > u128::MAX - spill {
                    proof {
                        lemma_mul_ge_pow2_256(self.high as int, rhs as int, (spill + carry) as int, low as int);
                    }
                    return None;
                }
                let h2 = hm + spill;
                if h2 > u128::MAX - carry {
                    proof {
                        lemma_mul_ge_pow2_256(self.high as int, rhs as int, (spill + carry) as int, low as int);
                    }
                    return None;
                }
                Some(Quantity { high: h2 + carry, low })
            },
        }
    }

    /// Multiply by a `u128`, `None` when the product does not fit in 256 bits.
    pub fn checked_mul_u128(self, rhs: u128) -> (r: Option<Quantity>)
        ensures
            match r {
                Some(q) => q@ == self@ * rhs,
                None => self@ * rhs >= pow2_256(),
            },
    {
        let b0 = (rhs % 0x1_0000_0000_0000_0000u128) as u64;
        let b1 = (rhs / 0x1_0000_0000_0000_0000u128) as u64;
        proof {
            assert(self@ * rhs == self@ * b0 + self@ * b1 * pow2_64()) by (nonlinear_arith)
                requires rhs == b1 * pow2_64() + b0;
            assert(self@ * b1 <= self@ * b1 * pow2_64()) by (nonlinear_arith);
        }
        let p0 = match self.checked_mul_u64(b0) {
            Some(p) => p,
            None => return None,
        };
        let p1 = match self.checked_mul_u64(b1) {
            Some(p) => p,
            None => return None,
        };
        if p1.high >= 0x1_0000_0000_0000_0000u128 {
            proof {
                lemma_pow2_256_is_square();
                assert(p1@ * pow2_64() >= pow2_256()) by (nonlinear_arith)
                    requires
                        p1@ == p1.high * pow2_128() + p1.low,
                        p1.high >= pow2_64(),
                        pow2_256() == pow2_128() * pow2_128(),
                        pow2_128() == pow2_64() * pow2_64();
            }
            return None;
        }
        let lo_hi = p1.low / 0x1_0000_0000_0000_0000u128;
        let lo_lo = p1.low % 0x1_0000_0000_0000_0000u128;
        let shifted = Quantity {
            high: p1.high * 0x1_0000_0000_0000_0000u128 + lo_hi,
            low: lo_lo * 0x1_0000_0000_0000_0000u128,
        };
        proof {
            assert(shifted@ == p1@ * pow2_64()) by (nonlinear_arith)
                requires
                    p1@ == p1.high * pow2_128() + p1.low,
                    p1.low == lo_hi * pow2_64() + lo_lo,
                    shifted@ == (p1.high * pow2_64() + lo_hi) * pow2_128() + lo_lo * pow2_64(),
                    pow2_128() == pow2_64() * pow2_64();
        }
        p0.checked_add(shifted)
    }

    /// Integer-divide by a `u64` divisor, returning `(quotient, remainder)`;
    /// `None` when the divisor is zero.
    pub fn checked_div_rem_u64(self, divisor: u64) -> (r: Option<(Quantity, u64)>)
        ensures
            match r {
                Some((q, rem)) => divisor != 0 && q@ * divisor + rem == self@ && rem < divisor,
                None => divisor == 0,
            },
    {
        if divisor == 0 {
            return None;
        }
        let d = divisor as u128;
        if self.high == 0 {
            let q = Quantity { high: 0, low: self.low / d };
            let rem = (self.low % d) as u64;
            proof {
                assert(self.low / d * d + self.low % d == self.low) by (nonlinear_arith)
                    requires d > 0;
            }
            return Some((q, rem));
        }
        let q1 = self.high / d;
        let r1 = self.high % d;
        let low_hi = self.low / 0x1_0000_0000_0000_0000u128;
        let low_lo = self.low % 0x1_0000_0000_0000_0000u128;
        proof {
            assert(r1 * pow2_64() + low_hi < d * pow2_64()) by (nonlinear_arith)
                requires r1 < d, low_hi < pow2_64();
            assert(d * pow2_64() <= pow2_128()) by (nonlinear_arith)
                requires d <= u64::MAX;
        }
        let dividend2 = r1 * 0x1_0000_0000_0000_0000u128 + low_hi;
        let q2 = dividend2 / d;
        let r2 = dividend2 % d;
        proof {
            assert(q2 < pow2_64()) by (nonlinear_arith)
                requires dividend2 < d * pow2_64(), q2 == dividend2 / d, d > 0;
            assert(r2 * pow2_64() + low_lo < d * pow2_64()) by (nonlinear_arith)
                requires r2 < d, low_lo < pow2_64();
        }
        let dividend3 = r2 * 0x1_0000_0000_0000_0000u128 + low_lo;
        let q3 = dividend3 / d;
        let r3 = dividend3 % d;
        proof {
            assert(q3 < pow2_64()) by (nonlinear_arith)
                requires dividend3 < d * pow2_64(), q3 == dividend3 / d, d > 0;
        }
        let low_out = q2 * 0x1_0000_0000_0000_0000u128 + q3;
        let q = Quantity { high: q1, low: low_out };
        proof {
            assert(self.high == q1 * d + r1) by (nonlinear_arith) requires q1 == self.high / d, r1 == self.high % d, d > 0;
            assert(dividend2 == q2 * d + r2) by (nonlinear_arith) requires q2 == dividend2 / d, r2 == dividend2 % d, d > 0;
            assert(dividend3 == q3 * d + r3) by (nonlinear_arith) requires q3 == dividend3 / d, r3 == dividend3 % d, d > 0;
            assert(q@ * d + r3 == self@) by (nonlinear_arith)
                requires
                    self@ == self.high * pow2_128() + self.low,
                    self.low == low_hi * pow2_64() + low_lo,
                    self.high == q1 * d + r1,
                    dividend2 == r1 * pow2_64() + low_hi,
                    dividend2 == q2 * d + r2,
                    dividend3 == r2 * pow2_64() + low_lo,
                    dividend3 == q3 * d + r3,
                    q@ == q1 * pow2_128() + low_out,
                    low_out == q2 * pow2_64() + q3,
                    pow2_128() == pow2_64() * pow2_64();
        }
        Some((q, r3 as u64))
    }

    /// Whether this quantity is a multiple of the lot size.
    pub fn is_multiple_of(&self, lot_size: LotSize) -> (r: bool)
        ensures
            r <==> self@ % (lot_size@ as nat) == 0,
    {
        let divisor = lot_size.get();
        if self.high == 0 {
            return self.low % (divisor as u128) == 0;
        }
        let (q, rem) = self.checked_div_rem_u64(divisor).unwrap();
        proof {
            vstd::arithmetic::div_mod::lemma_fundamental_div_mod_converse(
                self@ as int, divisor as int, q@ as int, rem as int);
        }
        rem == 0
    }

    /// `self < other` by value.
    pub fn lt(&self, other: &Quantity) -> (r: bool)
        ensures
            r <==> self@ < other@,
    {
        self.high < other.high || (self.high == other.high && self.low < other.low)
    }

    /// `self <= other` by value.
    pub fn le(&self, other: &Quantity) -> (r: bool)
        ensures
            r <==> self@ <= other@,
    {
        self.high < other.high || (self.high == other.high && self.low <= other.low)
    }

    /// The smaller of two quantities (the first on a tie).
    pub fn min(self, other: Quantity) -> (r: Quantity)
        ensures
            r@ == if self@ <= other@ { self@ } else { other@ },
            r == if self@ <= other@ { self } else { other },
    {
        if self.le(&other) { self } else { other }
    }

    /// The big-endian bytes of one more than this quantity, a 33rd byte
    /// where it no longer fits 256 bits.
    pub fn succ_be_bytes(&self) -> (r: Vec<u8>)
        ensures
            be_value(r@) == self@ + 1,
    {
        match self.checked_add(Quantity::from_u128(1)) {
            Some(next) => {
                let bytes = next.to_be_bytes();
                let mut out: Vec<u8> = Vec::new();
                let mut i: usize = 0;
                while i < 32
                    invariant
                        i <= 32,
                        bytes@.len() == 32,
                        out@ == bytes@.take(i as int),
                    decreases 32 - i,
                {
                    out.push(bytes[i]);
                    i = i + 1;
                    proof {
                        assert(out@ =~= bytes@.take(i as int));
                    }
                }
                proof {
                    assert(bytes@.take(32) =~= bytes@);
                }
                out
            },
            None => {
                let mut out: Vec<u8> = Vec::new();
                out.push(1u8);
                let mut i: usize = 0;
                while i < 32
                    invariant
                        i <= 32,
                        out@.len() == i + 1,
                        out@[0] == 1u8,
                        forall|j: int| 1 <= j < out@.len() ==> out@[j] == 0u8,
                    decreases 32 - i,
                {
                    out.push(0u8);
                    i = i + 1;
                }
                proof {
                    let zeros = out@.drop_first();
                    assert(out@ =~= seq![1u8] + zeros);
                    lemma_be_value_concat(seq![1u8], zeros);
                    crate::bytes::lemma_be_value_leading_zeros(zeros, Seq::<u8>::empty());
                    assert(zeros + Seq::<u8>::empty() =~= zeros);
                    assert(be_value(seq![1u8]) == 1) by {
                        assert(seq![1u8].drop_last() =~= Seq::<u8>::empty());
                    }
                    reveal_with_fuel(crate::bytes::pow256, 33);
                    assert(crate::bytes::pow256(32) == pow2_256());
                    assert(zeros.len() == 32);
                    Quantity::lemma_bound(*self);
                    assert(be_value(out@) == pow2_256());
                }
                out
            },
        }
    }

    /// The 32-byte big-endian representation.
    pub fn to_be_bytes(&self) -> (bytes: [u8; 32])
        ensures
            bytes@.len() == 32,
            be_value(bytes@) == self@,
    {
        proof {
            lemma_pow256_values();
        }
        let hi = u128_to_be(self.high, 16);
        let lo = u128_to_be(self.low, 16);
        let mut bytes = [0u8; 32];
        let mut i: usize = 0;
        while i < 16
            invariant
                i <= 16,
                hi.len() == 16,
                lo.len() == 16,
                bytes@.len() == 32,
                forall|j: int| 0 <= j < i ==> bytes@[j] == hi@[j] && bytes@[16 + j] == lo@[j],
            decreases 16 - i,
        {
            bytes[i] = hi[i];
            bytes[16 + i] = lo[i];
            i = i + 1;
        }
        proof {
            assert(bytes@ =~= hi@ + lo@);
            lemma_be_value_concat(hi@, lo@);
        }
        bytes
    }

    /// Parse a big-endian byte string of up to 32 bytes; `None` if longer.
    pub fn from_be_bytes(bytes: &[u8]) -> (r: Option<Quantity>)
        ensures
            match r {
                Some(q) => bytes@.len() <= 32 && q@ == be_value(bytes@),
                None => bytes@.len() > 32,
            },
    {
        let n = bytes.len();
        if n > 32 {
            return None;
        }
        if n <= 16 {
            let low = be_to_u128(bytes);
            return Some(Quantity { high: 0, low });
        }
        let head = vstd::slice::slice_subrange(bytes, 0, n - 16);
        let tail = vstd::slice::slice_subrange(bytes, n - 16, n);
        let high = be_to_u128(head);
        let low = be_to_u128(tail);
        proof {
            assert(bytes@ =~= head@ + tail@);
            lemma_be_value_concat(head@, tail@);
            lemma_pow256_values();
        }
        Some(Quantity { high, low })
    }
}

proof fn lemma_mul_lt(a: nat, amax: nat, b: nat, bmax: nat)
    requires
        a < amax,
        b < bmax,
    ensures
        a * b < amax * bmax,
        a * b <= (amax - 1) * (bmax - 1),
{
    assert(a * b <= (amax - 1) * (bmax - 1)) by (nonlinear_arith)
        requires a < amax, b < bmax;
    assert(a * b < amax * bmax) by (nonlinear_arith)
        requires a < amax, b < bmax;
}

/// `(high · 2^128 + low) · rhs == (high · rhs + spill + carry) · 2^128 + low_out`
/// for the limb decomposition used by [`Quantity::checked_mul_u64`].
proof fn lemma_mul_u64_parts(
    high: int,
    low: int,
    low_hi: int,
    low_lo: int,
    rhs: int,
    prod_hi: int,
    prod_lo: int,
    spill: int,
    kept: int,
    carry: int,
    low_out: int,
)
    requires
        low == low_hi * 0x1_0000_0000_0000_0000 + low_lo,
        prod_hi == low_hi * rhs,
        prod_lo == low_lo * rhs,
        prod_hi == spill * 0x1_0000_0000_0000_0000 + kept,
        prod_lo + kept * 0x1_0000_0000_0000_0000 == carry * 0x1_0000_0000_0000_0000_0000_0000_0000_0000 + low_out,
    ensures
        (high * 0x1_0000_0000_0000_0000_0000_0000_0000_0000 + low) * rhs
            == (high * rhs + spill + carry) * 0x1_0000_0000_0000_0000_0000_0000_0000_0000 + low_out,
{
    assert((high * 0x1_0000_0000_0000_0000_0000_0000_0000_0000 + low) * rhs
        == (high * rhs + spill + carry) * 0x1_0000_0000_0000_0000_0000_0000_0000_0000 + low_out) by (nonlinear_arith)
        requires
            low == low_hi * 0x1_0000_0000_0000_0000 + low_lo,
            prod_hi == low_hi * rhs,
            prod_lo == low_lo * rhs,
            prod_hi == spill * 0x1_0000_0000_0000_0000 + kept,
            prod_lo + kept * 0x1_0000_0000_0000_0000 == carry * 0x1_0000_0000_0000_0000_0000_0000_0000_0000 + low_out;
}

/// If the high limb `hr + extra` overflows `u128` then the whole value does not
/// fit in 256 bits.
proof fn lemma_mul_ge_pow2_256(high: int, rhs: int, extra: int, low_out: int)
    requires
        high >= 0,
        rhs >= 0,
        extra >= 0,
        low_out >= 0,
        high * rhs + extra > u128::MAX,
    ensures
        (high * rhs + extra) * pow2_128() + low_out >= pow2_256(),
{
    lemma_pow2_256_is_square();
    assert((high * rhs + extra) * pow2_128() + low_out >= pow2_128() * pow2_128()) by (nonlinear_arith)
        requires
            high * rhs + extra >= pow2_128(),
            low_out >= 0;
}


impl From<u64> for Quantity {
    fn from(value: u64) -> (q: Quantity) {
        Quantity { high: 0, low: value as u128 }
    }
}

impl vstd::std_specs::convert::FromSpecImpl<u64> for Quantity {
    open spec fn obeys_from_spec() -> bool {
        true
    }

    open spec fn from_spec(v: u64) -> Quantity {
        Quantity::from_value(v as nat)
    }
}

impl From<u128> for Quantity {
    fn from(value: u128) -> (q: Quantity) {
        Quantity { high: 0, low: value }
    }
}

impl vstd::std_specs::convert::FromSpecImpl<u128> for Quantity {
    open spec fn obeys_from_spec() -> bool {
        true
    }

    open spec fn from_spec(v: u128) -> Quantity {
        Quantity::from_value(v as nat)
    }
}

/// A limit price in quote smallest units per whole base token (scaled).
#[derive(Debug, Clone, Copy, PartialEq, Eq, PartialOrd, Ord, Hash, Structural)]
pub struct Price(u128);

impl View for Price {
    type V = u128;

    closed spec fn view(&self) -> u128 {
        self.0
    }
}

impl Price {
    /// The price denoting `v`.
    pub closed spec fn spec_new(v: u128) -> Price {
        Price(v)
    }

    pub broadcast proof fn lemma_spec_new(v: u128)
        ensures
            #[trigger] Price::spec_new(v)@ == v,
    {
    }

    /// Prices with the same value are the same price.
    pub broadcast proof fn lemma_view_injective(p: Price, q: Price)
        ensures
            #[trigger] p@ == #[trigger] q@ ==> p == q,
    {
    }

    pub fn zero() -> (p: Price)
        ensures
            p@ == 0,
    {
        Price(0)
    }

    pub fn new(value: u128) -> (p: Price)
        ensures
            p@ == value,
    {
        Price(value)
    }

    pub fn get(self) -> (r: u128)
        ensures
            r == self@,
    {
        self.0
    }

    pub fn is_zero(self) -> (r: bool)
        ensures
            r <==> self@ == 0,
    {
        self.0 == 0
    }

    pub fn is_multiple_of(self, tick_size: TickSize) -> (r: bool)
        ensures
            r <==> self@ % tick_size@ == 0,
    {
        self.0 % tick_size.get() == 0
    }

    pub fn checked_sub(self, other: Price) -> (r: Option<Price>)
        ensures
            match r {
                Some(p) => p@ == self@ - other@,
                None => self@ < other@,
            },
    {
        if self.0 >= other.0 {
            Some(Price(self.0 - other.0))
        } else {
            None
        }
    }

    /// Quote amount owed for `quantity` base units at this price:
    /// `price × quantity / base_scale`. `None` only if `price × quantity`
    /// does not fit in 256 bits; when it fits, the division must be exact.
    pub fn checked_mul_quantity_scaled(self, quantity: &Quantity, base_scale: u64) -> (r: Option<Quantity>)
        requires
            base_scale != 0,
            self@ * quantity@ < pow2_256() ==> (self@ * quantity@) % (base_scale as int) == 0,
        ensures
            match r {
                Some(q) => self@ * quantity@ < pow2_256() && q@ == self@ * quantity@ / (base_scale as int),
                None => self@ * quantity@ >= pow2_256(),
            },
    {
        let product = match quantity.checked_mul_u128(self.0) {
            Some(p) => p,
            None => {
                proof {
                    assert(quantity@ * self@ == self@ * quantity@) by (nonlinear_arith);
                }
                return None;
            },
        };
        proof {
            assert(quantity@ * self@ == self@ * quantity@) by (nonlinear_arith);
        }
        let (quote, remainder) = product.checked_div_rem_u64(base_scale).unwrap();
        proof {
            vstd::arithmetic::div_mod::lemma_fundamental_div_mod_converse(
                product@ as int, base_scale as int, quote@ as int, remainder as int);
        }
        Some(quote)
    }
}

impl From<u128> for Price {
    fn from(value: u128) -> (p: Price) {
        Price(value)
    }
}

impl vstd::std_specs::convert::FromSpecImpl<u128> for Price {
    open spec fn obeys_from_spec() -> bool {
        true
    }

    open spec fn from_spec(v: u128) -> Price {
        Price::spec_new(v)
    }
}

/// Minimum price increment for a trading pair (non-zero).
#[derive(Debug, Clone, Copy, PartialEq, Eq, Hash, Structural)]
pub struct TickSize(u128);

impl View for TickSize {
    type V = u128;

    closed spec fn view(&self) -> u128 {
        self.0
    }
}

impl TickSize {
    #[verifier::type_invariant]
    closed spec fn inv(self) -> bool {
        self.0 != 0
    }

    /// A tick size of `value`; `value` must be non-zero.
    pub fn new(value: u128) -> (t: TickSize)
        requires
            value != 0,
        ensures
            t@ == value,
    {
        TickSize(value)
    }

    pub fn get(self) -> (r: u128)
        ensures
            r == self@,
            r != 0,
    {
        proof { use_type_invariant(&self); }
        self.0
    }
}

/// Minimum order quantity for a trading pair (non-zero).
#[derive(Debug, Clone, Copy, PartialEq, Eq, Hash, Structural)]
pub struct LotSize(u64);

impl View for LotSize {
    type V = u64;

    closed spec fn view(&self) -> u64 {
        self.0
    }
}

impl LotSize {
    #[verifier::type_invariant]
    closed spec fn inv(self) -> bool {
        self.0 != 0
    }

    /// A lot size of `value` base units; `value` must be non-zero.
    pub fn new(value: u64) -> (l: LotSize)
        requires
            value != 0,
        ensures
            l@ == value,
    {
        LotSize(value)
    }

    pub fn get(self) -> (r: u64)
        ensures
            r == self@,
            r != 0,
    {
        proof { use_type_invariant(&self); }
        self.0
    }
}

} // verus!
