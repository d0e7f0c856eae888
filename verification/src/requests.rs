//! Checks on requests that reach the exchange: the parameters of a new
//! trading pair, the exact-settlement condition on its tick and lot, and the
//! depth a book query may ask for.
use vstd::prelude::*;
use crate::fees::{BasisPoint, FeeRates};
use crate::ids::OrderIdParseError;
use crate::bytes::be_value;
use crate::quantity::{pow2_256, LotSize, Quantity, TickSize};

verus! {

broadcast use {Quantity::lemma_bound, Quantity::lemma_from_value};

/// Why a trading pair could not be added. A refused notional names the
/// request's minimum and maximum notional as they came, as minimal
/// big-endian bytes.
#[derive(Debug, Clone, PartialEq, Eq)]
pub enum AddTradingPairError {
    NotController,
    BaseEqualsQuote,
    InvalidTickSize,
    InvalidLotSize,
    InvalidBasisPoint(u16),
    InvalidNotional { min_notional: Vec<u8>, max_notional: Option<Vec<u8>> },
    TradingPairAlreadyExists,
    BaseDecimalsTooLarge { decimals: u8 },
    IndivisibleTickLotForBaseDecimals { tick_size: u128, lot_size: u64, base_decimals: u8 },
}

/// The validated parameters of a new trading pair.
#[derive(Debug, Clone, Copy, PartialEq, Eq, Structural)]
pub struct PairRequest {
    pub tick_size: TickSize,
    pub lot_size: LotSize,
    pub fee_rates: FeeRates,
    pub min_notional: Quantity,
    pub max_notional: Option<Quantity>,
}

/// The error a pair request gets before its notional is looked at, checked
/// in this order: the same token on both sides, a tick size that is zero or
/// does not fit 128 bits, a lot size that is zero or does not fit 64 bits,
/// then a fee rate above 10 000 basis points (maker first).
pub open spec fn pair_request_error(
    same_token: bool,
    tick_size: Option<u128>,
    lot_size: Option<u64>,
    maker_fee_bps: u16,
    taker_fee_bps: u16,
) -> Option<AddTradingPairError> {
    if same_token {
        Some(AddTradingPairError::BaseEqualsQuote)
    } else if tick_size is None || tick_size == Some(0u128) {
        Some(AddTradingPairError::InvalidTickSize)
    } else if lot_size is None || lot_size == Some(0u64) {
        Some(AddTradingPairError::InvalidLotSize)
    } else if maker_fee_bps > 10_000 {
        Some(AddTradingPairError::InvalidBasisPoint(maker_fee_bps))
    } else if taker_fee_bps > 10_000 {
        Some(AddTradingPairError::InvalidBasisPoint(taker_fee_bps))
    } else {
        None
    }
}

/// The notional bounds of a request, as minimal big-endian bytes, are
/// refused: the minimum does not fit 256 bits or is zero, or the maximum
/// does not fit or is below the minimum.
pub open spec fn notional_invalid(min_notional: Seq<u8>, max_notional: Option<Seq<u8>>) -> bool {
    ||| min_notional.len() > 32
    ||| be_value(min_notional) == 0
    ||| (max_notional matches Some(m) && (m.len() > 32 || be_value(m) < be_value(min_notional)))
}

/// The bytes of an optional byte string.
pub open spec fn opt_bytes(b: Option<Vec<u8>>) -> Option<Seq<u8>> {
    match b {
        Some(v) => Some(v@),
        None => None,
    }
}

/// Check the parameters of a new trading pair: the tick and lot sizes as
/// parsed by the caller (`None` where the number did not fit its type), the
/// fee rates, and the minimum and optional maximum notional as minimal
/// big-endian bytes.
pub fn validate_pair_request(
    same_token: bool,
    tick_size: Option<u128>,
    lot_size: Option<u64>,
    maker_fee_bps: u16,
    taker_fee_bps: u16,
    min_notional: Vec<u8>,
    max_notional: Option<Vec<u8>>,
) -> (r: Result<PairRequest, AddTradingPairError>)
    ensures
        match pair_request_error(same_token, tick_size, lot_size, maker_fee_bps, taker_fee_bps) {
            Some(e) => r == Err::<PairRequest, AddTradingPairError>(e),
            None => if notional_invalid(min_notional@, opt_bytes(max_notional)) {
                r matches Err(AddTradingPairError::InvalidNotional { min_notional: a, max_notional: b })
                    && a@ == min_notional@ && opt_bytes(b) == opt_bytes(max_notional)
            } else {
                r matches Ok(p) && {
                    &&& p.tick_size@ == tick_size.unwrap()
                    &&& p.lot_size@ == lot_size.unwrap()
                    &&& p.fee_rates.maker@ == maker_fee_bps
                    &&& p.fee_rates.taker@ == taker_fee_bps
                    &&& p.min_notional@ == be_value(min_notional@)
                    &&& match max_notional {
                        Some(m) => p.max_notional matches Some(q) && q@ == be_value(m@),
                        None => p.max_notional is None,
                    }
                }
            },
        },
{
    if same_token {
        return Err(AddTradingPairError::BaseEqualsQuote);
    }
    let tick = match tick_size {
        Some(t) if t != 0 => TickSize::new(t),
        _ => {
            return Err(AddTradingPairError::InvalidTickSize);
        },
    };
    let lot = match lot_size {
        Some(l) if l != 0 => LotSize::new(l),
        _ => {
            return Err(AddTradingPairError::InvalidLotSize);
        },
    };
    let maker = match BasisPoint::new(maker_fee_bps) {
        Ok(b) => b,
        Err(_) => {
            return Err(AddTradingPairError::InvalidBasisPoint(maker_fee_bps));
        },
    };
    let taker = match BasisPoint::new(taker_fee_bps) {
        Ok(b) => b,
        Err(_) => {
            return Err(AddTradingPairError::InvalidBasisPoint(taker_fee_bps));
        },
    };
    let min = match Quantity::from_be_bytes(min_notional.as_slice()) {
        Some(m) if !m.is_zero() => m,
        _ => {
            return Err(AddTradingPairError::InvalidNotional { min_notional, max_notional });
        },
    };
    let max = match &max_notional {
        None => None,
        Some(bytes) => match Quantity::from_be_bytes(bytes.as_slice()) {
            Some(m) => {
                if m.lt(&min) {
                    return Err(AddTradingPairError::InvalidNotional { min_notional, max_notional });
                }
                Some(m)
            },
            None => {
                return Err(AddTradingPairError::InvalidNotional { min_notional, max_notional });
            },
        },
    };
    Ok(PairRequest { tick_size: tick, lot_size: lot, fee_rates: FeeRates { maker, taker }, min_notional: min, max_notional: max })
}

/// `10^n`.
pub open spec fn pow10(n: nat) -> nat
    decreases n,
{
    if n == 0 { 1 } else { 10 * pow10((n - 1) as nat) }
}

proof fn lemma_pow10_monotone(a: nat, b: nat)
    requires
        a <= b,
    ensures
        pow10(a) <= pow10(b),
    decreases b,
{
    if a < b {
        lemma_pow10_monotone(a, (b - 1) as nat);
    }
}

/// `10^n` where it fits 64 bits, that is for `n <= 19`.
fn checked_pow10(n: u8) -> (r: Option<u64>)
    ensures
        match r {
            Some(v) => v == pow10(n as nat) && n <= 19,
            None => n > 19,
        },
{
    if n > 19 {
        proof {
            reveal_with_fuel(pow10, 21);
            assert(pow10(20) == 100_000_000_000_000_000_000nat);
            lemma_pow10_monotone(20, n as nat);
        }
        return None;
    }
    let mut v: u64 = 1;
    let mut i: u8 = 0;
    proof {
        reveal_with_fuel(pow10, 20);
        assert(pow10(19) == 10_000_000_000_000_000_000nat);
    }
    while i < n
        invariant
            i <= n <= 19,
            v == pow10(i as nat),
            pow10(19) == 10_000_000_000_000_000_000nat,
        decreases n - i,
    {
        proof {
            lemma_pow10_monotone((i + 1) as nat, 19);
        }
        v = v * 10;
        i = i + 1;
    }
    Some(v)
}

/// The scale of the base token, `10^base_decimals`, after checking that it
/// fits 64 bits and that `tick_size × lot_size` is a multiple of it, so
/// that every fill settles to an exact quote amount.
pub fn base_scale_for(tick_size: TickSize, lot_size: LotSize, base_decimals: u8) -> (r: Result<u64, AddTradingPairError>)
    ensures
        base_decimals > 19 ==> r == Err::<u64, AddTradingPairError>(
            AddTradingPairError::BaseDecimalsTooLarge { decimals: base_decimals },
        ),
        base_decimals <= 19 && (tick_size@ as nat * lot_size@ as nat) % pow10(base_decimals as nat) != 0 ==> r == Err::<u64, AddTradingPairError>(
            AddTradingPairError::IndivisibleTickLotForBaseDecimals {
                tick_size: tick_size@,
                lot_size: lot_size@,
                base_decimals,
            },
        ),
        base_decimals <= 19 && (tick_size@ as nat * lot_size@ as nat) % pow10(base_decimals as nat) == 0 ==> r == Ok::<u64, AddTradingPairError>(
            pow10(base_decimals as nat) as u64,
        ),
{
    let base_scale = match checked_pow10(base_decimals) {
        Some(s) => s,
        None => {
            return Err(AddTradingPairError::BaseDecimalsTooLarge { decimals: base_decimals });
        },
    };
    proof {
        assert(tick_size@ * lot_size@ < pow2_256()) by (nonlinear_arith)
            requires
                tick_size@ < 0x1_0000_0000_0000_0000_0000_0000_0000_0000nat,
                lot_size@ < 0x1_0000_0000_0000_0000nat,
                pow2_256() == 0x1_0000_0000_0000_0000_0000_0000_0000_0000_0000_0000_0000_0000_0000_0000_0000_0000nat;
    }
    let tick_lot = Quantity::from_u128(tick_size.get()).checked_mul_u64(lot_size.get()).unwrap();
    proof {
        lemma_pow10_monotone(0, base_decimals as nat);
    }
    let (quotient, remainder) = tick_lot.checked_div_rem_u64(base_scale).unwrap();
    proof {
        assert(tick_lot@ == quotient@ * base_scale + remainder);
        vstd::arithmetic::div_mod::lemma_fundamental_div_mod_converse(
            tick_lot@ as int, base_scale as int, quotient@ as int, remainder as int);
        assert(tick_lot@ == tick_size@ as nat * lot_size@ as nat);
    }
    if remainder != 0 {
        return Err(AddTradingPairError::IndivisibleTickLotForBaseDecimals {
            tick_size: tick_size.get(),
            lot_size: lot_size.get(),
            base_decimals,
        });
    }
    Ok(base_scale)
}

/// Settlement is exact on a pair that passed the check: when `tick × lot`
/// is a multiple of the base scale, so is `price × quantity` for every price
/// on the tick and every quantity on the lot.
pub proof fn lemma_exact_settlement(tick: nat, lot: nat, scale: nat, price: nat, quantity: nat)
    requires
        scale > 0,
        tick > 0,
        lot > 0,
        (tick * lot) % scale == 0,
        price % tick == 0,
        quantity % lot == 0,
    ensures
        (price * quantity) % scale == 0,
{
    let a = price / tick;
    let b = quantity / lot;
    let c = (tick * lot) / scale;
    assert(price == a * tick) by (nonlinear_arith)
        requires price % tick == 0, tick > 0, a == price / tick;
    assert(quantity == b * lot) by (nonlinear_arith)
        requires quantity % lot == 0, lot > 0, b == quantity / lot;
    assert(tick * lot == c * scale) by (nonlinear_arith)
        requires (tick * lot) % scale == 0, scale > 0, c == (tick * lot) / scale;
    assert(price * quantity == (a * b * c) * scale) by (nonlinear_arith)
        requires price == a * tick, quantity == b * lot, tick * lot == c * scale;
    vstd::arithmetic::div_mod::lemma_mod_multiples_basic((a * b * c) as int, scale as int);
}

/// A depth query asked for more levels than allowed.
#[derive(Debug, Clone, Copy, PartialEq, Eq, Structural)]
pub struct DepthLimitTooLarge {
    pub requested: u32,
    pub max: u32,
}

/// The number of levels a depth query gets: `default` when it names none,
/// what it asks for up to `max`, and an error above that.
pub fn depth_limit(requested: Option<u32>, default: u32, max: u32) -> (r: Result<u32, DepthLimitTooLarge>)
    ensures
        match requested {
            None => r == Ok::<u32, DepthLimitTooLarge>(default),
            Some(n) => if n <= max {
                r == Ok::<u32, DepthLimitTooLarge>(n)
            } else {
                r == Err::<u32, DepthLimitTooLarge>(DepthLimitTooLarge { requested: n, max })
            },
        },
{
    match requested {
        None => Ok(default),
        Some(n) => if n <= max {
            Ok(n)
        } else {
            Err(DepthLimitTooLarge { requested: n, max })
        },
    }
}

/// Why a request for a user's orders could not be served.
#[derive(Debug, PartialEq, Eq, Structural)]
pub enum GetMyOrdersError {
    /// An order id in the filter was not a well-formed order id.
    InvalidOrderId(OrderIdParseError),
    /// A well-formed order id is unknown or not owned by the caller.
    OrderNotFound,
}

/// A balance filter named more tokens than allowed.
#[derive(Debug, Clone, Copy, PartialEq, Eq, Structural)]
pub struct FilterTooLarge {
    pub len: u32,
    pub max: u32,
}

/// Check the length of an optional token filter against `max`. The length
/// is taken as a `u32`, that is modulo 2^32.
pub fn validate_filter_len(len: Option<usize>, max: u32) -> (r: Result<(), FilterTooLarge>)
    ensures
        match len {
            None => r is Ok,
            Some(n) => {
                let m = (n as nat % 0x1_0000_0000) as u32;
                if m > max {
                    r == Err::<(), FilterTooLarge>(FilterTooLarge { len: m, max })
                } else {
                    r is Ok
                }
            },
        },
{
    match len {
        None => Ok(()),
        Some(n) => {
            let m = ((n as u64) % 0x1_0000_0000u64) as u32;
            if m > max {
                Err(FilterTooLarge { len: m, max })
            } else {
                Ok(())
            }
        },
    }
}

/// The most events one page of the event log holds.
pub const MAX_EVENTS_PER_RESPONSE: u64 = 2_000;

/// The page of an event log of `total` events that starts at `start` and
/// asks for `length` events: the index of its first event and how many it
/// holds, at most [`MAX_EVENTS_PER_RESPONSE`] and never past the end.
pub fn events_page(start: u64, length: u64, total: u64) -> (r: (u64, u64))
    ensures
        r.0 == if start < total { start } else { total },
        r.1 == ({
            let wanted = if length < MAX_EVENTS_PER_RESPONSE { length } else { MAX_EVENTS_PER_RESPONSE };
            if wanted < total - r.0 { wanted as int } else { total - r.0 }
        }),
{
    let first = if start < total { start } else { total };
    let wanted = if length < MAX_EVENTS_PER_RESPONSE { length } else { MAX_EVENTS_PER_RESPONSE };
    let left = total - first;
    (first, if wanted < left { wanted } else { left })
}

} // verus!
