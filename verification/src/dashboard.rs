//! The figures shown on the status dashboard: decimal renderings of
//! amounts, digit grouping, depth bars, and per-pair summaries.
use vstd::prelude::*;
use crate::book::{levels, OrderBook};
use crate::quantity::{pow2_128, Price, Quantity};
use crate::identity::{principal_bytes, principal_text, principal_to_text};
use crate::text::{dec_digits, digit, digit_char, str_chars, string_from_chars};
use candid::Principal;
pub use crate::text::u128_digits;

verus! {

broadcast use {Quantity::lemma_bound, Quantity::lemma_from_value, Quantity::lemma_view_injective};

/// Number of price levels shown per side.
pub const DEPTH_LEVELS: usize = 20;

/// The characters of `s` other than `_`.
pub open spec fn strip_underscores(s: Seq<char>) -> Seq<char> {
    s.filter(|c: char| c != '_')
}

/// `s` left-padded with `'0'` to at least `width` characters.
pub open spec fn zero_pad(s: Seq<char>, width: nat) -> Seq<char> {
    if s.len() >= width {
        s
    } else {
        Seq::new((width - s.len()) as nat, |i: int| '0') + s
    }
}

/// `s` without its trailing `'0'`s.
pub open spec fn trim_trailing_zeros(s: Seq<char>) -> Seq<char>
    decreases s.len(),
{
    if s.len() > 0 && s.last() == '0' {
        trim_trailing_zeros(s.drop_last())
    } else {
        s
    }
}

/// The decimal rendering of an integer given by its digits `raw` (with any
/// `_` separators) scaled down by `10^decimals`: the integer part, and a
/// `.` and the fractional digits without trailing zeros if any remain.
pub open spec fn scaled_text(raw: Seq<char>, decimals: nat) -> Seq<char> {
    let d = strip_underscores(raw);
    if decimals == 0 {
        d
    } else {
        let padded = zero_pad(d, decimals + 1);
        let split = padded.len() - decimals;
        let frac = trim_trailing_zeros(padded.subrange(split, padded.len() as int));
        if frac.len() == 0 {
            padded.subrange(0, split)
        } else {
            padded.subrange(0, split) + seq!['.'] + frac
        }
    }
}

/// `s` with a `_` before every character, but the first, that has a
/// multiple of three characters from it to the end.
pub open spec fn grouped(s: Seq<char>) -> Seq<char> {
    grouped_prefix(s, s.len())
}

/// The grouping of the first `i` characters of `s`.
pub open spec fn grouped_prefix(s: Seq<char>, i: nat) -> Seq<char>
    decreases i,
{
    if i == 0 || i > s.len() {
        Seq::empty()
    } else {
        let k = (i - 1) as int;
        let pre = grouped_prefix(s, (i - 1) as nat);
        if k != 0 && (s.len() - k) % 3 == 0 {
            pre + seq!['_', s[k]]
        } else {
            pre.push(s[k])
        }
    }
}

proof fn lemma_filter_step(s: Seq<char>, i: int)
    requires
        0 <= i < s.len(),
    ensures
        s.take(i + 1).filter(|c: char| c != '_') == s.take(i).filter(|c: char| c != '_') + if s[i] != '_' {
            seq![s[i]]
        } else {
            Seq::empty()
        },
{
    reveal(Seq::filter);
    assert(s.take(i + 1).drop_last() =~= s.take(i));
    assert(s.take(i + 1).last() == s[i]);
    if s[i] != '_' {
        assert(s.take(i).filter(|c: char| c != '_').push(s[i]) =~= s.take(i).filter(|c: char| c != '_') + seq![s[i]]);
    } else {
        assert(s.take(i).filter(|c: char| c != '_') + Seq::<char>::empty() =~= s.take(i).filter(|c: char| c != '_'));
    }
}

/// The decimal rendering of `raw` scaled down by `10^decimals`; `_`
/// separators in `raw` are ignored.
pub fn format_scaled(raw: &str, decimals: u8) -> (r: String)
    ensures
        r@ == scaled_text(raw@, decimals as nat),
{
    let chars = str_chars(raw);
    let mut d: Vec<char> = Vec::new();
    let mut i: usize = 0;
    proof {
        reveal(Seq::filter);
        assert(chars@.take(0) =~= Seq::<char>::empty());
        assert(chars@.take(0).filter(|c: char| c != '_') =~= Seq::<char>::empty());
    }
    while i < chars.len()
        invariant
            i <= chars@.len(),
            d@ == chars@.take(i as int).filter(|c: char| c != '_'),
            d@.len() <= i,
        decreases chars@.len() - i,
    {
        proof {
            lemma_filter_step(chars@, i as int);
        }
        if chars[i] != '_' {
            d.push(chars[i]);
        }
        i = i + 1;
    }
    proof {
        assert(chars@.take(i as int) =~= raw@);
    }
    if decimals == 0 {
        return string_from_chars(&d);
    }
    let width = decimals as usize + 1;
    let mut padded: Vec<char> = Vec::new();
    if d.len() < width {
        let mut z: usize = 0;
        while z < width - d.len()
            invariant
                d@.len() < width,
                z <= width - d@.len(),
                padded@ == Seq::new(z as nat, |k: int| '0'),
            decreases width - d@.len() - z,
        {
            padded.push('0');
            proof {
                assert(padded@ =~= Seq::new((z + 1) as nat, |k: int| '0'));
            }
            z = z + 1;
        }
    }
    let ghost zeros = padded@;
    let mut j: usize = 0;
    while j < d.len()
        invariant
            j <= d@.len(),
            padded@ == zeros + d@.take(j as int),
        decreases d@.len() - j,
    {
        padded.push(d[j]);
        proof {
            assert(d@.take(j + 1) =~= d@.take(j as int).push(d@[j as int]));
        }
        j = j + 1;
    }
    proof {
        assert(d@.take(j as int) =~= d@);
        assert(padded@ =~= zero_pad(d@, decimals as nat + 1));
    }
    let n = padded.len();
    let split = n - decimals as usize;
    let mut k: usize = n;
    while k > split && padded[k - 1] == '0'
        invariant
            split <= k <= n,
            n == padded@.len(),
            trim_trailing_zeros(padded@.subrange(split as int, n as int)) == trim_trailing_zeros(
                padded@.subrange(split as int, k as int),
            ),
        decreases k,
    {
        proof {
            let t = padded@.subrange(split as int, k as int);
            assert(t.drop_last() =~= padded@.subrange(split as int, k - 1));
        }
        k = k - 1;
    }
    let mut out: Vec<char> = Vec::new();
    let mut a: usize = 0;
    while a < split
        invariant
            a <= split <= n,
            n == padded@.len(),
            out@ == padded@.subrange(0, a as int),
        decreases split - a,
    {
        out.push(padded[a]);
        proof {
            assert(padded@.subrange(0, a + 1) =~= padded@.subrange(0, a as int).push(padded@[a as int]));
        }
        a = a + 1;
    }
    proof {
        let t = padded@.subrange(split as int, k as int);
        if k > split {
            assert(t.last() == padded@[k - 1]);
        }
        assert(trim_trailing_zeros(t) == t);
    }
    if k > split {
        out.push('.');
        let ghost head = out@;
        let mut b: usize = split;
        while b < k
            invariant
                split <= b <= k <= n,
                n == padded@.len(),
                out@ == head + padded@.subrange(split as int, b as int),
            decreases k - b,
        {
            out.push(padded[b]);
            proof {
                assert(padded@.subrange(split as int, b + 1) =~= padded@.subrange(split as int, b as int).push(padded@[b as int]));
            }
            b = b + 1;
        }
    }
    string_from_chars(&out)
}

/// `s` with `_` separating groups of three digits from the right.
pub fn group_digits(s: &str) -> (r: String)
    ensures
        r@ == grouped(s@),
{
    let chars = str_chars(s);
    let n = chars.len();
    let mut out: Vec<char> = Vec::new();
    let mut i: usize = 0;
    while i < n
        invariant
            i <= n,
            n == chars@.len(),
            chars@ == s@,
            out@ == grouped_prefix(s@, i as nat),
        decreases n - i,
    {
        if i != 0 && (n - i) % 3 == 0 {
            out.push('_');
            out.push(chars[i]);
            proof {
                assert(out@ =~= grouped_prefix(s@, i as nat) + seq!['_', s@[i as int]]);
            }
        } else {
            out.push(chars[i]);
        }
        i = i + 1;
    }
    string_from_chars(&out)
}

/// The decimal digits of a quantity.
pub fn quantity_digits(quantity: &Quantity) -> (r: String)
    ensures
        r@ == dec_digits(quantity@),
{
    let ten = Quantity::from_u128(10);
    let mut cur = *quantity;
    let mut acc: Vec<char> = Vec::new();
    while !cur.lt(&ten)
        invariant
            ten@ == 10,
            dec_digits(quantity@) == dec_digits(cur@) + acc@,
        decreases cur@,
    {
        let (q, d) = cur.checked_div_rem_u64(10).unwrap();
        let ghost a0 = acc@;
        acc.insert(0, digit(d));
        proof {
            assert(q@ == cur@ / 10 && d == cur@ % 10) by (nonlinear_arith)
                requires q@ * 10 + d == cur@, d < 10;
            assert(dec_digits(cur@) == dec_digits(q@).push(digit_char(d as nat)));
            assert(acc@ =~= seq![digit_char(d as nat)] + a0);
            assert(dec_digits(q@).push(digit_char(d as nat)) + a0 =~= dec_digits(q@) + acc@);
        }
        cur = q;
    }
    let ghost a0 = acc@;
    proof {
        Quantity::lemma_parts(cur);
        assert(cur.spec_high() == 0);
    }
    let last = cur.low() as u64;
    acc.insert(0, digit(last));
    proof {
        assert(dec_digits(cur@) == seq![digit_char(cur@)]);
        assert(acc@ =~= seq![digit_char(cur@)] + a0);
    }
    string_from_chars(&acc)
}

/// A quantity as a `u128`, capped at `u128::MAX`.
pub open spec fn saturated(q: nat) -> nat {
    if q >= pow2_128() { u128::MAX as nat } else { q }
}

/// A quantity as a `u128`, capped at `u128::MAX`.
pub fn saturating_to_u128(q: &Quantity) -> (r: u128)
    ensures
        r == saturated(q@),
{
    proof {
        Quantity::lemma_parts(*q);
    }
    if q.high() != 0 {
        u128::MAX
    } else {
        q.low()
    }
}

/// The width of a depth bar: `qty` as a percentage of `max`, rounded down
/// and capped at 100 (zero when `max` is zero). Where `100 × qty` does not
/// fit in 128 bits it is computed as `qty / (max / 100)`.
pub open spec fn bar_width(qty: nat, max: nat) -> nat {
    if max == 0 {
        0
    } else {
        let p = if qty * 100 <= u128::MAX { qty * 100 / max } else { qty / (max / 100) };
        if p > 100 { 100 } else { p }
    }
}

pub fn bar_width_percent(qty: u128, max: u128) -> (r: u8)
    requires
        max != 0 && qty * 100 > u128::MAX ==> max >= 100,
    ensures
        r == bar_width(qty as nat, max as nat),
{
    if max == 0 {
        return 0;
    }
    let percent = match qty.checked_mul(100) {
        Some(scaled) => scaled / max,
        None => qty / (max / 100),
    };
    if percent > 100 {
        100
    } else {
        percent as u8
    }
}

/// An amount shown two ways: scaled to whole tokens, and as grouped raw digits.
#[derive(Debug, Clone, PartialEq, Eq)]
pub struct Amount {
    pub value: String,
    pub raw: String,
}

impl Amount {
    /// The amount whose smallest-unit digits are `raw`, for a token with `decimals`.
    pub fn new(raw: String, decimals: u8) -> (a: Amount)
        ensures
            a.value@ == scaled_text(raw@, decimals as nat),
            a.raw@ == grouped(raw@),
    {
        Amount { value: format_scaled(raw.as_str(), decimals), raw: group_digits(raw.as_str()) }
    }
}

/// Whether `a` shows the smallest-unit amount `n` of a token with `decimals`.
pub open spec fn shows(a: Amount, n: nat, decimals: nat) -> bool {
    a.value@ == scaled_text(dec_digits(n), decimals) && a.raw@ == grouped(dec_digits(n))
}

/// Decimals of a pair's base and quote tokens.
#[derive(Debug, Clone, Copy, PartialEq, Eq, Structural)]
pub struct PairDecimals {
    pub base: u8,
    pub quote: u8,
}

/// A price level as shown: price in quote, quantity in base.
#[derive(Debug, Clone, PartialEq, Eq)]
pub struct DashboardLevel {
    pub price: Amount,
    pub quantity: Amount,
}

/// A depth-chart row: a level and the width of its bar.
#[derive(Debug, Clone, PartialEq, Eq)]
pub struct DashboardDepthLevel {
    pub price: Amount,
    pub quantity: Amount,
    pub bar_width_percent: u8,
}

/// Both sides of the depth chart, best level first.
#[derive(Debug, Clone, PartialEq, Eq)]
pub struct DashboardDepth {
    pub bids: Vec<DashboardDepthLevel>,
    pub asks: Vec<DashboardDepthLevel>,
}

impl DashboardDepth {
    pub fn is_empty(&self) -> (r: bool)
        ensures
            r <==> self.bids@.len() == 0 && self.asks@.len() == 0,
    {
        self.bids.len() == 0 && self.asks.len() == 0
    }
}

/// A price level as shown.
pub fn level(l: (Price, Quantity), decimals: &PairDecimals) -> (r: DashboardLevel)
    ensures
        shows(r.price, l.0@ as nat, decimals.quote as nat),
        shows(r.quantity, l.1@, decimals.base as nat),
{
    DashboardLevel {
        price: Amount::new(u128_digits(l.0.get()), decimals.quote),
        quantity: Amount::new(quantity_digits(&l.1), decimals.base),
    }
}

/// The largest quantity of the levels, each capped at `u128::MAX` (zero if none).
pub open spec fn max_saturated(levels: Seq<(Price, Quantity)>) -> nat
    decreases levels.len(),
{
    if levels.len() == 0 {
        0
    } else {
        let m = max_saturated(levels.drop_last());
        let q = saturated(levels.last().1@);
        if q > m { q } else { m }
    }
}

proof fn lemma_max_saturated_bounds(levels: Seq<(Price, Quantity)>)
    ensures
        max_saturated(levels) <= u128::MAX,
        forall|k: int| 0 <= k < levels.len() ==> saturated((#[trigger] levels[k]).1@) <= max_saturated(levels),
    decreases levels.len(),
{
    if levels.len() > 0 {
        lemma_max_saturated_bounds(levels.drop_last());
        assert forall|k: int| 0 <= k < levels.len() implies saturated((#[trigger] levels[k]).1@) <= max_saturated(levels) by {
            if k < levels.len() - 1 {
                assert(levels[k] == levels.drop_last()[k]);
            }
        }
    }
}

fn max_quantity(levels: &[(Price, Quantity)], start: u128) -> (r: u128)
    ensures
        r == if (start as nat) > max_saturated(levels@) { start as nat } else { max_saturated(levels@) },
{
    let mut m = start;
    let mut i: usize = 0;
    proof {
        assert(levels@.take(0) =~= Seq::<(Price, Quantity)>::empty());
    }
    while i < levels.len()
        invariant
            i <= levels@.len(),
            m == if (start as nat) > max_saturated(levels@.take(i as int)) { start as nat } else { max_saturated(levels@.take(i as int)) },
        decreases levels@.len() - i,
    {
        let q = saturating_to_u128(&levels[i].1);
        proof {
            assert(levels@.take(i + 1).drop_last() =~= levels@.take(i as int));
            assert(levels@.take(i + 1).last() == levels@[i as int]);
        }
        if q > m {
            m = q;
        }
        i = i + 1;
    }
    proof {
        assert(levels@.take(i as int) =~= levels@);
    }
    m
}

/// Whether `row` shows level `l` with its bar against `max`.
pub open spec fn depth_row(row: DashboardDepthLevel, l: (Price, Quantity), max: nat, decimals: PairDecimals) -> bool {
    &&& shows(row.price, l.0@ as nat, decimals.quote as nat)
    &&& shows(row.quantity, l.1@, decimals.base as nat)
    &&& row.bar_width_percent == bar_width(saturated(l.1@), max)
}

/// The depth rows of `levels`, each bar against `max`.
pub fn depth_levels(levels: &[(Price, Quantity)], max: u128, decimals: &PairDecimals) -> (r: Vec<DashboardDepthLevel>)
    requires
        forall|k: int| 0 <= k < levels@.len() ==> saturated((#[trigger] levels@[k]).1@) <= max,
    ensures
        r@.len() == levels@.len(),
        forall|k: int| 0 <= k < r@.len() ==> depth_row(#[trigger] r@[k], levels@[k], max as nat, *decimals),
{
    let mut out: Vec<DashboardDepthLevel> = Vec::new();
    let mut i: usize = 0;
    while i < levels.len()
        invariant
            i <= levels@.len(),
            out@.len() == i,
            forall|k: int| 0 <= k < levels@.len() ==> saturated((#[trigger] levels@[k]).1@) <= max,
            forall|k: int| 0 <= k < i ==> depth_row(#[trigger] out@[k], levels@[k], max as nat, *decimals),
        decreases levels@.len() - i,
    {
        let (price, qty) = levels[i];
        let sq = saturating_to_u128(&qty);
        proof {
            assert(saturated(levels@[i as int].1@) <= max);
        }
        let row = DashboardDepthLevel {
            price: Amount::new(u128_digits(price.get()), decimals.quote),
            quantity: Amount::new(quantity_digits(&qty), decimals.base),
            bar_width_percent: bar_width_percent(sq, max),
        };
        out.push(row);
        i = i + 1;
    }
    out
}

/// Both sides of the depth chart, every bar against the largest quantity shown.
pub fn build_depth(bids: &[(Price, Quantity)], asks: &[(Price, Quantity)], decimals: &PairDecimals) -> (r: DashboardDepth)
    ensures
        ({
            let max = if max_saturated(bids@) > max_saturated(asks@) { max_saturated(bids@) } else { max_saturated(asks@) };
            &&& r.bids@.len() == bids@.len()
            &&& r.asks@.len() == asks@.len()
            &&& forall|k: int| 0 <= k < r.bids@.len() ==> depth_row(#[trigger] r.bids@[k], bids@[k], max, *decimals)
            &&& forall|k: int| 0 <= k < r.asks@.len() ==> depth_row(#[trigger] r.asks@[k], asks@[k], max, *decimals)
        }),
{
    let mb = max_quantity(bids, 0);
    let max = max_quantity(asks, mb);
    proof {
        lemma_max_saturated_bounds(bids@);
        lemma_max_saturated_bounds(asks@);
    }
    DashboardDepth { bids: depth_levels(bids, max, decimals), asks: depth_levels(asks, max, decimals) }
}

/// What the dashboard shows of one trading pair.
#[derive(Debug, Clone, PartialEq, Eq)]
pub struct DashboardPair {
    pub book_id: u64,
    pub base_symbol: String,
    pub quote_symbol: String,
    pub tick_size: Amount,
    pub lot_size: Amount,
    pub maker_fee_bps: u16,
    pub taker_fee_bps: u16,
    pub bids_len: usize,
    pub asks_len: usize,
    pub pending_orders_len: usize,
    pub resting_orders_len: usize,
    pub best_bid: Option<DashboardLevel>,
    pub best_ask: Option<DashboardLevel>,
    pub spread: Option<Amount>,
    pub depth: DashboardDepth,
}

/// The first `n` levels of a side, as `(price, quantity)` pairs.
pub open spec fn shown_levels(side: Seq<crate::book::BookEntry>, n: nat) -> Seq<(Price, nat)> {
    let l = levels(side);
    if l.len() < n { l } else { l.take(n as int) }
}

/// Summarize a book for the dashboard: its configuration, sizes, best
/// levels and spread, and up to [`DEPTH_LEVELS`] levels of depth per side.
pub fn build_pair(
    book_id: u64,
    base_symbol: String,
    quote_symbol: String,
    decimals: PairDecimals,
    book: &OrderBook,
) -> (r: DashboardPair)
    requires
        book.spec_bids().len() + book.spec_asks().len() <= usize::MAX,
    ensures
        r.book_id == book_id,
        r.base_symbol == base_symbol,
        r.quote_symbol == quote_symbol,
        shows(r.tick_size, book.spec_tick_size()@ as nat, decimals.quote as nat),
        shows(r.lot_size, book.spec_lot_size()@ as nat, decimals.base as nat),
        r.maker_fee_bps == book.spec_fee_rates().maker@,
        r.taker_fee_bps == book.spec_fee_rates().taker@,
        r.bids_len == levels(book.spec_bids()).len(),
        r.asks_len == levels(book.spec_asks()).len(),
        r.pending_orders_len == book.spec_pending().len(),
        r.resting_orders_len == book.spec_bids().len() + book.spec_asks().len(),
        ({
            let bl = levels(book.spec_bids());
            let al = levels(book.spec_asks());
            &&& (bl.len() == 0 <==> r.best_bid is None)
            &&& (al.len() == 0 <==> r.best_ask is None)
            &&& r.best_bid matches Some(b) ==> shows(b.price, bl[0].0@ as nat, decimals.quote as nat) && shows(b.quantity, bl[0].1, decimals.base as nat)
            &&& r.best_ask matches Some(a) ==> shows(a.price, al[0].0@ as nat, decimals.quote as nat) && shows(a.quantity, al[0].1, decimals.base as nat)
            &&& (bl.len() > 0 && al.len() > 0 && al[0].0@ >= bl[0].0@) <==> r.spread is Some
            &&& r.spread matches Some(sp) ==> shows(sp, (al[0].0@ - bl[0].0@) as nat, decimals.quote as nat)
            &&& r.depth.bids@.len() == shown_levels(book.spec_bids(), DEPTH_LEVELS as nat).len()
            &&& r.depth.asks@.len() == shown_levels(book.spec_asks(), DEPTH_LEVELS as nat).len()
        }),
{
    let bids = book.bid_levels(DEPTH_LEVELS);
    let asks = book.ask_levels(DEPTH_LEVELS);
    let best_bid = if bids.len() > 0 { Some(level(bids[0], &decimals)) } else { None };
    let best_ask = if asks.len() > 0 { Some(level(asks[0], &decimals)) } else { None };
    let spread = if bids.len() > 0 && asks.len() > 0 {
        match asks[0].0.checked_sub(bids[0].0) {
            Some(s) => Some(Amount::new(u128_digits(s.get()), decimals.quote)),
            None => None,
        }
    } else {
        None
    };
    let fee_rates = book.fee_rates();
    let depth = build_depth(bids.as_slice(), asks.as_slice(), &decimals);
    DashboardPair {
        book_id,
        base_symbol,
        quote_symbol,
        tick_size: Amount::new(u128_digits(book.tick_size().get()), decimals.quote),
        lot_size: Amount::new(u128_digits(book.lot_size().get() as u128), decimals.base),
        maker_fee_bps: fee_rates.maker.get(),
        taker_fee_bps: fee_rates.taker.get(),
        bids_len: book.bids_len(),
        asks_len: book.asks_len(),
        pending_orders_len: book.pending_orders_len(),
        resting_orders_len: book.resting_orders_len(),
        best_bid,
        best_ask,
        spread,
        depth,
    }
}

/// Who may use the exchange: everyone, or only the listed principals.
#[derive(Debug, Clone, PartialEq, Eq)]
pub enum Mode {
    GeneralAvailability,
    RestrictedTo(Vec<Principal>),
}

/// The texts of `ps`, separated by `", "`.
pub open spec fn joined_texts(ps: Seq<Principal>) -> Seq<char>
    decreases ps.len(),
{
    if ps.len() == 0 {
        Seq::empty()
    } else if ps.len() == 1 {
        principal_text(principal_bytes(ps[0]))
    } else {
        joined_texts(ps.drop_last()) + ", "@ + principal_text(principal_bytes(ps.last()))
    }
}

/// How the dashboard shows a mode.
pub open spec fn mode_text(mode: Mode) -> Seq<char> {
    match mode {
        Mode::GeneralAvailability => "GeneralAvailability"@,
        Mode::RestrictedTo(ps) => if ps@.len() == 0 {
            "RestrictedTo: (none)"@
        } else {
            "RestrictedTo: "@ + joined_texts(ps@)
        },
    }
}

/// The mode as the dashboard shows it: `GeneralAvailability`, or
/// `RestrictedTo: ` and the allowed principals separated by commas.
pub fn format_mode(mode: &Mode) -> (r: String)
    ensures
        r@ == mode_text(*mode),
{
    match mode {
        Mode::GeneralAvailability => {
            proof {
                reveal_strlit("GeneralAvailability");
            }
            String::from_str("GeneralAvailability")
        },
        Mode::RestrictedTo(ps) => {
            if ps.len() == 0 {
                proof {
                    reveal_strlit("RestrictedTo: (none)");
                }
                return String::from_str("RestrictedTo: (none)");
            }
            let mut chars = str_chars("RestrictedTo: ");
            let ghost head = chars@;
            let mut i: usize = 0;
            while i < ps.len()
                invariant
                    i <= ps@.len(),
                    ps@.len() > 0,
                    chars@ == head + joined_texts(ps@.take(i as int)),
                decreases ps@.len() - i,
            {
                if i > 0 {
                    chars.push(',');
                    chars.push(' ');
                }
                let text = principal_to_text(&ps[i]);
                let mut more = str_chars(text.as_str());
                chars.append(&mut more);
                proof {
                    reveal_strlit(", ");
                    let t = ps@.take(i + 1);
                    assert(t.drop_last() =~= ps@.take(i as int));
                    assert(t.last() == ps@[i as int]);
                    if i == 0 {
                        assert(joined_texts(ps@.take(0)) =~= Seq::<char>::empty());
                    }
                }
                i = i + 1;
            }
            proof {
                reveal_strlit("RestrictedTo: ");
                assert(ps@.take(ps@.len() as int) =~= ps@);
            }
            string_from_chars(&chars)
        },
    }
}

} // verus!
