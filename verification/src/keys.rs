//! Fixed byte layouts for storing a book in an ordered key-value store:
//! side keys ordered by priority, compact quantities, and side-price pairs.
use vstd::prelude::*;
use crate::bytes::{be_to_u128, be_value, lemma_pow256_values, u128_to_be};
use crate::order::Side;
use crate::quantity::{Price, Quantity};

verus! {

broadcast use {Quantity::lemma_view_injective, Quantity::lemma_bound, Price::lemma_view_injective};

/// The bytes `start..end` of `bytes`.
fn byte_range(bytes: &[u8], start: usize, end: usize) -> (r: Vec<u8>)
    requires
        start <= end <= bytes@.len(),
    ensures
        r@ == bytes@.subrange(start as int, end as int),
{
    let mut out: Vec<u8> = Vec::new();
    let mut i: usize = start;
    while i < end
        invariant
            start <= i <= end <= bytes@.len(),
            out@ == bytes@.subrange(start as int, i as int),
        decreases end - i,
    {
        out.push(bytes[i]);
        proof {
            assert(bytes@.subrange(start as int, i + 1) =~= bytes@.subrange(start as int, i as int).push(bytes@[i as int]));
        }
        i = i + 1;
    }
    out
}

/// `a` followed by `b`.
fn concat_bytes(a: Vec<u8>, b: Vec<u8>) -> (r: Vec<u8>)
    ensures
        r@ == a@ + b@,
{
    let mut out = a;
    let mut tail = b;
    out.append(&mut tail);
    out
}

/// Two values read back from a 16-byte key: the first and the last 8 bytes, big-endian.
pub open spec fn pair_decode(bytes: Seq<u8>) -> (nat, nat) {
    (be_value(bytes.subrange(0, 8)), be_value(bytes.subrange(8, 16)))
}

/// The 16-byte layout `[price: 8][seq: 8]`, both big-endian.
fn encode_pair(price: u64, seq: u64) -> (r: Vec<u8>)
    ensures
        r@.len() == 16,
        pair_decode(r@) == (price as nat, seq as nat),
{
    proof {
        lemma_pow256_values();
    }
    let p = u128_to_be(price as u128, 8);
    let s = u128_to_be(seq as u128, 8);
    let r = concat_bytes(p, s);
    proof {
        assert(r@.subrange(0, 8) =~= p@);
        assert(r@.subrange(8, 16) =~= s@);
    }
    r
}

fn decode_pair(bytes: &[u8]) -> (r: (u64, u64))
    requires
        bytes@.len() == 16,
    ensures
        (r.0 as nat, r.1 as nat) == pair_decode(bytes@),
{
    proof {
        lemma_pow256_values();
        crate::bytes::lemma_be_value_bound(bytes@.subrange(0, 8));
        crate::bytes::lemma_be_value_bound(bytes@.subrange(8, 16));
    }
    let a = be_to_u128(byte_range(bytes, 0, 8).as_slice());
    let b = be_to_u128(byte_range(bytes, 8, 16).as_slice());
    (a as u64, b as u64)
}

/// Key of a resting bid: orders by price descending, then by sequence
/// ascending (FIFO within a price).
#[derive(Clone, Copy, Debug, PartialEq, Eq, Structural)]
pub struct BidKey {
    pub price: u64,
    pub seq: u64,
}

/// Key of a resting ask: orders by price ascending, then by sequence
/// ascending (FIFO within a price).
#[derive(Clone, Copy, Debug, PartialEq, Eq, Structural)]
pub struct AskKey {
    pub price: u64,
    pub seq: u64,
}

/// Bids: higher price first, then lower sequence first.
pub open spec fn bid_order(a: BidKey, b: BidKey) -> core::cmp::Ordering {
    if a.price > b.price {
        core::cmp::Ordering::Less
    } else if a.price < b.price {
        core::cmp::Ordering::Greater
    } else if a.seq < b.seq {
        core::cmp::Ordering::Less
    } else if a.seq > b.seq {
        core::cmp::Ordering::Greater
    } else {
        core::cmp::Ordering::Equal
    }
}

/// Asks: lower price first, then lower sequence first.
pub open spec fn ask_order(a: AskKey, b: AskKey) -> core::cmp::Ordering {
    if a.price < b.price {
        core::cmp::Ordering::Less
    } else if a.price > b.price {
        core::cmp::Ordering::Greater
    } else if a.seq < b.seq {
        core::cmp::Ordering::Less
    } else if a.seq > b.seq {
        core::cmp::Ordering::Greater
    } else {
        core::cmp::Ordering::Equal
    }
}

impl PartialOrd for BidKey {
    fn partial_cmp(&self, other: &Self) -> (r: Option<core::cmp::Ordering>) {
        if self.price > other.price {
            Some(core::cmp::Ordering::Less)
        } else if self.price < other.price {
            Some(core::cmp::Ordering::Greater)
        } else if self.seq < other.seq {
            Some(core::cmp::Ordering::Less)
        } else if self.seq > other.seq {
            Some(core::cmp::Ordering::Greater)
        } else {
            Some(core::cmp::Ordering::Equal)
        }
    }
}

impl vstd::std_specs::cmp::PartialOrdSpecImpl for BidKey {
    open spec fn obeys_partial_cmp_spec() -> bool {
        true
    }

    open spec fn partial_cmp_spec(&self, other: &Self) -> Option<core::cmp::Ordering> {
        Some(bid_order(*self, *other))
    }
}

impl PartialOrd for AskKey {
    fn partial_cmp(&self, other: &Self) -> (r: Option<core::cmp::Ordering>) {
        if self.price < other.price {
            Some(core::cmp::Ordering::Less)
        } else if self.price > other.price {
            Some(core::cmp::Ordering::Greater)
        } else if self.seq < other.seq {
            Some(core::cmp::Ordering::Less)
        } else if self.seq > other.seq {
            Some(core::cmp::Ordering::Greater)
        } else {
            Some(core::cmp::Ordering::Equal)
        }
    }
}

impl vstd::std_specs::cmp::PartialOrdSpecImpl for AskKey {
    open spec fn obeys_partial_cmp_spec() -> bool {
        true
    }

    open spec fn partial_cmp_spec(&self, other: &Self) -> Option<core::cmp::Ordering> {
        Some(ask_order(*self, *other))
    }
}

impl BidKey {
    /// The 16-byte layout `[price: 8][seq: 8]`, big-endian.
    pub fn to_bytes(&self) -> (r: Vec<u8>)
        ensures
            r@.len() == 16,
            pair_decode(r@) == (self.price as nat, self.seq as nat),
    {
        encode_pair(self.price, self.seq)
    }

    pub fn from_bytes(bytes: &[u8]) -> (r: BidKey)
        requires
            bytes@.len() == 16,
        ensures
            (r.price as nat, r.seq as nat) == pair_decode(bytes@),
    {
        let (price, seq) = decode_pair(bytes);
        BidKey { price, seq }
    }
}

impl AskKey {
    /// The 16-byte layout `[price: 8][seq: 8]`, big-endian.
    pub fn to_bytes(&self) -> (r: Vec<u8>)
        ensures
            r@.len() == 16,
            pair_decode(r@) == (self.price as nat, self.seq as nat),
    {
        encode_pair(self.price, self.seq)
    }

    pub fn from_bytes(bytes: &[u8]) -> (r: AskKey)
        requires
            bytes@.len() == 16,
        ensures
            (r.price as nat, r.seq as nat) == pair_decode(bytes@),
    {
        let (price, seq) = decode_pair(bytes);
        AskKey { price, seq }
    }
}

/// Storing a key and reading it back gives the same key.
pub proof fn lemma_key_roundtrip(price: u64, seq: u64, bytes: Seq<u8>, back: (u64, u64))
    requires
        pair_decode(bytes) == (price as nat, seq as nat),
        (back.0 as nat, back.1 as nat) == pair_decode(bytes),
    ensures
        back == (price, seq),
{
}

/// A quantity stored with its leading zero bytes stripped: the shortest
/// big-endian encoding (no bytes at all for zero).
#[derive(Clone, Copy, Debug, PartialEq, Eq, Structural)]
pub struct StorableQuantity(pub Quantity);

/// `bytes` is the shortest big-endian encoding of `v`.
pub open spec fn shortest_be(bytes: Seq<u8>, v: nat) -> bool {
    &&& bytes.len() <= 32
    &&& be_value(bytes) == v
    &&& bytes.len() == 0 || bytes[0] != 0
}

impl StorableQuantity {
    pub fn to_bytes(&self) -> (r: Vec<u8>)
        ensures
            shortest_be(r@, self.0@),
    {
        let full = self.0.to_be_bytes();
        let mut k: usize = 0;
        while k < 32 && full[k] == 0
            invariant
                k <= 32,
                full@.len() == 32,
                forall|j: int| 0 <= j < k ==> full@[j] == 0,
            decreases 32 - k,
        {
            k = k + 1;
        }
        let r = byte_range(&full, k, 32);
        proof {
            assert(full@ =~= full@.subrange(0, k as int) + r@);
            crate::bytes::lemma_be_value_leading_zeros(full@.subrange(0, k as int), r@);
        }
        r
    }

    pub fn from_bytes(bytes: &[u8]) -> (r: StorableQuantity)
        requires
            bytes@.len() <= 32,
        ensures
            r.0@ == be_value(bytes@),
    {
        StorableQuantity(Quantity::from_be_bytes(bytes).unwrap())
    }
}

/// Storing a quantity and reading it back gives the same quantity.
pub proof fn lemma_storable_quantity_roundtrip(q: StorableQuantity, bytes: Seq<u8>, back: StorableQuantity)
    requires
        shortest_be(bytes, q.0@),
        back.0@ == be_value(bytes),
    ensures
        back == q,
{
}

/// A side and a price: `[side: 1][price: 16]`, the side as 0 (buy) or 1
/// (sell) and the price big-endian.
#[derive(Clone, Copy, Debug, PartialEq, Eq, Structural)]
pub struct StorableSidePrice {
    pub side: Side,
    pub price: Price,
}

/// The side byte.
pub open spec fn side_byte(side: Side) -> u8 {
    match side {
        Side::Buy => 0,
        Side::Sell => 1,
    }
}

impl StorableSidePrice {
    pub fn to_bytes(&self) -> (r: Vec<u8>)
        ensures
            r@.len() == 17,
            r@[0] == side_byte(self.side),
            be_value(r@.subrange(1, 17)) == self.price@,
    {
        proof {
            lemma_pow256_values();
        }
        let mut head: Vec<u8> = Vec::new();
        head.push(match self.side {
            Side::Buy => 0u8,
            Side::Sell => 1u8,
        });
        let p = u128_to_be(self.price.get(), 16);
        let r = concat_bytes(head, p);
        proof {
            assert(r@.subrange(1, 17) =~= p@);
        }
        r
    }

    /// Read a side and a price back; the side byte must be 0 or 1.
    pub fn from_bytes(bytes: &[u8]) -> (r: StorableSidePrice)
        requires
            bytes@.len() >= 17,
            bytes@[0] <= 1,
        ensures
            side_byte(r.side) == bytes@[0],
            r.price@ == be_value(bytes@.subrange(1, 17)),
    {
        proof {
            lemma_pow256_values();
            crate::bytes::lemma_be_value_bound(bytes@.subrange(1, 17));
        }
        let side = if bytes[0] == 0 { Side::Buy } else { Side::Sell };
        let price = Price::new(be_to_u128(byte_range(bytes, 1, 17).as_slice()));
        StorableSidePrice { side, price }
    }
}

/// Storing a side and price and reading them back gives the same pair.
pub proof fn lemma_side_price_roundtrip(sp: StorableSidePrice, bytes: Seq<u8>, back: StorableSidePrice)
    requires
        bytes.len() == 17,
        bytes[0] == side_byte(sp.side),
        be_value(bytes.subrange(1, 17)) == sp.price@,
        side_byte(back.side) == bytes[0],
        back.price@ == be_value(bytes.subrange(1, 17)),
    ensures
        back == sp,
{
}

} // verus!
