use oisy_trade::keys::{AskKey, BidKey, StorableQuantity, StorableSidePrice};
use oisy_trade::order::Side;
use oisy_trade::quantity::{Price, Quantity};

#[test]
fn bid_key_ordering() {
    let high_price = BidKey { price: 200, seq: 1 };
    let low_price = BidKey { price: 100, seq: 1 };
    // Higher price sorts first (descending price).
    assert!(high_price < low_price);

    let early = BidKey { price: 100, seq: 1 };
    let late = BidKey { price: 100, seq: 2 };
    // Same price: earlier seq sorts first (FIFO).
    assert!(early < late);
}

#[test]
fn ask_key_ordering() {
    let low_price = AskKey { price: 100, seq: 1 };
    let high_price = AskKey { price: 200, seq: 1 };
    // Lower price sorts first (ascending price).
    assert!(low_price < high_price);

    let early = AskKey { price: 100, seq: 1 };
    let late = AskKey { price: 100, seq: 2 };
    // Same price: earlier seq sorts first (FIFO).
    assert!(early < late);
}

#[test]
fn storable_quantity_roundtrip_zero() {
    let qty = StorableQuantity(Quantity::zero());
    let bytes = qty.to_bytes();
    let restored = StorableQuantity::from_bytes(&bytes);
    assert_eq!(restored, qty);
}

#[test]
fn storable_quantity_roundtrip_small() {
    let qty = StorableQuantity(Quantity::from(42_000_000u64));
    let bytes = qty.to_bytes();
    let restored = StorableQuantity::from_bytes(&bytes);
    assert_eq!(restored, qty);
}

#[test]
fn storable_quantity_roundtrip_large() {
    let qty = StorableQuantity(Quantity::from(u64::MAX));
    let bytes = qty.to_bytes();
    let restored = StorableQuantity::from_bytes(&bytes);
    assert_eq!(restored, qty);
}

#[test]
fn storable_side_price_roundtrip() {
    for side in [Side::Buy, Side::Sell] {
        let sp = StorableSidePrice { side, price: Price::new(123_456_789) };
        let bytes = sp.to_bytes();
        let restored = StorableSidePrice::from_bytes(&bytes);
        assert_eq!(restored, sp);
    }
}

#[test]
fn bid_key_storable_roundtrip() {
    let key = BidKey { price: 999, seq: 42 };
    let bytes = key.to_bytes();
    let restored = BidKey::from_bytes(&bytes);
    assert_eq!(restored, key);
}

#[test]
fn ask_key_storable_roundtrip() {
    let key = AskKey { price: 999, seq: 42 };
    let bytes = key.to_bytes();
    let restored = AskKey::from_bytes(&bytes);
    assert_eq!(restored, key);
}

#[test]
fn storable_quantity_strips_leading_zero_bytes() {
    assert!(StorableQuantity(Quantity::zero()).to_bytes().is_empty());
    assert_eq!(StorableQuantity(Quantity::from(0x0102u64)).to_bytes(), vec![1u8, 2]);
    assert_eq!(StorableQuantity(Quantity::max_value()).to_bytes(), vec![0xffu8; 32]);
}

#[test]
fn key_layout_is_price_then_seq_big_endian() {
    let key = BidKey { price: 0x0102, seq: 3 };
    assert_eq!(key.to_bytes(), vec![0, 0, 0, 0, 0, 0, 1, 2, 0, 0, 0, 0, 0, 0, 0, 3]);
    let sp = StorableSidePrice { side: Side::Sell, price: Price::new(5) };
    let bytes = sp.to_bytes();
    assert_eq!(bytes.len(), 17);
    assert_eq!(bytes[0], 1);
    assert_eq!(bytes[16], 5);
}
