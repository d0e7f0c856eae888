use oisy_trade::ids::{FillId, FillIdParseError, FillSeq, OrderBookId, OrderId, OrderSeq, TradeId};

#[test]
fn should_reject_a_malformed_hex_id() {
    assert_eq!("".parse::<FillId>(), Err(FillIdParseError {}));
    assert_eq!("0".repeat(31).parse::<FillId>(), Err(FillIdParseError {}), "too short");
    assert_eq!("0".repeat(33).parse::<FillId>(), Err(FillIdParseError {}), "too long");
    assert_eq!("z".repeat(32).parse::<FillId>(), Err(FillIdParseError {}), "non-hex");
}

#[test]
fn should_derive_fill_id_from_trade_id_dropping_the_order_seq() {
    let book = OrderBookId::new(7);
    let taker = TradeId::new(OrderId::new(book, OrderSeq::new(2)), FillSeq::new(9));
    let maker = TradeId::new(OrderId::new(book, OrderSeq::new(5)), FillSeq::new(9));
    assert_eq!(taker.fill_id(), maker.fill_id(), "two legs share a FillId");
    assert_eq!(taker.fill_id(), FillId::new(book, FillSeq::new(9)));
}

#[test]
fn order_id_renders_as_32_hex_chars_and_parses_back() {
    let id = OrderId::new(OrderBookId::new(0x1f), OrderSeq::new(0xabc));
    let s = id.to_string();
    assert_eq!(s, "000000000000001f0000000000000abc");
    assert_eq!(s.parse::<OrderId>(), Ok(id));
    assert_eq!(OrderId::from_bytes(&id.to_bytes()), id);
}

#[test]
fn trade_id_renders_as_48_hex_chars_and_parses_back() {
    let id = TradeId::new(OrderId::new(OrderBookId::new(1), OrderSeq::new(2)), FillSeq::new(3));
    let s = id.to_string();
    assert_eq!(s, "000000000000000100000000000000020000000000000003");
    assert_eq!(s.parse::<TradeId>(), Ok(id));
    assert_eq!(TradeId::first_of(id.order_id()).seq(), FillSeq::new(0));
    assert_eq!(TradeId::last_of(id.order_id()).seq(), FillSeq::new(u64::MAX));
}

#[derive(Clone, Copy, Debug, PartialEq, Eq, PartialOrd, Ord, Hash)]
struct SeqTestMarker;

impl oisy_trade::ids::SeqMarker for SeqTestMarker {
    fn marker() -> Self {
        SeqTestMarker
    }

    fn name() -> &'static str {
        "SeqTest"
    }

    fn lemma_unique(_a: Self, _b: Self) {}
}

type SeqTest = oisy_trade::ids::Sequence<SeqTestMarker>;

#[test]
fn should_have_debug_representation() {
    let seq = SeqTest::new(42);
    let dbg = seq.debug_text();
    assert_eq!(dbg, "SeqTest(42)");
}

#[test]
fn library_sequences_show_their_family_name() {
    assert_eq!(oisy_trade::ids::FillSeq::new(7).debug_text(), "FillSeq(7)");
    assert_eq!(oisy_trade::ids::InsertionSeq::new(0).debug_text(), "InsertionSeq(0)");
}

#[test]
fn hex_ids_hold_nothing_but_hex_digits() {
    let signed = "+000000000000001+000000000000001";
    assert_eq!(signed.len(), 32);
    assert!(OrderId::parse_str(signed).is_err());
    assert_eq!(FillId::parse_str(signed), Err(FillIdParseError));
    assert!(TradeId::parse_str("+000000000000001+000000000000001+000000000000001").is_err());
    let upper = OrderId::parse_str("000000000000000A000000000000000b").unwrap();
    assert_eq!(upper, OrderId::new(OrderBookId::new(10), OrderSeq::new(11)));
}
