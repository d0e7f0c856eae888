//! Opaque identifiers: per-book sequence numbers, order ids and the fill/trade
//! ids composed from them, with their fixed-width byte and hex renderings.
use vstd::prelude::*;
use vstd::string::StringSliceAdditionalSpecFns;
use crate::bytes::{be_to_u128, be_value, lemma_be_value_bound, lemma_pow256_values, u128_to_be};
use crate::text::{dec_digits, u128_digits, hex_encode, lemma_hex_encode_value, lemma_hex16_roundtrip, parse_hex_digits_u64, push_hex_u64, hex_digits_u64, str_chars, string_from_chars};

verus! {

broadcast use vstd::string::is_ascii_spec_bytes;

/// Names a [`Sequence`] family; implemented by zero-sized marker types.
pub trait SeqMarker: Copy {
    /// The (only) value of the marker type.
    fn marker() -> Self;

    /// The name the sequence family is shown by.
    fn name() -> &'static str;

    /// A marker type has a single value.
    proof fn lemma_unique(a: Self, b: Self)
        ensures
            a == b,
    ;
}

/// A `u64`-backed per-book sequence newtype, distinguished by a zero-sized
/// [`SeqMarker`] so ids of different kinds cannot be mixed up.
#[derive(Debug, Clone, Copy, PartialEq, Eq, PartialOrd, Ord, Hash, Structural)]
pub struct Sequence<M>(u64, M);

impl<M: SeqMarker> View for Sequence<M> {
    type V = u64;

    closed spec fn view(&self) -> u64 {
        self.0
    }
}

impl<M: SeqMarker> Sequence<M> {
    pub closed spec fn spec_new(seq: u64) -> Sequence<M> {
        Sequence(seq, arbitrary())
    }

    pub broadcast proof fn lemma_spec_new(seq: u64)
        ensures
            #[trigger] Sequence::<M>::spec_new(seq)@ == seq,
    {
    }

    pub broadcast proof fn lemma_view_injective(a: Sequence<M>, b: Sequence<M>)
        ensures
            #[trigger] a@ == #[trigger] b@ ==> a == b,
    {
        M::lemma_unique(a.1, b.1);
    }

    pub fn zero() -> (s: Sequence<M>)
        ensures
            s@ == 0,
    {
        Sequence(0, M::marker())
    }

    pub fn one() -> (s: Sequence<M>)
        ensures
            s@ == 1,
    {
        Sequence(1, M::marker())
    }

    pub fn new(seq: u64) -> (s: Sequence<M>)
        ensures
            s@ == seq,
            s == Sequence::<M>::spec_new(seq),
    {
        let m = M::marker();
        proof {
            M::lemma_unique(m, arbitrary());
        }
        Sequence(seq, m)
    }

    pub fn get(self) -> (r: u64)
        ensures
            r == self@,
    {
        self.0
    }
}

impl<M: SeqMarker> Sequence<M> {
    /// The sequence as shown in diagnostics: the family's name and the
    /// number in parentheses, as in `FillSeq(42)`.
    pub fn debug_text(&self) -> (s: String)
        ensures
            exists|name: Seq<char>| s@ == name + seq!['('] + dec_digits(self@ as nat) + seq![')'],
    {
        let name = M::name();
        let mut chars = str_chars(name);
        chars.push('(');
        let digits = u128_digits(self.0 as u128);
        let mut rest = str_chars(digits.as_str());
        chars.append(&mut rest);
        chars.push(')');
        proof {
            assert(chars@ =~= name@ + seq!['('] + dec_digits(self@ as nat) + seq![')']);
        }
        string_from_chars(&chars)
    }

    /// Advance to the next sequence number; the counter must not be at `u64::MAX`.
    pub fn increment(&mut self)
        requires
            old(self)@ < u64::MAX,
        ensures
            final(self)@ == old(self)@ + 1,
    {
        self.0 = self.0 + 1;
    }
}

/// Identifier of an order book, assigned at registration.
#[derive(Debug, Clone, Copy, PartialEq, Eq, PartialOrd, Ord, Hash, Structural)]
pub struct OrderBookId(u64);

impl View for OrderBookId {
    type V = u64;

    closed spec fn view(&self) -> u64 {
        self.0
    }
}

impl OrderBookId {
    pub broadcast proof fn lemma_view_injective(a: OrderBookId, b: OrderBookId)
        ensures
            #[trigger] a@ == #[trigger] b@ ==> a == b,
    {
    }

    pub fn zero() -> (id: OrderBookId)
        ensures
            id@ == 0,
    {
        OrderBookId(0)
    }

    pub fn one() -> (id: OrderBookId)
        ensures
            id@ == 1,
    {
        OrderBookId(1)
    }

    pub fn new(id: u64) -> (r: OrderBookId)
        ensures
            r@ == id,
    {
        OrderBookId(id)
    }

    pub fn get(self) -> (r: u64)
        ensures
            r == self@,
    {
        self.0
    }

    /// Advance to the next id; the id must not be at `u64::MAX`.
    pub fn increment(&mut self)
        requires
            old(self)@ < u64::MAX,
        ensures
            final(self)@ == old(self)@ + 1,
    {
        self.0 = self.0 + 1;
    }
}

/// Sequence number identifying an order within a single order book.
#[derive(Debug, Clone, Copy, PartialEq, Eq, PartialOrd, Ord, Hash, Structural)]
pub struct OrderSeq(u64);

impl View for OrderSeq {
    type V = u64;

    closed spec fn view(&self) -> u64 {
        self.0
    }
}

impl OrderSeq {
    pub closed spec fn spec_new(seq: u64) -> OrderSeq {
        OrderSeq(seq)
    }

    pub broadcast proof fn lemma_spec_new(seq: u64)
        ensures
            #[trigger] OrderSeq::spec_new(seq)@ == seq,
    {
    }

    pub broadcast proof fn lemma_view_injective(a: OrderSeq, b: OrderSeq)
        ensures
            #[trigger] a@ == #[trigger] b@ ==> a == b,
    {
    }

    pub fn zero() -> (s: OrderSeq)
        ensures
            s@ == 0,
    {
        OrderSeq(0)
    }

    pub fn one() -> (s: OrderSeq)
        ensures
            s@ == 1,
    {
        OrderSeq(1)
    }

    pub fn new(seq: u64) -> (s: OrderSeq)
        ensures
            s@ == seq,
    {
        OrderSeq(seq)
    }

    pub fn get(self) -> (r: u64)
        ensures
            r == self@,
    {
        self.0
    }

    /// Advance to the next sequence number; the counter must not be at `u64::MAX`.
    pub fn increment(&mut self)
        requires
            old(self)@ < u64::MAX,
        ensures
            final(self)@ == old(self)@ + 1,
    {
        self.0 = self.0 + 1;
    }
}

/// Unique order identifier: the order book id and the per-book sequence.
/// Rendered to the outside as a 32-character hex string.
#[derive(Debug, Clone, Copy, PartialEq, Eq, PartialOrd, Ord, Hash, Structural)]
pub struct OrderId {
    book_id: OrderBookId,
    seq: OrderSeq,
}

/// The string was not a 32-character hex order id.
#[derive(Debug, PartialEq, Eq, Structural)]
pub struct OrderIdParseError;

/// The `i`-th 16-character chunk of `cs`.
pub open spec fn chunk16(cs: Seq<char>, i: int) -> Seq<char> {
    cs.subrange(16 * i, 16 * i + 16)
}

/// Whether `s` is exactly `16 k` ASCII hexadecimal digits, read in
/// 16-digit chunks as `u64`s.
pub open spec fn well_formed_hex_id(s: &str, k: nat) -> bool {
    &&& vstd::string::is_ascii(s)
    &&& s@.len() == 16 * k
    &&& forall|i: int| 0 <= i < k ==> #[trigger] hex_digits_u64(chunk16(s@, i)) is Some
}

/// The `i`-th field of a well-formed hex id.
pub open spec fn hex_id_field(s: &str, i: int) -> u64 {
    hex_digits_u64(chunk16(s@, i))->0
}

/// Parse the `k` `u64` fields of a fixed-width hex id: exactly `16 k` ASCII
/// hexadecimal digits, each 16-digit chunk read as one field.
pub fn parse_hex_fields(s: &str, k: usize) -> (r: Option<Vec<u64>>)
    requires
        k <= 3,
    ensures
        match r {
            Some(v) => well_formed_hex_id(s, k as nat) && v@.len() == k
                && forall|i: int| 0 <= i < k ==> #[trigger] v@[i] == hex_id_field(s, i),
            None => !well_formed_hex_id(s, k as nat),
        },
{
    let len = s.as_bytes().len();
    let ascii = s.is_ascii();
    if len != 16 * k || !ascii {
        proof {
            if ascii {
                assert(s.spec_bytes().len() == s@.len());
            }
        }
        return None;
    }
    proof {
        assert(s.spec_bytes().len() == s@.len());
        assert(len == s.spec_bytes().len());
    }
    let cs = str_chars(s);
    let mut out: Vec<u64> = Vec::new();
    let mut i: usize = 0;
    while i < k
        invariant
            i <= k,
            k <= 3,
            cs@ == s@,
            s@.len() == 16 * k,
            out@.len() == i,
            forall|j: int| 0 <= j < i ==> #[trigger] hex_digits_u64(chunk16(s@, j)) is Some,
            forall|j: int| 0 <= j < i ==> #[trigger] out@[j] == hex_id_field(s, j),
            vstd::string::is_ascii(s),
        decreases k - i,
    {
        let piece = vstd::slice::slice_subrange(cs.as_slice(), 16 * i, 16 * i + 16);
        match parse_hex_digits_u64(piece) {
            Some(v) => {
                out.push(v);
            },
            None => {
                proof {
                    assert(piece@ =~= chunk16(s@, i as int));
                    assert(hex_digits_u64(chunk16(s@, i as int)) is None);
                }
                return None;
            },
        }
        proof {
            assert(piece@ =~= chunk16(s@, i as int));
        }
        i = i + 1;
    }
    Some(out)
}

/// `16 k`-character hex rendering of the fields.
pub open spec fn hex_fields(fields: Seq<u64>) -> Seq<char>
    decreases fields.len(),
{
    if fields.len() == 0 {
        Seq::empty()
    } else {
        hex_fields(fields.drop_last()) + hex_encode(fields.last() as nat, 16)
    }
}

/// Rendering and re-reading fixed-width hex ids loses nothing.
pub proof fn lemma_hex_fields_roundtrip(fields: Seq<u64>)
    ensures
        hex_fields(fields).len() == 16 * fields.len(),
        vstd::utf8::is_ascii_chars(hex_fields(fields)),
        forall|i: int| 0 <= i < fields.len() ==> #[trigger] chunk16(hex_fields(fields), i)
            == hex_encode(fields[i] as nat, 16),
        forall|i: int| 0 <= i < fields.len() ==> #[trigger] hex_digits_u64(chunk16(hex_fields(fields), i))
            == Some(fields[i]),
    decreases fields.len(),
{
    if fields.len() > 0 {
        let init = fields.drop_last();
        lemma_hex_fields_roundtrip(init);
        let last = fields.last();
        lemma_hex_encode_value(last as nat, 16);
        lemma_hex16_roundtrip(last);
        let h = hex_fields(fields);
        let hi = hex_fields(init);
        let e = hex_encode(last as nat, 16);
        assert(h == hi + e);
        assert forall|i: int| 0 <= i < fields.len() implies #[trigger] chunk16(h, i)
            == hex_encode(fields[i] as nat, 16) by {
            if i < init.len() {
                assert(chunk16(h, i) =~= chunk16(hi, i));
                assert(fields[i] == init[i]);
            } else {
                assert(chunk16(h, i) =~= e);
            }
        }
        assert forall|i: int| 0 <= i < fields.len() implies #[trigger] hex_digits_u64(chunk16(h, i))
            == Some(fields[i]) by {
            assert(chunk16(h, i) == hex_encode(fields[i] as nat, 16));
            lemma_hex16_roundtrip(fields[i]);
        }
        assert forall|i: int| 0 <= i < h.len() implies (#[trigger] h[i] as u32) < 128 by {
            if i < hi.len() {
                assert(h[i] == hi[i]);
                assert(vstd::utf8::is_ascii_chars(hi));
            } else {
                assert(h[i] == e[i - hi.len()]);
                assert(crate::text::is_hex_digit(e[i - hi.len()]));
            }
        }
    }
}

/// Render the fields as lower-case hex, 16 digits each.
pub fn hex_fields_string(fields: &Vec<u64>) -> (s: String)
    ensures
        s@ == hex_fields(fields@),
{
    let mut out: Vec<char> = Vec::new();
    let mut i: usize = 0;
    while i < fields.len()
        invariant
            i <= fields.len(),
            out@ == hex_fields(fields@.subrange(0, i as int)),
        decreases fields.len() - i,
    {
        push_hex_u64(&mut out, fields[i]);
        proof {
            let next = fields@.subrange(0, i + 1);
            assert(next.drop_last() =~= fields@.subrange(0, i as int));
        }
        i = i + 1;
    }
    proof {
        assert(fields@.subrange(0, fields@.len() as int) =~= fields@);
    }
    string_from_chars(&out)
}

impl OrderId {
    /// Order ids with the same book and sequence are the same id.
    pub proof fn lemma_fields_injective(a: OrderId, b: OrderId)
        ensures
            a.spec_book_id()@ == b.spec_book_id()@ && a.spec_seq()@ == b.spec_seq()@ ==> a == b,
    {
        OrderBookId::lemma_view_injective(a.book_id, b.book_id);
        OrderSeq::lemma_view_injective(a.seq, b.seq);
    }

    pub closed spec fn spec_book_id(&self) -> OrderBookId {
        self.book_id
    }

    pub closed spec fn spec_seq(&self) -> OrderSeq {
        self.seq
    }

    pub fn zero() -> (id: OrderId)
        ensures
            id.spec_book_id()@ == 0,
            id.spec_seq()@ == 0,
    {
        OrderId { book_id: OrderBookId::zero(), seq: OrderSeq::zero() }
    }

    pub fn new(book_id: OrderBookId, seq: OrderSeq) -> (id: OrderId)
        ensures
            id.spec_book_id() == book_id,
            id.spec_seq() == seq,
    {
        OrderId { book_id, seq }
    }

    pub fn book_id(&self) -> (r: OrderBookId)
        ensures
            r == self.spec_book_id(),
    {
        self.book_id
    }

    pub fn seq(&self) -> (r: OrderSeq)
        ensures
            r == self.spec_seq(),
    {
        self.seq
    }

    pub fn into_parts(self) -> (r: (OrderBookId, OrderSeq))
        ensures
            r == (self.spec_book_id(), self.spec_seq()),
    {
        (self.book_id, self.seq)
    }

    /// The two `u64` fields, in rendering order.
    pub open spec fn fields(&self) -> Seq<u64> {
        seq![self.spec_book_id()@, self.spec_seq()@]
    }

    /// 16 bytes: the book id then the sequence, each big-endian.
    pub fn to_bytes(&self) -> (bytes: Vec<u8>)
        ensures
            bytes@.len() == 16,
            be_value(bytes@.subrange(0, 8)) == self.spec_book_id()@,
            be_value(bytes@.subrange(8, 16)) == self.spec_seq()@,
    {
        proof { lemma_pow256_values(); }
        let mut bytes = u128_to_be(self.book_id.get() as u128, 8);
        let mut tail = u128_to_be(self.seq.get() as u128, 8);
        let ghost b = bytes@;
        let ghost t = tail@;
        bytes.append(&mut tail);
        proof {
            assert(bytes@.subrange(0, 8) =~= b);
            assert(bytes@.subrange(8, 16) =~= t);
        }
        bytes
    }

    /// Decode the 16-byte layout written by [`OrderId::to_bytes`].
    pub fn from_bytes(bytes: &[u8]) -> (id: OrderId)
        requires
            bytes@.len() == 16,
        ensures
            id.spec_book_id()@ == be_value(bytes@.subrange(0, 8)),
            id.spec_seq()@ == be_value(bytes@.subrange(8, 16)),
    {
        let head = vstd::slice::slice_subrange(bytes, 0, 8);
        let tail = vstd::slice::slice_subrange(bytes, 8, 16);
        proof {
            lemma_be_value_bound(head@);
            lemma_be_value_bound(tail@);
            lemma_pow256_values();
        }
        let book = be_to_u128(head) as u64;
        let seq = be_to_u128(tail) as u64;
        OrderId { book_id: OrderBookId(book), seq: OrderSeq(seq) }
    }

    /// The 32-character lower-case hex rendering.
    pub fn to_string(&self) -> (s: String)
        ensures
            s@ == hex_fields(self.fields()),
    {
        let mut fields: Vec<u64> = Vec::new();
        fields.push(self.book_id.get());
        fields.push(self.seq.get());
        proof {
            assert(fields@ =~= self.fields());
        }
        hex_fields_string(&fields)
    }

    /// Parse a 32-character hex string: 16 hex digits of book id, then 16 of
    /// sequence, of either case; nothing but hex digits is accepted.
    pub fn parse_str(s: &str) -> (r: Result<OrderId, OrderIdParseError>)
        ensures
            match r {
                Ok(id) => well_formed_hex_id(s, 2) && id.spec_book_id()@ == hex_id_field(s, 0)
                    && id.spec_seq()@ == hex_id_field(s, 1),
                Err(_) => !well_formed_hex_id(s, 2),
            },
    {
        match parse_hex_fields(s, 2) {
            Some(v) => Ok(OrderId { book_id: OrderBookId(v[0]), seq: OrderSeq(v[1]) }),
            None => Err(OrderIdParseError),
        }
    }
}

impl std::str::FromStr for OrderId {
    type Err = OrderIdParseError;

    fn from_str(s: &str) -> (r: Result<OrderId, OrderIdParseError>)
        ensures
            match r {
                Ok(id) => well_formed_hex_id(s, 2) && id.spec_book_id()@ == hex_id_field(s, 0)
                    && id.spec_seq()@ == hex_id_field(s, 1),
                Err(_) => !well_formed_hex_id(s, 2),
            },
    {
        OrderId::parse_str(s)
    }
}

/// Rendering an order id and parsing it back yields the same id.
pub proof fn lemma_order_id_hex_roundtrip(id: OrderId, s: &str)
    requires
        s@ == hex_fields(id.fields()),
    ensures
        well_formed_hex_id(s, 2),
        hex_id_field(s, 0) == id.spec_book_id()@,
        hex_id_field(s, 1) == id.spec_seq()@,
{
    lemma_hex_fields_roundtrip(id.fields());
    assert(hex_digits_u64(chunk16(s@, 0)) == Some(id.fields()[0]));
    assert(hex_digits_u64(chunk16(s@, 1)) == Some(id.fields()[1]));
}

/// A fixed-width composite id pairing two components, rendered as the
/// concatenation of their hex.
#[derive(Debug, Clone, Copy, PartialEq, Eq, PartialOrd, Ord, Hash, Structural)]
pub struct Composite<A, B> {
    first: A,
    second: B,
}

impl<A: Copy, B: Copy> Composite<A, B> {
    pub closed spec fn spec_first(&self) -> A {
        self.first
    }

    pub closed spec fn spec_second(&self) -> B {
        self.second
    }

    pub fn new(first: A, second: B) -> (c: Composite<A, B>)
        ensures
            c.spec_first() == first,
            c.spec_second() == second,
    {
        Composite { first, second }
    }

    pub fn first(&self) -> (r: A)
        ensures
            r == self.spec_first(),
    {
        self.first
    }

    pub fn second(&self) -> (r: B)
        ensures
            r == self.spec_second(),
    {
        self.second
    }
}

/// Marker of the per-book fill sequence.
#[derive(Debug, Clone, Copy, PartialEq, Eq, PartialOrd, Ord, Hash, Structural)]
pub struct FillSeqMarker;

impl SeqMarker for FillSeqMarker {
    fn marker() -> FillSeqMarker {
        FillSeqMarker
    }

    fn name() -> (r: &'static str)
        ensures
            r@ == "FillSeq"@,
    {
        "FillSeq"
    }

    proof fn lemma_unique(a: FillSeqMarker, b: FillSeqMarker) {
    }
}

/// Sequence number identifying a fill within a single order book.
pub type FillSeq = Sequence<FillSeqMarker>;

/// Marks the per-store insertion sequence of a record store.
#[derive(Debug, Clone, Copy, PartialEq, Eq, PartialOrd, Ord, Hash, Structural)]
pub struct InsertionSeqMarker;

impl SeqMarker for InsertionSeqMarker {
    fn marker() -> InsertionSeqMarker {
        InsertionSeqMarker
    }

    fn name() -> (r: &'static str)
        ensures
            r@ == "InsertionSeq"@,
    {
        "InsertionSeq"
    }

    proof fn lemma_unique(a: InsertionSeqMarker, b: InsertionSeqMarker) {
    }
}

/// Per-store insertion sequence of a record.
pub type InsertionSeq = Sequence<InsertionSeqMarker>;

/// A page cursor named a record the store does not hold.
#[derive(Debug, Clone, Copy, PartialEq, Eq, Structural)]
pub struct CursorNotFound;

/// Identity of a match: the book it happened in and the per-book fill sequence.
/// Rendered as a 32-character hex string.
#[derive(Debug, Clone, Copy, PartialEq, Eq, PartialOrd, Ord, Hash, Structural)]
pub struct FillId(Composite<OrderBookId, FillSeq>);

/// The string was not a 32-character hex fill id.
#[derive(Debug, PartialEq, Eq, Structural)]
pub struct FillIdParseError;

impl FillId {
    pub closed spec fn spec_book_id(&self) -> OrderBookId {
        self.0.first
    }

    pub closed spec fn spec_seq(&self) -> FillSeq {
        self.0.second
    }

    pub fn new(book_id: OrderBookId, seq: FillSeq) -> (id: FillId)
        ensures
            id.spec_book_id() == book_id,
            id.spec_seq() == seq,
    {
        FillId(Composite::new(book_id, seq))
    }

    pub fn book_id(&self) -> (r: OrderBookId)
        ensures
            r == self.spec_book_id(),
    {
        self.0.first()
    }

    pub fn seq(&self) -> (r: FillSeq)
        ensures
            r == self.spec_seq(),
    {
        self.0.second()
    }

    /// The 32-character lower-case hex rendering.
    pub fn to_string(&self) -> (s: String)
        ensures
            s@ == hex_fields(seq![self.spec_book_id()@, self.spec_seq()@]),
    {
        let mut fields: Vec<u64> = Vec::new();
        fields.push(self.0.first.get());
        fields.push(self.0.second.get());
        proof {
            assert(fields@ =~= seq![self.spec_book_id()@, self.spec_seq()@]);
        }
        hex_fields_string(&fields)
    }

    /// Parse the 32-character hex rendering.
    pub fn parse_str(s: &str) -> (r: Result<FillId, FillIdParseError>)
        ensures
            match r {
                Ok(id) => well_formed_hex_id(s, 2) && id.spec_book_id()@ == hex_id_field(s, 0)
                    && id.spec_seq()@ == hex_id_field(s, 1),
                Err(_) => !well_formed_hex_id(s, 2),
            },
    {
        match parse_hex_fields(s, 2) {
            Some(v) => Ok(FillId::new(OrderBookId::new(v[0]), Sequence::new(v[1]))),
            None => Err(FillIdParseError),
        }
    }

    /// 16 bytes: the book id then the sequence, each big-endian.
    pub fn to_bytes(&self) -> (bytes: Vec<u8>)
        ensures
            bytes@.len() == 16,
            be_value(bytes@.subrange(0, 8)) == self.spec_book_id()@,
            be_value(bytes@.subrange(8, 16)) == self.spec_seq()@,
    {
        OrderId::new(self.0.first, OrderSeq::new(self.0.second.get())).to_bytes()
    }

    /// Decode the 16-byte layout written by [`FillId::to_bytes`].
    pub fn from_bytes(bytes: &[u8]) -> (id: FillId)
        requires
            bytes@.len() == 16,
        ensures
            id.spec_book_id()@ == be_value(bytes@.subrange(0, 8)),
            id.spec_seq()@ == be_value(bytes@.subrange(8, 16)),
    {
        let o = OrderId::from_bytes(bytes);
        FillId::new(o.book_id(), Sequence::new(o.seq().get()))
    }
}

impl std::str::FromStr for FillId {
    type Err = FillIdParseError;

    fn from_str(s: &str) -> (r: Result<FillId, FillIdParseError>)
        ensures
            match r {
                Ok(id) => well_formed_hex_id(s, 2) && id.spec_book_id()@ == hex_id_field(s, 0)
                    && id.spec_seq()@ == hex_id_field(s, 1),
                Err(_) => !well_formed_hex_id(s, 2),
            },
    {
        FillId::parse_str(s)
    }
}

/// Identity of one order's side of a fill: the owning order id followed by the
/// match's fill sequence. Rendered as a 48-character hex string.
#[derive(Debug, Clone, Copy, PartialEq, Eq, PartialOrd, Ord, Hash, Structural)]
pub struct TradeId(Composite<OrderId, FillSeq>);

/// The string was not a 48-character hex trade id.
#[derive(Debug, PartialEq, Eq, Structural)]
pub struct TradeIdParseError;

impl TradeId {
    /// Trade ids with the same order and fill sequence are the same id.
    pub proof fn lemma_parts_injective(a: TradeId, b: TradeId)
        ensures
            a.spec_order_id() == b.spec_order_id() && a.spec_seq()@ == b.spec_seq()@ ==> a == b,
    {
        Sequence::<FillSeqMarker>::lemma_view_injective(a.0.second, b.0.second);
    }

    pub closed spec fn spec_order_id(&self) -> OrderId {
        self.0.first
    }

    pub closed spec fn spec_seq(&self) -> FillSeq {
        self.0.second
    }

    pub fn new(order: OrderId, seq: FillSeq) -> (id: TradeId)
        ensures
            id.spec_order_id() == order,
            id.spec_seq() == seq,
    {
        TradeId(Composite::new(order, seq))
    }

    pub fn order_id(&self) -> (r: OrderId)
        ensures
            r == self.spec_order_id(),
    {
        self.0.first()
    }

    pub fn seq(&self) -> (r: FillSeq)
        ensures
            r == self.spec_seq(),
    {
        self.0.second()
    }

    /// The fill this trade is one side of: the owning order's book paired with
    /// the shared fill sequence.
    pub fn fill_id(&self) -> (r: FillId)
        ensures
            r.spec_book_id() == self.spec_order_id().spec_book_id(),
            r.spec_seq() == self.spec_seq(),
    {
        FillId::new(self.0.first.book_id(), self.0.second)
    }

    pub closed spec fn spec_first_of(order: OrderId) -> TradeId {
        TradeId(Composite { first: order, second: Sequence::spec_new(0) })
    }

    pub closed spec fn spec_last_of(order: OrderId) -> TradeId {
        TradeId(Composite { first: order, second: Sequence::spec_new(u64::MAX) })
    }

    pub broadcast proof fn lemma_bounds_of(order: OrderId)
        ensures
            #[trigger] TradeId::spec_first_of(order).spec_order_id() == order,
            TradeId::spec_first_of(order).spec_seq()@ == 0,
            #[trigger] TradeId::spec_last_of(order).spec_order_id() == order,
            TradeId::spec_last_of(order).spec_seq()@ == u64::MAX,
    {
        Sequence::<FillSeqMarker>::lemma_spec_new(0);
        Sequence::<FillSeqMarker>::lemma_spec_new(u64::MAX);
    }

    /// The smallest trade id of `order`.
    pub fn first_of(order: OrderId) -> (r: TradeId)
        ensures
            r == TradeId::spec_first_of(order),
            r.spec_order_id() == order,
            r.spec_seq()@ == 0,
    {
        TradeId::new(order, Sequence::new(0))
    }

    /// The largest trade id of `order`.
    pub fn last_of(order: OrderId) -> (r: TradeId)
        ensures
            r == TradeId::spec_last_of(order),
            r.spec_order_id() == order,
            r.spec_seq()@ == u64::MAX,
    {
        TradeId::new(order, Sequence::new(u64::MAX))
    }

    /// The three `u64` fields, in rendering order.
    pub open spec fn fields(&self) -> Seq<u64> {
        seq![self.spec_order_id().spec_book_id()@, self.spec_order_id().spec_seq()@, self.spec_seq()@]
    }

    /// The 48-character lower-case hex rendering.
    pub fn to_string(&self) -> (s: String)
        ensures
            s@ == hex_fields(self.fields()),
    {
        let mut fields: Vec<u64> = Vec::new();
        fields.push(self.0.first.book_id().get());
        fields.push(self.0.first.seq().get());
        fields.push(self.0.second.get());
        proof {
            assert(fields@ =~= self.fields());
        }
        hex_fields_string(&fields)
    }

    /// Parse the 48-character hex rendering.
    pub fn parse_str(s: &str) -> (r: Result<TradeId, TradeIdParseError>)
        ensures
            match r {
                Ok(id) => well_formed_hex_id(s, 3) && id.fields() == seq![
                    hex_id_field(s, 0),
                    hex_id_field(s, 1),
                    hex_id_field(s, 2),
                ],
                Err(_) => !well_formed_hex_id(s, 3),
            },
    {
        match parse_hex_fields(s, 3) {
            Some(v) => {
                let order = OrderId::new(OrderBookId::new(v[0]), OrderSeq::new(v[1]));
                let id = TradeId::new(order, Sequence::new(v[2]));
                proof {
                    assert(id.fields() =~= seq![v@[0], v@[1], v@[2]]);
                }
                Ok(id)
            },
            None => Err(TradeIdParseError),
        }
    }

    /// 24 bytes: book id, order sequence, fill sequence, each big-endian.
    pub fn to_bytes(&self) -> (bytes: Vec<u8>)
        ensures
            bytes@.len() == 24,
            be_value(bytes@.subrange(0, 8)) == self.fields()[0],
            be_value(bytes@.subrange(8, 16)) == self.fields()[1],
            be_value(bytes@.subrange(16, 24)) == self.fields()[2],
    {
        proof { lemma_pow256_values(); }
        let mut bytes = self.0.first.to_bytes();
        let mut tail = u128_to_be(self.0.second.get() as u128, 8);
        let ghost b = bytes@;
        let ghost t = tail@;
        bytes.append(&mut tail);
        proof {
            assert(bytes@.subrange(0, 8) =~= b.subrange(0, 8));
            assert(bytes@.subrange(8, 16) =~= b.subrange(8, 16));
            assert(bytes@.subrange(16, 24) =~= t);
        }
        bytes
    }

    /// Decode the 24-byte layout written by [`TradeId::to_bytes`].
    pub fn from_bytes(bytes: &[u8]) -> (id: TradeId)
        requires
            bytes@.len() == 24,
        ensures
            id.fields() == seq![
                be_value(bytes@.subrange(0, 8)) as u64,
                be_value(bytes@.subrange(8, 16)) as u64,
                be_value(bytes@.subrange(16, 24)) as u64,
            ],
            be_value(bytes@.subrange(0, 8)) <= u64::MAX,
            be_value(bytes@.subrange(8, 16)) <= u64::MAX,
            be_value(bytes@.subrange(16, 24)) <= u64::MAX,
    {
        let head = vstd::slice::slice_subrange(bytes, 0, 16);
        let tail = vstd::slice::slice_subrange(bytes, 16, 24);
        proof {
            assert(head@.subrange(0, 8) =~= bytes@.subrange(0, 8));
            assert(head@.subrange(8, 16) =~= bytes@.subrange(8, 16));
            lemma_be_value_bound(bytes@.subrange(0, 8));
            lemma_be_value_bound(bytes@.subrange(8, 16));
            lemma_be_value_bound(tail@);
            lemma_pow256_values();
        }
        let order = OrderId::from_bytes(head);
        let seq = be_to_u128(tail) as u64;
        let id = TradeId::new(order, Sequence::new(seq));
        proof {
            assert(id.fields() =~= seq![
                be_value(bytes@.subrange(0, 8)) as u64,
                be_value(bytes@.subrange(8, 16)) as u64,
                be_value(bytes@.subrange(16, 24)) as u64,
            ]);
        }
        id
    }
}

impl std::str::FromStr for TradeId {
    type Err = TradeIdParseError;

    fn from_str(s: &str) -> (r: Result<TradeId, TradeIdParseError>)
        ensures
            match r {
                Ok(id) => well_formed_hex_id(s, 3) && id.fields() == seq![
                    hex_id_field(s, 0),
                    hex_id_field(s, 1),
                    hex_id_field(s, 2),
                ],
                Err(_) => !well_formed_hex_id(s, 3),
            },
    {
        TradeId::parse_str(s)
    }
}

/// Rendering a trade id and parsing it back yields the same id.
pub proof fn lemma_trade_id_hex_roundtrip(id: TradeId, s: &str)
    requires
        s@ == hex_fields(id.fields()),
    ensures
        well_formed_hex_id(s, 3),
        seq![hex_id_field(s, 0), hex_id_field(s, 1), hex_id_field(s, 2)] == id.fields(),
{
    lemma_hex_fields_roundtrip(id.fields());
    assert(hex_digits_u64(chunk16(s@, 0)) == Some(id.fields()[0]));
    assert(hex_digits_u64(chunk16(s@, 1)) == Some(id.fields()[1]));
    assert(hex_digits_u64(chunk16(s@, 2)) == Some(id.fields()[2]));
    assert(seq![hex_id_field(s, 0), hex_id_field(s, 1), hex_id_field(s, 2)] =~= id.fields());
}

/// The byte layout of order ids keeps their order: comparing two ids' bytes
/// lexicographically is comparing their `(book id, sequence)` pairs, so an
/// ordered byte-keyed store walks orders in id order.
pub proof fn lemma_order_id_bytes_keep_order(a: OrderId, b: OrderId, ba: Seq<u8>, bb: Seq<u8>)
    requires
        ba.len() == 16,
        bb.len() == 16,
        be_value(ba.subrange(0, 8)) == a.spec_book_id()@,
        be_value(ba.subrange(8, 16)) == a.spec_seq()@,
        be_value(bb.subrange(0, 8)) == b.spec_book_id()@,
        be_value(bb.subrange(8, 16)) == b.spec_seq()@,
    ensures
        crate::bytes::lex_lt(ba, bb) <==> (a.spec_book_id()@ < b.spec_book_id()@ || (a.spec_book_id()@ == b.spec_book_id()@
            && a.spec_seq()@ < b.spec_seq()@)),
{
    lemma_pow256_values();
    assert(ba =~= ba.subrange(0, 8) + ba.subrange(8, 16));
    assert(bb =~= bb.subrange(0, 8) + bb.subrange(8, 16));
    crate::bytes::lemma_be_value_concat(ba.subrange(0, 8), ba.subrange(8, 16));
    crate::bytes::lemma_be_value_concat(bb.subrange(0, 8), bb.subrange(8, 16));
    crate::bytes::lemma_be_order_is_lex(ba, bb);
    let x1 = a.spec_book_id()@ as nat;
    let y1 = a.spec_seq()@ as nat;
    let x2 = b.spec_book_id()@ as nat;
    let y2 = b.spec_seq()@ as nat;
    let p = 0x1_0000_0000_0000_0000nat;
    assert((x1 * p + y1 < x2 * p + y2) <==> (x1 < x2 || (x1 == x2 && y1 < y2))) by (nonlinear_arith)
        requires y1 < p, y2 < p;
}

} // verus!
