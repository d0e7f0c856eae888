//! Who holds what: principals as carried values, tokens identified by their
//! ledger principal's bytes, and users by their interned id.
use vstd::prelude::*;
use candid::Principal;
use crate::bytes::lex_lt;
use crate::order::PairToken;

verus! {

#[verifier::external_type_specification]
#[verifier::external_body]
pub struct ExPrincipal(Principal);

/// The bytes a principal is made of.
pub uninterp spec fn principal_bytes(p: Principal) -> Seq<u8>;

/// `Principal::as_slice`: the principal's bytes, copied out. A principal
/// holds a length and a 29-byte array and hands out the first `len` bytes,
/// so there are never more than 29.
#[verifier::external_body]
pub(crate) fn principal_to_bytes(p: &Principal) -> (r: Vec<u8>)
    ensures
        r@ == principal_bytes(*p),
        r@.len() <= 29,
{
    p.as_slice().to_vec()
}

/// `Principal::from_slice`: the principal made of `bytes`, which it copies
/// into its array; it panics on more than 29 bytes, hence the bound.
#[verifier::external_body]
fn principal_from_bytes(bytes: &[u8]) -> (p: Principal)
    requires
        bytes@.len() <= 29,
    ensures
        principal_bytes(p) == bytes@,
{
    Principal::from_slice(bytes)
}

/// The textual form of the principal made of `bytes`.
pub uninterp spec fn principal_text(bytes: Seq<u8>) -> Seq<char>;

/// `Principal::to_text`: the principal's textual form. It is computed from
/// the principal's bytes alone (a checksum and the bytes, in base 32, in
/// groups of five letters); the contract names that text and says no more.
#[verifier::external_body]
pub(crate) fn principal_to_text(p: &Principal) -> (r: String)
    ensures
        r@ == principal_text(principal_bytes(*p)),
{
    p.to_text()
}

/// Token order: shorter principals first, then byte by byte, as principals
/// themselves compare (their length field comes first).
pub open spec fn token_lt(a: Seq<u8>, b: Seq<u8>) -> bool {
    a.len() < b.len() || (a.len() == b.len() && lex_lt(a, b))
}

proof fn lemma_lex_irreflexive(a: Seq<u8>)
    ensures
        !lex_lt(a, a),
    decreases a.len(),
{
    if a.len() > 0 {
        lemma_lex_irreflexive(a.drop_first());
    }
}

proof fn lemma_lex_transitive(a: Seq<u8>, b: Seq<u8>, c: Seq<u8>)
    requires
        a.len() == b.len(),
        b.len() == c.len(),
        lex_lt(a, b),
        lex_lt(b, c),
    ensures
        lex_lt(a, c),
    decreases a.len(),
{
    if a.len() > 0 && a[0] == b[0] && b[0] == c[0] {
        lemma_lex_transitive(a.drop_first(), b.drop_first(), c.drop_first());
    }
}

proof fn lemma_lex_total(a: Seq<u8>, b: Seq<u8>)
    requires
        a.len() == b.len(),
        a != b,
    ensures
        lex_lt(a, b) || lex_lt(b, a),
    decreases a.len(),
{
    if a.len() == 0 {
        assert(a =~= b);
    } else if a[0] == b[0] {
        if a.drop_first() == b.drop_first() {
            assert(a =~= seq![a[0]] + a.drop_first());
            assert(b =~= seq![b[0]] + b.drop_first());
        }
        lemma_lex_total(a.drop_first(), b.drop_first());
    }
}

/// Token order is a strict total order.
pub proof fn lemma_token_order(a: Seq<u8>, b: Seq<u8>, c: Seq<u8>)
    ensures
        !token_lt(a, a),
        token_lt(a, b) ==> !token_lt(b, a),
        token_lt(a, b) && token_lt(b, c) ==> token_lt(a, c),
        a != b ==> token_lt(a, b) || token_lt(b, a),
{
    lemma_lex_irreflexive(a);
    if token_lt(a, b) && token_lt(b, a) {
        lemma_lex_transitive(a, b, a);
        lemma_lex_irreflexive(a);
    }
    if token_lt(a, b) && token_lt(b, c) && a.len() == c.len() {
        lemma_lex_transitive(a, b, c);
    }
    if a != b && a.len() == b.len() {
        lemma_lex_total(a, b);
    }
}

/// A listed token, identified by the principal of its ledger.
#[derive(Debug, PartialEq, Eq, Hash)]
pub struct TokenId {
    bytes: Vec<u8>,
}

impl View for TokenId {
    type V = Seq<u8>;

    closed spec fn view(&self) -> Seq<u8> {
        self.bytes@
    }
}

impl TokenId {
    #[verifier::type_invariant]
    closed spec fn holds_a_principal(self) -> bool {
        self.bytes@.len() <= 29
    }

    /// The token of the ledger `principal`.
    pub fn new(principal: Principal) -> (t: TokenId)
        ensures
            t@ == principal_bytes(principal),
    {
        TokenId { bytes: principal_to_bytes(&principal) }
    }

    /// The principal of the token's ledger.
    pub fn as_principal(&self) -> (p: Principal)
        ensures
            principal_bytes(p) == self@,
    {
        proof {
            use_type_invariant(self);
        }
        principal_from_bytes(self.bytes.as_slice())
    }

    /// A second handle on the same token.
    pub fn duplicate(&self) -> (t: TokenId)
        ensures
            t@ == self@,
    {
        proof {
            use_type_invariant(self);
        }
        let mut bytes: Vec<u8> = Vec::new();
        let mut i: usize = 0;
        while i < self.bytes.len()
            invariant
                i <= self.bytes@.len(),
                bytes@ == self.bytes@.take(i as int),
            decreases self.bytes@.len() - i,
        {
            bytes.push(self.bytes[i]);
            i = i + 1;
            proof {
                assert(bytes@ =~= self.bytes@.take(i as int));
            }
        }
        proof {
            assert(self.bytes@.take(i as int) =~= self.bytes@);
        }
        TokenId { bytes }
    }

    /// Whether both name the same token.
    pub fn same_as(&self, other: &TokenId) -> (r: bool)
        ensures
            r <==> self@ == other@,
    {
        if self.bytes.len() != other.bytes.len() {
            return false;
        }
        let mut i: usize = 0;
        while i < self.bytes.len()
            invariant
                i <= self.bytes@.len(),
                self.bytes@.len() == other.bytes@.len(),
                self.bytes@.take(i as int) == other.bytes@.take(i as int),
            decreases self.bytes@.len() - i,
        {
            if self.bytes[i] != other.bytes[i] {
                proof {
                    assert(self.bytes@[i as int] != other.bytes@[i as int]);
                }
                return false;
            }
            i = i + 1;
            proof {
                assert(self.bytes@.take(i as int) =~= other.bytes@.take(i as int));
            }
        }
        proof {
            assert(self.bytes@ =~= self.bytes@.take(i as int));
            assert(other.bytes@ =~= other.bytes@.take(i as int));
        }
        true
    }

    /// Whether this token comes before `other` in token order.
    pub fn precedes(&self, other: &TokenId) -> (r: bool)
        ensures
            r <==> token_lt(self@, other@),
    {
        if self.bytes.len() != other.bytes.len() {
            return self.bytes.len() < other.bytes.len();
        }
        let mut i: usize = 0;
        proof {
            assert(self.bytes@.skip(0) =~= self.bytes@);
            assert(other.bytes@.skip(0) =~= other.bytes@);
        }
        while i < self.bytes.len()
            invariant
                i <= self.bytes@.len(),
                self.bytes@.len() == other.bytes@.len(),
                lex_lt(self.bytes@, other.bytes@) == lex_lt(self.bytes@.skip(i as int), other.bytes@.skip(i as int)),
            decreases self.bytes@.len() - i,
        {
            let x = self.bytes[i];
            let y = other.bytes[i];
            proof {
                let s = self.bytes@.skip(i as int);
                let t = other.bytes@.skip(i as int);
                assert(s[0] == x && t[0] == y);
                assert(s.drop_first() =~= self.bytes@.skip(i + 1));
                assert(t.drop_first() =~= other.bytes@.skip(i + 1));
            }
            if x != y {
                return x < y;
            }
            i = i + 1;
        }
        proof {
            assert(self.bytes@.skip(i as int).len() == 0);
        }
        false
    }
}

impl Clone for TokenId {
    fn clone(&self) -> (t: Self)
        ensures
            t@ == self@,
    {
        self.duplicate()
    }
}

/// The two tokens a pair trades: the base, traded in lots, and the quote,
/// in which prices are given.
#[derive(Debug, PartialEq, Eq, Hash)]
pub struct TradingPair {
    pub base: TokenId,
    pub quote: TokenId,
}

impl TradingPair {
    /// The pair's token on the given side.
    pub fn token(&self, side: &PairToken) -> (t: TokenId)
        ensures
            t@ == match side {
                PairToken::Base => self.base@,
                PairToken::Quote => self.quote@,
            },
    {
        match side {
            PairToken::Base => self.base.duplicate(),
            PairToken::Quote => self.quote.duplicate(),
        }
    }
}

impl Clone for TradingPair {
    fn clone(&self) -> (p: Self)
        ensures
            p.base@ == self.base@,
            p.quote@ == self.quote@,
    {
        TradingPair { base: self.base.duplicate(), quote: self.quote.duplicate() }
    }
}

/// A user, by the id interned for their principal.
#[derive(Clone, Copy, Debug, PartialEq, Eq, Structural, PartialOrd, Ord, Hash)]
pub struct UserId(u64);

impl View for UserId {
    type V = u64;

    closed spec fn view(&self) -> u64 {
        self.0
    }
}

impl UserId {
    pub broadcast proof fn lemma_view_injective(a: UserId, b: UserId)
        ensures
            #[trigger] a@ == #[trigger] b@ ==> a == b,
    {
    }

    pub fn new(id: u64) -> (u: UserId)
        ensures
            u@ == id,
    {
        UserId(id)
    }

    pub fn get(self) -> (r: u64)
        ensures
            r == self@,
    {
        self.0
    }
}

} // verus!
