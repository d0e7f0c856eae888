//! Per-book figures exported as metrics.
use vstd::prelude::*;
use crate::book::{levels, OrderBook};
use crate::order::TokenMetadata;
use crate::quantity::Price;
use crate::text::{str_chars, string_from_chars};

verus! {

/// The upper-case form of an ASCII letter; other characters unchanged.
pub open spec fn ascii_upper(c: char) -> char {
    if 'a' <= c && c <= 'z' { ((c as u32) - 32) as char } else { c }
}

/// The token's symbol in upper case (ASCII letters only).
pub fn format_token_symbol(token: &TokenMetadata) -> (r: String)
    ensures
        r@ == token.symbol@.map_values(|c: char| ascii_upper(c)),
{
    let chars = str_chars(token.symbol.as_str());
    let mut out: Vec<char> = Vec::new();
    let mut i: usize = 0;
    while i < chars.len()
        invariant
            i <= chars@.len(),
            chars@ == token.symbol@,
            out@ == chars@.take(i as int).map_values(|c: char| ascii_upper(c)),
        decreases chars@.len() - i,
    {
        let c = chars[i];
        let u = if 'a' <= c && c <= 'z' { ((c as u8) - 32) as char } else { c };
        proof {
            assert(u == ascii_upper(c));
            assert(chars@.take(i + 1).map_values(|c: char| ascii_upper(c)) =~= chars@.take(i as int).map_values(
                |c: char| ascii_upper(c),
            ).push(ascii_upper(c)));
        }
        out.push(u);
        i = i + 1;
    }
    proof {
        assert(chars@.take(i as int) =~= chars@);
    }
    string_from_chars(&out)
}

/// The figures exported for one order book.
#[derive(Debug, Clone, PartialEq, Eq)]
pub struct OrderBookMetrics {
    pub base_token: String,
    pub quote_token: String,
    pub bid: Option<Price>,
    pub ask: Option<Price>,
    pub pending_orders_len: usize,
    pub resting_orders_len: usize,
}

impl OrderBookMetrics {
    /// The figures of `book`, whose pair trades `base` against `quote`:
    /// the symbols in upper case, the best bid and ask prices, and the
    /// numbers of pending and resting orders.
    pub fn from_book(base: &TokenMetadata, quote: &TokenMetadata, book: &OrderBook) -> (m: OrderBookMetrics)
        requires
            book.spec_bids().len() + book.spec_asks().len() <= usize::MAX,
        ensures
            m.base_token@ == base.symbol@.map_values(|c: char| ascii_upper(c)),
            m.quote_token@ == quote.symbol@.map_values(|c: char| ascii_upper(c)),
            m.bid == if levels(book.spec_bids()).len() > 0 { Some(levels(book.spec_bids())[0].0) } else { None },
            m.ask == if levels(book.spec_asks()).len() > 0 { Some(levels(book.spec_asks())[0].0) } else { None },
            m.pending_orders_len == book.spec_pending().len(),
            m.resting_orders_len == book.spec_bids().len() + book.spec_asks().len(),
    {
        let bids = book.bid_levels(1);
        let asks = book.ask_levels(1);
        let bid = if bids.len() > 0 { Some(bids[0].0) } else { None };
        let ask = if asks.len() > 0 { Some(asks[0].0) } else { None };
        OrderBookMetrics {
            base_token: format_token_symbol(base),
            quote_token: format_token_symbol(quote),
            bid,
            ask,
            pending_orders_len: book.pending_orders_len(),
            resting_orders_len: book.resting_orders_len(),
        }
    }

    /// The metric labels of the book: its base and quote symbols.
    pub fn labels(&self) -> (r: [(&str, &str); 2])
        ensures
            r@[0].0@ == "base"@,
            r@[0].1@ == self.base_token@,
            r@[1].0@ == "quote"@,
            r@[1].1@ == self.quote_token@,
    {
        [("base", self.base_token.as_str()), ("quote", self.quote_token.as_str())]
    }
}

} // verus!
