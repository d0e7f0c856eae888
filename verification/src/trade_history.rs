//! Side-projected trades: one record per order and fill, kept under an id
//! that starts with the order's id, so one order's trades are a key range,
//! and indexed under the order's owner for the account-wide read.
use vstd::prelude::*;
use crate::history::{first_n, lemma_newest_first_suffix, newest_first, range_desc, History, RangeEnd};
use crate::identity::UserId;
use crate::ids::{CursorNotFound, FillSeq, OrderId, TradeId};
use crate::settlement::TradeRecord;

verus! {

/// One side-projected trade with its key.
pub type TradeLeg = (TradeId, TradeRecord);

/// Append-only store of side-projected trade records.
pub struct TradeHistory(History<TradeId, TradeRecord>);

/// The upper end of one order's trades: all of them, or those before the
/// cursor.
pub open spec fn order_upper(order: OrderId, after: Option<TradeId>) -> RangeEnd<TradeId> {
    match after {
        None => RangeEnd::Included(TradeId::spec_last_of(order)),
        Some(id) => RangeEnd::Excluded(id),
    }
}

impl TradeHistory {
    pub closed spec fn store(&self) -> History<TradeId, TradeRecord> {
        self.0
    }

    pub open spec fn wf(&self) -> bool {
        self.store().wf()
    }

    /// The trade recorded under `id`.
    pub open spec fn trade_of(&self, id: TradeId) -> Option<TradeRecord> {
        self.store().record_of(id)
    }

    /// An empty history.
    pub fn new() -> (h: TradeHistory)
        ensures
            h.wf(),
            h.store().entries().len() == 0,
            h.store().index().len() == 0,
    {
        TradeHistory(History::new())
    }

    /// The number of trade records.
    pub fn len(&self) -> (n: u64)
        requires
            self.wf(),
        ensures
            n == self.store().entries().len(),
    {
        self.0.len()
    }

    /// Record a match's two legs: the taker's and the maker's, each under its
    /// own id and indexed under its order's owner, taker first.
    pub fn append(&mut self, taker_leg: TradeLeg, taker_user: UserId, maker_leg: TradeLeg, maker_user: UserId)
        requires
            old(self).wf(),
            old(self).trade_of(taker_leg.0) is None,
            old(self).trade_of(maker_leg.0) is None,
            taker_leg.0 != maker_leg.0,
            old(self).store().index().len() + 2 <= u64::MAX,
        ensures
            final(self).wf(),
            final(self).store().index() == old(self).store().index().push((taker_user, taker_leg.0)).push(
                (maker_user, maker_leg.0),
            ),
            final(self).trade_of(taker_leg.0) == Some(taker_leg.1),
            final(self).trade_of(maker_leg.0) == Some(maker_leg.1),
            forall|k: TradeId| k != taker_leg.0 && k != maker_leg.0 ==> #[trigger] final(self).trade_of(k)
                == old(self).trade_of(k),
    {
        let (taker_id, taker_trade) = taker_leg;
        let (maker_id, maker_trade) = maker_leg;
        self.0.insert_once(taker_user, taker_id, taker_trade);
        self.0.insert_once(maker_user, maker_id, maker_trade);
    }

    /// Up to `length` of `order`'s trades, newest (highest fill sequence)
    /// first, from the newest or from just below the cursor `after`, which
    /// must be one of `order`'s own trades; anything else, the counterparty's
    /// leg of the same fill included, is [`CursorNotFound`].
    pub fn trades_for_order(&self, order: OrderId, after: Option<TradeId>, length: usize) -> (r: Result<
        Vec<(FillSeq, TradeRecord)>,
        CursorNotFound,
    >)
        requires
            self.wf(),
        ensures
            (after matches Some(id) && (id.spec_order_id() != order || self.trade_of(id) is None)) <==> r is Err,
            r matches Ok(page) ==> {
                let picked = first_n(
                    range_desc(
                        self.store().entries(),
                        TradeId::spec_first_of(order),
                        order_upper(order, after),
                        self.store().entries().len() as int,
                    ),
                    length as nat,
                );
                &&& page@.len() == picked.len()
                &&& forall|i: int| 0 <= i < page@.len() ==> #[trigger] page@[i] == (picked[i].0.spec_seq(), picked[i].1)
            },
    {
        let upper = match after {
            None => RangeEnd::Included(TradeId::last_of(order)),
            Some(id) => {
                if id.order_id() != order || !self.0.contains_key(&id) {
                    return Err(CursorNotFound);
                }
                RangeEnd::Excluded(id)
            },
        };
        let trades = self.0.range_primary(TradeId::first_of(order), upper, length);
        let mut out: Vec<(FillSeq, TradeRecord)> = Vec::new();
        let mut i: usize = 0;
        while i < trades.len()
            invariant
                i <= trades@.len(),
                out@.len() == i,
                forall|j: int| 0 <= j < i ==> #[trigger] out@[j] == (trades@[j].0.spec_seq(), trades@[j].1),
            decreases trades@.len() - i,
        {
            out.push((trades[i].0.seq(), trades[i].1));
            i = i + 1;
        }
        Ok(out)
    }

    /// Up to `length` of `user`'s trades over all their orders, newest first,
    /// each with its id; the cursor works as in [`History::page_by_user`].
    pub fn trades_after(&self, user: UserId, after: Option<TradeId>, length: usize) -> (r: Result<
        Vec<(TradeId, TradeRecord)>,
        CursorNotFound,
    >)
        requires
            self.wf(),
        ensures
            r is Err <==> self.store().page_spec(user, after, length as nat) is Err,
            r matches Ok(page) ==> {
                let ids = self.store().page_spec(user, after, length as nat)->Ok_0;
                &&& page@.len() == ids.len()
                &&& forall|i: int| 0 <= i < page@.len() ==> #[trigger] page@[i].0 == ids[i] && self.trade_of(ids[i])
                    == Some(page@[i].1)
            },
    {
        let ids = match self.0.page_by_user(user, after, length) {
            Ok(ids) => ids,
            Err(e) => return Err(e),
        };
        let ghost idx = self.store().index();
        let ghost below: int = match after {
            None => idx.len() as int,
            Some(c) => choose|s: int| 0 <= s < idx.len() && #[trigger] idx[s] == (user, c),
        };
        proof {
            assert(ids@ == first_n(newest_first(idx, user, below), length as nat));
        }
        let mut out: Vec<(TradeId, TradeRecord)> = Vec::new();
        let mut i: usize = 0;
        while i < ids.len()
            invariant
                self.wf(),
                idx == self.store().index(),
                0 <= below <= idx.len(),
                ids@ == first_n(newest_first(idx, user, below), length as nat),
                i <= ids@.len(),
                out@.len() == i,
                forall|j: int| 0 <= j < i ==> #[trigger] out@[j].0 == ids@[j] && self.trade_of(ids@[j]) == Some(out@[j].1),
            decreases ids@.len() - i,
        {
            let id = ids[i];
            proof {
                let nf = newest_first(idx, user, below);
                assert(ids@[i as int] == nf[i as int]);
                let p = lemma_newest_first_suffix(idx, user, below, i as int);
                self.0.lemma_indexed_key_recorded(p);
            }
            let trade = self.0.get(&id).unwrap();
            out.push((id, trade));
            i = i + 1;
        }
        Ok(out)
    }
}

} // verus!
