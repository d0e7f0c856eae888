//! Every order from submission through its terminal state, by order id, with
//! each user's orders paging back newest first.
use vstd::prelude::*;
use crate::history::{by_user_lt, lists_entry, History};
use crate::identity::UserId;
use crate::ids::{CursorNotFound, OrderId};
use crate::records::{applied, update_applies, update_changes, OrderRecord, OrderUpdate};
use crate::scheduler::Timestamp;

verus! {

/// The record of every order, each inserted once and then updated in place.
pub struct OrderHistory(History<OrderId, OrderRecord>);

impl OrderHistory {
    pub closed spec fn store(&self) -> History<OrderId, OrderRecord> {
        self.0
    }

    pub open spec fn wf(&self) -> bool {
        self.store().wf()
    }

    /// The record of order `id`.
    pub open spec fn record_of(&self, id: OrderId) -> Option<OrderRecord> {
        self.store().record_of(id)
    }

    /// An empty history.
    pub fn new() -> (h: OrderHistory)
        ensures
            h.wf(),
            forall|id: OrderId| #[trigger] h.record_of(id) is None,
            h.store().index().len() == 0,
    {
        let h = OrderHistory(History::new());
        proof {
            assert forall|id: OrderId| #[trigger] h.record_of(id) is None by {
                crate::assoc::lemma_lookup_absent(h.store().entries(), id);
            }
        }
        h
    }

    /// Insert the record of a new order and index it under `user`.
    pub fn insert_once(&mut self, user: UserId, id: OrderId, record: OrderRecord)
        requires
            old(self).wf(),
            old(self).record_of(id) is None,
            old(self).store().index().len() < u64::MAX,
        ensures
            final(self).wf(),
            final(self).store().index() == old(self).store().index().push((user, id)),
            final(self).record_of(id) == Some(record),
            forall|k: OrderId| k != id ==> #[trigger] final(self).record_of(k) == old(self).record_of(k),
    {
        self.0.insert_once(user, id, record);
    }

    /// The number of order records.
    pub fn len(&self) -> (n: u64)
        requires
            self.wf(),
        ensures
            n == self.store().entries().len(),
    {
        self.0.len()
    }

    /// A copy of the record of order `id`, or `None`.
    pub fn get(&self, id: &OrderId) -> (r: Option<OrderRecord>)
        requires
            self.wf(),
        ensures
            r == self.record_of(*id),
    {
        self.0.get(id)
    }

    /// Apply `update` to the record of order `id`, which must exist: set the
    /// status if the update carries one, add the amounts, and stamp
    /// `last_updated_at = Some(now)`. An update that changes nothing writes
    /// nothing and leaves `last_updated_at` as it was.
    pub fn apply_update(&mut self, id: &OrderId, update: OrderUpdate, now: Timestamp)
        requires
            old(self).wf(),
            old(self).record_of(*id) is Some,
            update_applies(old(self).record_of(*id)->Some_0, update),
        ensures
            final(self).wf(),
            final(self).store().index() == old(self).store().index(),
            final(self).record_of(*id) matches Some(after) && {
                let before = old(self).record_of(*id)->Some_0;
                if update_changes(before, update) {
                    applied(before, OrderRecord { last_updated_at: before.last_updated_at, ..after }, update)
                        && after.last_updated_at == Some(now)
                } else {
                    after == before
                }
            },
            forall|k: OrderId| k != *id ==> #[trigger] final(self).record_of(k) == old(self).record_of(k),
    {
        let f = |record: OrderRecord| -> (out: (OrderRecord, bool))
            requires
                update_applies(record, update),
            ensures
                out.1 == update_changes(record, update),
                out.1 ==> applied(record, OrderRecord { last_updated_at: record.last_updated_at, ..out.0 }, update)
                    && out.0.last_updated_at == Some(now),
            {
                let mut r = record;
                let changed = update.apply(&mut r);
                if changed {
                    r.last_updated_at = Some(now);
                }
                (r, changed)
            };
        self.0.modify(id, f);
    }

    /// Up to `length` of `user`'s orders, newest first, from the newest or
    /// from just below the cursor `after`; see [`History::page_by_user`].
    pub fn orders_after(&self, user: UserId, after: Option<OrderId>, length: usize) -> (r: Result<Vec<OrderId>, CursorNotFound>)
        requires
            self.wf(),
        ensures
            match r {
                Ok(page) => self.store().page_spec(user, after, length as nat) == Ok::<Seq<OrderId>, CursorNotFound>(
                    page@,
                ),
                Err(e) => self.store().page_spec(user, after, length as nat) == Err::<Seq<OrderId>, CursorNotFound>(e),
            },
    {
        self.0.page_by_user(user, after, length)
    }

    /// Every order record as `(order id, record)`, in id order.
    pub fn iter(&self) -> (r: Vec<(OrderId, OrderRecord)>)
        ensures
            r@ == self.store().entries(),
    {
        self.0.iter_primary()
    }

    /// The per-user index as `(user, insertion sequence, order id)`, by
    /// user and then by sequence.
    pub fn iter_by_user(&self) -> (r: Vec<(UserId, u64, OrderId)>)
        requires
            self.wf(),
        ensures
            r@.len() == self.store().index().len(),
            forall|a: int, b: int| 0 <= a < b < r@.len() ==> by_user_lt(#[trigger] r@[a], #[trigger] r@[b]),
            forall|a: int| 0 <= a < r@.len() ==> (#[trigger] r@[a]).1 < self.store().index().len() && self.store().index()[r@[a].1 as int]
                == (r@[a].0, r@[a].2),
            forall|t: int| 0 <= t < self.store().index().len() ==> #[trigger] lists_entry(r@, self.store().index()[t], t),
    {
        self.0.iter_by_user()
    }
}

} // verus!
