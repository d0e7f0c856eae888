//! Canister-wide token accounting: every user's balance of every token, and
//! the fees withheld from fills, per token.
//!
//! For each token, `Σ users (free + reserved) + fees` is its supply: deposits
//! add to it, withdrawals take from it, and every other operation keeps it.
use vstd::prelude::*;
use crate::assoc::{
    lemma_lookup_absent, lemma_lookup_at, lemma_lookup_insert, lemma_lookup_push, lemma_lookup_remove, lemma_lookup_update,
    lemma_lookup_update_any, lemma_lookup_update_keys, lookup, unique_keys,
};
use crate::balance::{reserve_view, unreserve_view, Balance, InsufficientBalanceError};
use crate::identity::{lemma_token_order, token_lt, TokenId, UserId};
use crate::quantity::{pow2_256, Quantity};

verus! {

broadcast use {Quantity::lemma_view_injective, Quantity::lemma_bound, Balance::lemma_view, Balance::lemma_view_injective, UserId::lemma_view_injective};

/// What the fee pool holds of one token: its accrued amount, zero if none.
pub open spec fn held(s: Seq<(Seq<u8>, nat)>, t: Seq<u8>) -> nat {
    match lookup(s, t) {
        Some(v) => v,
        None => 0,
    }
}

/// Entries in strictly ascending token order.
pub open spec fn token_sorted<V>(s: Seq<(Seq<u8>, V)>) -> bool {
    forall|i: int, j: int| 0 <= i < j < s.len() ==> token_lt(#[trigger] s[i].0, #[trigger] s[j].0)
}

proof fn lemma_sorted_unique<V>(s: Seq<(Seq<u8>, V)>)
    requires
        token_sorted(s),
    ensures
        unique_keys(s),
{
    assert forall|i: int, j: int| 0 <= i < j < s.len() implies #[trigger] s[i].0 != #[trigger] s[j].0 by {
        lemma_token_order(s[i].0, s[j].0, s[j].0);
    }
}

/// One token's accrued fees, as the pool hands them out and takes them back.
#[derive(Debug, PartialEq, Eq)]
pub struct FeeEntry {
    pub token: TokenId,
    pub amount: Quantity,
}

impl Clone for FeeEntry {
    fn clone(&self) -> (e: Self)
        ensures
            e.token@ == self.token@,
            e.amount == self.amount,
    {
        FeeEntry { token: self.token.duplicate(), amount: self.amount }
    }
}

/// An entry as a `(token, amount)` pair.
pub open spec fn entry_view(e: FeeEntry) -> (Seq<u8>, nat) {
    (e.token@, e.amount@)
}

/// A list of entries as `(token, amount)` pairs.
pub open spec fn entries_view(s: Seq<FeeEntry>) -> Seq<(Seq<u8>, nat)> {
    s.map_values(|e: FeeEntry| entry_view(e))
}

/// The fees withheld from fills, per token, in token order. Only tokens
/// that were ever charged a non-zero fee have an entry.
#[derive(Debug, PartialEq, Eq)]
pub struct FeePool {
    per_token: Vec<FeeEntry>,
}

impl View for FeePool {
    type V = Seq<(Seq<u8>, nat)>;

    closed spec fn view(&self) -> Seq<(Seq<u8>, nat)> {
        entries_view(self.per_token@)
    }
}

impl FeePool {
    pub open spec fn wf(&self) -> bool {
        token_sorted(self@)
    }

    /// An empty pool.
    pub fn new() -> (p: FeePool)
        ensures
            p.wf(),
            p@ == Seq::<(Seq<u8>, nat)>::empty(),
    {
        let p = FeePool { per_token: Vec::new() };
        proof {
            assert(p@ =~= Seq::<(Seq<u8>, nat)>::empty());
        }
        p
    }

    /// Where `token` is, or would go, in the pool: the first entry that does
    /// not come before it, and whether that entry is the token's own.
    fn position(&self, token: &TokenId) -> (r: (usize, bool))
        requires
            self.wf(),
        ensures
            r.0 <= self@.len(),
            forall|j: int| 0 <= j < r.0 ==> token_lt(#[trigger] self@[j].0, token@),
            r.1 <==> r.0 < self@.len() && self@[r.0 as int].0 == token@,
            !r.1 ==> forall|j: int| r.0 <= j < self@.len() ==> token_lt(token@, #[trigger] self@[j].0),
            !r.1 ==> forall|j: int| 0 <= j < self@.len() ==> #[trigger] self@[j].0 != token@,
    {
        let mut i: usize = 0;
        let mut done = false;
        while !done && i < self.per_token.len()
            invariant
                self.wf(),
                i <= self@.len(),
                self@.len() == self.per_token@.len(),
                forall|j: int| 0 <= j < i ==> token_lt(#[trigger] self@[j].0, token@),
                done ==> i < self@.len() && !token_lt(self@[i as int].0, token@),
            decreases self.per_token@.len() - i + (if done { 0int } else { 1int }),
        {
            if !self.per_token[i].token.precedes(token) {
                done = true;
            } else {
                i = i + 1;
            }
        }
        let found = i < self.per_token.len() && self.per_token[i].token.same_as(token);
        proof {
            if !found {
                if i < self@.len() {
                    lemma_token_order(self@[i as int].0, token@, token@);
                    assert(token_lt(token@, self@[i as int].0));
                }
                assert forall|j: int| i <= j < self@.len() implies token_lt(token@, #[trigger] self@[j].0) by {
                    if j > i {
                        assert(token_lt(self@[i as int].0, self@[j].0));
                        lemma_token_order(token@, self@[i as int].0, self@[j].0);
                    }
                }
                assert forall|j: int| 0 <= j < self@.len() implies #[trigger] self@[j].0 != token@ by {
                    lemma_token_order(token@, self@[j].0, self@[j].0);
                }
            }
        }
        (i, found)
    }

    /// Withhold `fee` out of `gross` for `token`, returning the net
    /// `gross - fee` owed to the creditor of the transfer. A zero fee leaves
    /// the pool as it is.
    pub fn withhold(&mut self, token: &TokenId, gross: Quantity, fee: Quantity) -> (net: Quantity)
        requires
            old(self).wf(),
            fee@ <= gross@,
            held(old(self)@, token@) + fee@ < pow2_256(),
        ensures
            final(self).wf(),
            net@ == gross@ - fee@,
            fee@ == 0 ==> final(self)@ == old(self)@,
            fee@ != 0 ==> lookup(final(self)@, token@) == Some(held(old(self)@, token@) + fee@),
            forall|t: Seq<u8>| t != token@ ==> lookup(#[trigger] final(self)@, t) == lookup(old(self)@, t),
    {
        let net = gross.checked_sub(fee).unwrap();
        if !fee.is_zero() {
            self.accrue(token, fee);
        }
        net
    }

    /// Add `amount` to what the pool holds of `token`, creating its entry.
    fn accrue(&mut self, token: &TokenId, amount: Quantity)
        requires
            old(self).wf(),
            held(old(self)@, token@) + amount@ < pow2_256(),
        ensures
            final(self).wf(),
            lookup(final(self)@, token@) == Some(held(old(self)@, token@) + amount@),
            forall|t: Seq<u8>| t != token@ ==> lookup(#[trigger] final(self)@, t) == lookup(old(self)@, t),
            (forall|j: int| 0 <= j < old(self)@.len() ==> token_lt(#[trigger] old(self)@[j].0, token@)) ==> final(self)@
                == old(self)@.push((token@, amount@)),
    {
        let ghost s = self@;
        proof {
            lemma_sorted_unique(s);
        }
        let (i, found) = self.position(token);
        if found {
            proof {
                lemma_lookup_at(s, i as int);
                lemma_token_order(token@, token@, token@);
            }
            let sum = self.per_token[i].amount.checked_add(amount).unwrap();
            let entry = FeeEntry { token: self.per_token[i].token.duplicate(), amount: sum };
            self.per_token.set(i, entry);
            proof {
                assert(self@ =~= s.update(i as int, (s[i as int].0, sum@)));
                lemma_lookup_update(s, i as int, sum@, token@);
                assert forall|t: Seq<u8>| t != token@ implies lookup(#[trigger] self@, t) == lookup(s, t) by {
                    lemma_lookup_update(s, i as int, sum@, t);
                }
                assert forall|a: int, b: int| 0 <= a < b < self@.len() implies token_lt(#[trigger] self@[a].0, #[trigger] self@[b].0) by {
                    assert(self@[a].0 == s[a].0 && self@[b].0 == s[b].0);
                }
            }
        } else {
            proof {
                lemma_lookup_absent(s, token@);
            }
            self.per_token.insert(i, FeeEntry { token: token.duplicate(), amount });
            proof {
                assert(self@ =~= s.insert(i as int, (token@, amount@)));
                lemma_lookup_insert(s, i as int, token@, amount@, token@);
                assert forall|t: Seq<u8>| t != token@ implies lookup(#[trigger] self@, t) == lookup(s, t) by {
                    lemma_lookup_insert(s, i as int, token@, amount@, t);
                }
                assert forall|a: int, b: int| 0 <= a < b < self@.len() implies token_lt(#[trigger] self@[a].0, #[trigger] self@[b].0) by {
                    if b < i {
                        assert(self@[a] == s[a] && self@[b] == s[b]);
                    } else if b == i {
                        assert(self@[a] == s[a]);
                    } else if a < i {
                        assert(self@[a] == s[a] && self@[b] == s[b - 1]);
                        lemma_token_order(s[a].0, token@, s[b - 1].0);
                    } else if a == i {
                        assert(self@[b] == s[b - 1]);
                    } else {
                        assert(self@[a] == s[a - 1] && self@[b] == s[b - 1]);
                    }
                }
                if forall|j: int| 0 <= j < s.len() ==> token_lt(#[trigger] s[j].0, token@) {
                    if i < s.len() {
                        lemma_token_order(token@, s[i as int].0, token@);
                    }
                    assert(self@ =~= s.push((token@, amount@)));
                }
            }
        }
    }

    /// The fees accrued for `token`; `None` if none ever were.
    pub fn accrued(&self, token: &TokenId) -> (r: Option<Quantity>)
        requires
            self.wf(),
        ensures
            match r {
                Some(q) => lookup(self@, token@) == Some(q@),
                None => lookup(self@, token@) is None,
            },
    {
        proof {
            lemma_sorted_unique(self@);
        }
        let (i, found) = self.position(token);
        if found {
            proof {
                lemma_lookup_at(self@, i as int);
            }
            Some(self.per_token[i].amount)
        } else {
            proof {
                lemma_lookup_absent(self@, token@);
            }
            None
        }
    }

    /// The pool's entries, in token order.
    pub fn snapshot(&self) -> (r: Vec<FeeEntry>)
        ensures
            entries_view(r@) == self@,
    {
        let mut r: Vec<FeeEntry> = Vec::new();
        let mut i: usize = 0;
        while i < self.per_token.len()
            invariant
                i <= self.per_token@.len(),
                r@.len() == i,
                forall|j: int| 0 <= j < i ==> entry_view(#[trigger] r@[j]) == self@[j],
            decreases self.per_token@.len() - i,
        {
            let c = self.per_token[i].clone();
            r.push(c);
            i = i + 1;
        }
        proof {
            assert(entries_view(r@) =~= self@);
        }
        r
    }

    /// The pool's entries as `(token, amount)` pairs, in token order.
    pub fn iter(&self) -> (r: Vec<(TokenId, Quantity)>)
        ensures
            r@.len() == self@.len(),
            forall|i: int| 0 <= i < r@.len() ==> (#[trigger] r@[i].0@, r@[i].1@) == self@[i],
    {
        let mut r: Vec<(TokenId, Quantity)> = Vec::new();
        let mut i: usize = 0;
        while i < self.per_token.len()
            invariant
                i <= self.per_token@.len(),
                r@.len() == i,
                forall|j: int| 0 <= j < i ==> (#[trigger] r@[j].0@, r@[j].1@) == self@[j],
            decreases self.per_token@.len() - i,
        {
            r.push((self.per_token[i].token.duplicate(), self.per_token[i].amount));
            i = i + 1;
        }
        r
    }

    /// Replace the pool by the entries of `snapshot`, which name each token
    /// at most once.
    pub fn restore(&mut self, snapshot: Vec<FeeEntry>)
        requires
            unique_keys(entries_view(snapshot@)),
        ensures
            final(self).wf(),
            forall|t: Seq<u8>| #[trigger] lookup(final(self)@, t) == lookup(entries_view(snapshot@), t),
            token_sorted(entries_view(snapshot@)) ==> final(self)@ == entries_view(snapshot@),
    {
        let ghost input = entries_view(snapshot@);
        self.per_token = Vec::new();
        proof {
            assert(self@ =~= Seq::<(Seq<u8>, nat)>::empty());
        }
        let mut k: usize = 0;
        while k < snapshot.len()
            invariant
                self.wf(),
                k <= snapshot@.len(),
                input == entries_view(snapshot@),
                unique_keys(input),
                forall|t: Seq<u8>| #[trigger] lookup(self@, t) == lookup(input.take(k as int), t),
                token_sorted(input) ==> self@ == input.take(k as int),
            decreases snapshot@.len() - k,
        {
            let entry = &snapshot[k];
            let ghost before = self@;
            let ghost prefix = input.take(k as int);
            proof {
                assert forall|j: int| 0 <= j < prefix.len() implies #[trigger] prefix[j].0 != entry.token@ by {
                    assert(input[j].0 != input[k as int].0);
                }
                lemma_lookup_absent(prefix, entry.token@);
                lemma_sorted_unique(before);
                assert(held(before, entry.token@) == 0);
                assert(input[k as int].0 == entry.token@);
                if token_sorted(input) {
                    assert forall|j: int| 0 <= j < before.len() implies token_lt(#[trigger] before[j].0, entry.token@) by {
                        assert(before[j] == input[j]);
                        assert(token_lt(input[j].0, input[k as int].0));
                    }
                }
            }
            self.accrue(&entry.token, entry.amount);
            k = k + 1;
            proof {
                let next = input.take(k as int);
                assert(next =~= prefix.push((entry.token@, entry.amount@)));
                assert(unique_keys(prefix)) by {
                    assert forall|a: int, b: int| 0 <= a < b < prefix.len() implies #[trigger] prefix[a].0 != #[trigger] prefix[b].0 by {
                        assert(input[a].0 != input[b].0);
                    }
                }
                assert(prefix.push((entry.token@, entry.amount@)) =~= prefix.insert(prefix.len() as int, (entry.token@, entry.amount@)));
                assert forall|t: Seq<u8>| #[trigger] lookup(self@, t) == lookup(next, t) by {
                    lemma_lookup_insert(prefix, prefix.len() as int, entry.token@, entry.amount@, t);
                }
            }
        }
        proof {
            assert(input.take(k as int) =~= input);
        }
    }

    /// Take `amount` of `token` out of the pool; an error, with the pool
    /// unchanged, when it holds less. An entry that reaches zero is dropped.
    pub fn drain(&mut self, token: &TokenId, amount: Quantity) -> (r: Result<(), InsufficientBalanceError>)
        requires
            old(self).wf(),
        ensures
            final(self).wf(),
            r is Ok <==> amount@ <= held(old(self)@, token@),
            r is Err ==> final(self)@ == old(self)@ && r->Err_0.available@ == held(old(self)@, token@)
                && r->Err_0.required == amount,
            r is Ok && amount@ > 0 && held(old(self)@, token@) == amount@ ==> lookup(final(self)@, token@) is None,
            r is Ok && held(old(self)@, token@) > amount@ ==> lookup(final(self)@, token@) == Some(
                (held(old(self)@, token@) - amount@) as nat,
            ),
            r is Ok && amount@ == 0 ==> final(self)@ == old(self)@,
            forall|t: Seq<u8>| t != token@ ==> lookup(#[trigger] final(self)@, t) == lookup(old(self)@, t),
    {
        let ghost s = self@;
        proof {
            lemma_sorted_unique(s);
        }
        let (i, found) = self.position(token);
        if !found {
            proof {
                lemma_lookup_absent(s, token@);
            }
            if amount.is_zero() {
                return Ok(());
            }
            return Err(InsufficientBalanceError { available: Quantity::zero(), required: amount });
        }
        proof {
            lemma_lookup_at(s, i as int);
        }
        let available = self.per_token[i].amount;
        match available.checked_sub(amount) {
            None => Err(InsufficientBalanceError { available, required: amount }),
            Some(rest) => {
                if amount.is_zero() {
                    return Ok(());
                }
                if rest.is_zero() {
                    self.per_token.remove(i);
                    proof {
                        assert(self@ =~= s.remove(i as int));
                        lemma_lookup_remove(s, i as int, token@);
                        assert forall|t: Seq<u8>| t != token@ implies lookup(#[trigger] self@, t) == lookup(s, t) by {
                            lemma_lookup_remove(s, i as int, t);
                        }
                        assert forall|a: int, b: int| 0 <= a < b < self@.len() implies token_lt(#[trigger] self@[a].0, #[trigger] self@[b].0) by {
                            if b < i {
                                assert(self@[a] == s[a] && self@[b] == s[b]);
                            } else if a < i {
                                assert(self@[a] == s[a] && self@[b] == s[b + 1]);
                            } else {
                                assert(self@[a] == s[a + 1] && self@[b] == s[b + 1]);
                            }
                        }
                    }
                } else {
                    let entry = FeeEntry { token: self.per_token[i].token.duplicate(), amount: rest };
                    self.per_token.set(i, entry);
                    proof {
                        assert(self@ =~= s.update(i as int, (s[i as int].0, rest@)));
                        lemma_lookup_update(s, i as int, rest@, token@);
                        assert forall|t: Seq<u8>| t != token@ implies lookup(#[trigger] self@, t) == lookup(s, t) by {
                            lemma_lookup_update(s, i as int, rest@, t);
                        }
                        assert forall|a: int, b: int| 0 <= a < b < self@.len() implies token_lt(#[trigger] self@[a].0, #[trigger] self@[b].0) by {
                            assert(self@[a].0 == s[a].0 && self@[b].0 == s[b].0);
                        }
                    }
                }
                Ok(())
            },
        }
    }
}

/// A balance row's key: the token, then the user.
#[derive(Debug, PartialEq, Eq, Hash)]
pub struct BalanceKey {
    token: TokenId,
    user: UserId,
}

impl View for BalanceKey {
    type V = (Seq<u8>, u64);

    closed spec fn view(&self) -> (Seq<u8>, u64) {
        (self.token@, self.user@)
    }
}

impl BalanceKey {
    pub fn new(token: TokenId, user: UserId) -> (k: BalanceKey)
        ensures
            k@ == (token@, user@),
    {
        BalanceKey { token, user }
    }

    pub fn token(&self) -> (t: &TokenId)
        ensures
            t@ == self@.0,
    {
        &self.token
    }

    pub fn user(&self) -> (u: &UserId)
        ensures
            u@ == self@.1,
    {
        &self.user
    }
}

impl Clone for BalanceKey {
    fn clone(&self) -> (k: Self)
        ensures
            k@ == self@,
    {
        BalanceKey { token: self.token.duplicate(), user: self.user }
    }
}

/// A row's contribution to the supply of token `t`: its free and reserved
/// funds if it is a row of `t`.
pub open spec fn row_share(row: ((Seq<u8>, u64), (nat, nat)), t: Seq<u8>) -> nat {
    if row.0.0 == t {
        row.1.0 + row.1.1
    } else {
        0
    }
}

/// What the users hold of token `t`, free and reserved, over all rows.
pub open spec fn users_total(rows: Seq<((Seq<u8>, u64), (nat, nat))>, t: Seq<u8>) -> nat
    decreases rows.len(),
{
    if rows.len() == 0 {
        0
    } else {
        users_total(rows.drop_last(), t) + row_share(rows.last(), t)
    }
}

proof fn lemma_total_push(rows: Seq<((Seq<u8>, u64), (nat, nat))>, row: ((Seq<u8>, u64), (nat, nat)), t: Seq<u8>)
    ensures
        users_total(rows.push(row), t) == users_total(rows, t) + row_share(row, t),
{
    assert(rows.push(row).drop_last() =~= rows);
}

proof fn lemma_total_update(rows: Seq<((Seq<u8>, u64), (nat, nat))>, i: int, v: (nat, nat), t: Seq<u8>)
    requires
        0 <= i < rows.len(),
    ensures
        users_total(rows.update(i, (rows[i].0, v)), t) + row_share(rows[i], t) == users_total(rows, t) + row_share(
            (rows[i].0, v),
            t,
        ),
    decreases rows.len(),
{
    let u = rows.update(i, (rows[i].0, v));
    if i == rows.len() - 1 {
        assert(u.drop_last() =~= rows.drop_last());
    } else {
        lemma_total_update(rows.drop_last(), i, v, t);
        assert(u.drop_last() =~= rows.drop_last().update(i, (rows[i].0, v)));
    }
}

proof fn lemma_total_remove(rows: Seq<((Seq<u8>, u64), (nat, nat))>, i: int, t: Seq<u8>)
    requires
        0 <= i < rows.len(),
    ensures
        users_total(rows.remove(i), t) + row_share(rows[i], t) == users_total(rows, t),
    decreases rows.len(),
{
    if i == rows.len() - 1 {
        assert(rows.remove(i) =~= rows.drop_last());
    } else {
        lemma_total_remove(rows.drop_last(), i, t);
        assert(rows.remove(i).drop_last() =~= rows.drop_last().remove(i));
        assert(rows.remove(i).last() == rows.last());
    }
}

/// How the fee pool moves when a transfer withholds `fee` of token `t0`.
proof fn lemma_transfer_supply(after: Seq<(Seq<u8>, nat)>, before: Seq<(Seq<u8>, nat)>, t0: Seq<u8>, fee: nat)
    requires
        fee != 0 ==> lookup(after, t0) == Some(held(before, t0) + fee),
        fee == 0 ==> after == before,
        forall|t: Seq<u8>| t != t0 ==> #[trigger] lookup(after, t) == lookup(before, t),
    ensures
        forall|t: Seq<u8>| #[trigger] held(after, t) == held(before, t) + (if t == t0 { fee } else { 0 }),
{
    assert forall|t: Seq<u8>| #[trigger] held(after, t) == held(before, t) + (if t == t0 { fee } else { 0 }) by {
        if t != t0 {
            assert(lookup(after, t) == lookup(before, t));
        }
    }
}

/// `after` is `before` with `amount` deposited into the free funds of
/// `(token, user)`; a zero deposit to a missing row creates none.
pub open spec fn deposited(before: TokenBalance, after: TokenBalance, user: u64, token: Seq<u8>, amount: nat) -> bool {
    &&& after.wf()
    &&& after.fees() == before.fees()
    &&& after.others_kept(&before, token, user)
    &&& after.balance_of(token, user) == match before.balance_of(token, user) {
        Some(b) => Some((b.0 + amount, b.1)),
        None => if amount == 0 { None } else { Some((amount, 0nat)) },
    }
    &&& forall|t: Seq<u8>| #[trigger] after.supply(t) == before.supply(t) + (if t == token { amount } else { 0 })
}

/// `after` and `r` are what withdrawing `amount` from the free funds of
/// `(token, user)` gives: the funds taken out when there are enough,
/// otherwise an error naming what there was, with the rows unchanged.
pub open spec fn withdrawn(
    before: TokenBalance,
    after: TokenBalance,
    user: u64,
    token: Seq<u8>,
    amount: Quantity,
    r: Result<(), InsufficientBalanceError>,
) -> bool {
    &&& after.wf()
    &&& after.fees() == before.fees()
    &&& r is Ok <==> amount@ <= before.free_of(token, user)
    &&& r is Ok ==> after.others_kept(&before, token, user) && after.balance_of(token, user) == match before.balance_of(
        token,
        user,
    ) {
        Some(b) => Some(((b.0 - amount@) as nat, b.1)),
        None => None,
    }
    &&& r is Ok ==> forall|t: Seq<u8>| #[trigger] after.supply(t) + (if t == token { amount@ } else { 0 }) == before.supply(t)
    &&& r is Err ==> after.rows() == before.rows() && r->Err_0.available@ == before.free_of(token, user) && r->Err_0.required
        == amount
}

/// `after` and `r` are what reserving `amount` of the free funds of
/// `(token, user)` gives: moved to reserved when there are enough,
/// otherwise an error naming what there was, with the rows unchanged.
pub open spec fn reserved(
    before: TokenBalance,
    after: TokenBalance,
    user: u64,
    token: Seq<u8>,
    amount: Quantity,
    r: Result<(), InsufficientBalanceError>,
) -> bool {
    &&& after.wf()
    &&& after.fees() == before.fees()
    &&& r is Ok <==> amount@ <= before.free_of(token, user)
    &&& r is Ok ==> after.others_kept(&before, token, user) && after.balance_of(token, user) == match before.balance_of(
        token,
        user,
    ) {
        Some(b) => Some(reserve_view(b, amount@)),
        None => None,
    }
    &&& r is Ok ==> forall|t: Seq<u8>| #[trigger] after.supply(t) == before.supply(t)
    &&& r is Err ==> after.rows() == before.rows() && r->Err_0.available@ == before.free_of(token, user) && r->Err_0.required
        == amount
}

/// `after` is `before` with `amount` moved from the reserved back to the
/// free funds of `(token, user)`.
pub open spec fn unreserved(before: TokenBalance, after: TokenBalance, user: u64, token: Seq<u8>, amount: nat) -> bool {
    &&& after.wf()
    &&& after.fees() == before.fees()
    &&& after.others_kept(&before, token, user)
    &&& after.balance_of(token, user) == Some(unreserve_view(before.balance_of(token, user)->Some_0, amount))
    &&& forall|t: Seq<u8>| #[trigger] after.supply(t) == before.supply(t)
}

/// A transfer of `gross` with `fee` withheld can be made: the debtor's
/// row holds `gross` reserved, the fee is at most the gross, and neither the
/// pool nor the creditor's free funds overflow.
pub open spec fn transfer_allowed(tb: TokenBalance, debtor: u64, creditor: u64, token: Seq<u8>, gross: nat, fee: nat) -> bool {
    &&& fee <= gross
    &&& held(tb.fees(), token) + fee < pow2_256()
    &&& tb.balance_of(token, debtor) matches Some(b) && gross <= b.1
    &&& tb.free_of(token, creditor) + gross - fee < pow2_256()
}

/// `after` is `before` with `gross` debited from the debtor's reserved
/// funds, `gross - fee` credited to the creditor's free funds (on the same
/// row for a self-transfer) and `fee` accrued to the token's pool.
pub open spec fn transferred(
    before: TokenBalance,
    after: TokenBalance,
    debtor: u64,
    creditor: u64,
    token: Seq<u8>,
    gross: nat,
    fee: nat,
) -> bool {
    &&& after.wf()
    &&& debtor != creditor ==> after.balance_of(token, debtor) == Some(
        (before.balance_of(token, debtor)->Some_0.0, (before.balance_of(token, debtor)->Some_0.1 - gross) as nat),
    )
    &&& debtor != creditor ==> after.balance_of(token, creditor) == match before.balance_of(token, creditor) {
        Some(b) => Some(((b.0 + gross - fee) as nat, b.1)),
        None => if gross == fee { None } else { Some(((gross - fee) as nat, 0nat)) },
    }
    &&& debtor == creditor ==> after.balance_of(token, debtor) == Some(
        (
            (before.balance_of(token, debtor)->Some_0.0 + gross - fee) as nat,
            (before.balance_of(token, debtor)->Some_0.1 - gross) as nat,
        ),
    )
    &&& forall|k: (Seq<u8>, u64)| k != (token, debtor) && k != (token, creditor) ==> lookup(#[trigger] after.rows(), k)
        == lookup(before.rows(), k)
    &&& fee != 0 ==> lookup(after.fees(), token) == Some(held(before.fees(), token) + fee)
    &&& fee == 0 ==> after.fees() == before.fees()
    &&& forall|t: Seq<u8>| t != token ==> lookup(#[trigger] after.fees(), t) == lookup(before.fees(), t)
    &&& forall|t: Seq<u8>| #[trigger] after.supply(t) == before.supply(t)
}

/// Every user's balance of every token, and the fees withheld from fills.
///
/// A row exists for a `(token, user)` once a non-zero amount was credited to
/// it; crediting nothing to a missing row creates none.
#[derive(Debug)]
pub struct TokenBalance {
    keys: Vec<BalanceKey>,
    values: Vec<Balance>,
    fee_pool: FeePool,
}

impl TokenBalance {
    /// The rows, as `((token, user), (free, reserved))`.
    pub closed spec fn rows(&self) -> Seq<((Seq<u8>, u64), (nat, nat))> {
        Seq::new(self.keys@.len(), |i: int| (self.keys@[i]@, self.values@[i]@))
    }

    /// The fee pool's entries, in token order.
    pub closed spec fn fees(&self) -> Seq<(Seq<u8>, nat)> {
        self.fee_pool@
    }

    pub closed spec fn wf(&self) -> bool {
        &&& self.keys@.len() == self.values@.len()
        &&& unique_keys(self.rows())
        &&& self.fee_pool.wf()
    }

    /// The balance of `user` in `token`, if it has a row.
    pub open spec fn balance_of(&self, token: Seq<u8>, user: u64) -> Option<(nat, nat)> {
        lookup(self.rows(), (token, user))
    }

    /// The free funds of `user` in `token`, zero without a row.
    pub open spec fn free_of(&self, token: Seq<u8>, user: u64) -> nat {
        match self.balance_of(token, user) {
            Some(b) => b.0,
            None => 0,
        }
    }

    /// The units of `token` the ledger accounts for: what every user holds,
    /// free and reserved, plus the fees accrued.
    pub open spec fn supply(&self, token: Seq<u8>) -> nat {
        users_total(self.rows(), token) + held(self.fees(), token)
    }

    /// Every row other than `(token, user)` is as it was.
    pub open spec fn others_kept(&self, old: &TokenBalance, token: Seq<u8>, user: u64) -> bool {
        forall|k: (Seq<u8>, u64)| k != (token, user) ==> lookup(#[trigger] self.rows(), k) == lookup(old.rows(), k)
    }

    /// An empty ledger.
    pub fn new() -> (tb: TokenBalance)
        ensures
            tb.wf(),
            tb.rows() == Seq::<((Seq<u8>, u64), (nat, nat))>::empty(),
            tb.fees() == Seq::<(Seq<u8>, nat)>::empty(),
    {
        let tb = TokenBalance { keys: Vec::new(), values: Vec::new(), fee_pool: FeePool::new() };
        proof {
            assert(tb.rows() =~= Seq::<((Seq<u8>, u64), (nat, nat))>::empty());
        }
        tb
    }

    /// The index of the row of `(token, user)`, if any.
    fn find(&self, token: &TokenId, user: UserId) -> (r: Option<usize>)
        requires
            self.wf(),
        ensures
            match r {
                Some(i) => i < self.rows().len() && self.rows()[i as int].0 == (token@, user@) && self.balance_of(
                    token@,
                    user@,
                ) == Some(self.rows()[i as int].1),
                None => self.balance_of(token@, user@) is None && forall|j: int|
                    0 <= j < self.rows().len() ==> #[trigger] self.rows()[j].0 != (token@, user@),
            },
    {
        let mut i: usize = 0;
        while i < self.keys.len()
            invariant
                self.wf(),
                i <= self.keys@.len(),
                forall|j: int| 0 <= j < i ==> #[trigger] self.rows()[j].0 != (token@, user@),
            decreases self.keys@.len() - i,
        {
            let key = &self.keys[i];
            if key.user == user && key.token.same_as(token) {
                proof {
                    assert(self.rows()[i as int].0 == (token@, user@));
                    lemma_lookup_at(self.rows(), i as int);
                }
                return Some(i);
            }
            proof {
                assert(self.rows()[i as int].0 == self.keys@[i as int]@);
            }
            i = i + 1;
        }
        proof {
            lemma_lookup_absent(self.rows(), (token@, user@));
        }
        None
    }

    /// Replace the balance of row `i`.
    fn set_row(&mut self, i: usize, b: Balance)
        requires
            old(self).wf(),
            i < old(self).rows().len(),
        ensures
            final(self).wf(),
            final(self).rows() == old(self).rows().update(i as int, (old(self).rows()[i as int].0, b@)),
            final(self).fees() == old(self).fees(),
    {
        let ghost rows = self.rows();
        self.values.set(i, b);
        proof {
            assert(self.rows() =~= rows.update(i as int, (rows[i as int].0, b@)));
            lemma_lookup_update_any(rows, i as int, b@);
        }
    }

    /// Add a row for a key that has none.
    fn push_row(&mut self, key: BalanceKey, b: Balance)
        requires
            old(self).wf(),
            forall|j: int| 0 <= j < old(self).rows().len() ==> #[trigger] old(self).rows()[j].0 != key@,
        ensures
            final(self).wf(),
            final(self).rows() == old(self).rows().push((key@, b@)),
            final(self).fees() == old(self).fees(),
    {
        let ghost rows = self.rows();
        let ghost k = key@;
        self.keys.push(key);
        self.values.push(b);
        proof {
            assert(self.rows() =~= rows.push((k, b@)));
            assert forall|a: int, c: int| 0 <= a < c < self.rows().len() implies #[trigger] self.rows()[a].0
                != #[trigger] self.rows()[c].0 by {
                if c < rows.len() {
                    assert(self.rows()[a] == rows[a] && self.rows()[c] == rows[c]);
                } else {
                    assert(self.rows()[a] == rows[a]);
                }
            }
        }
    }

    /// Drop row `i`.
    fn remove_row(&mut self, i: usize)
        requires
            old(self).wf(),
            i < old(self).rows().len(),
        ensures
            final(self).wf(),
            final(self).rows() == old(self).rows().remove(i as int),
            final(self).fees() == old(self).fees(),
    {
        let ghost rows = self.rows();
        self.keys.remove(i);
        self.values.remove(i);
        proof {
            assert(self.rows() =~= rows.remove(i as int));
            lemma_lookup_remove(rows, i as int, rows[i as int].0);
        }
    }

    /// Credit `amount` to the free funds of `(token, user)`, creating its row
    /// unless the amount is zero.
    fn credit(&mut self, token: &TokenId, user: UserId, amount: Quantity)
        requires
            old(self).wf(),
            old(self).free_of(token@, user@) + amount@ < pow2_256(),
        ensures
            final(self).wf(),
            final(self).fees() == old(self).fees(),
            final(self).others_kept(old(self), token@, user@),
            final(self).balance_of(token@, user@) == match old(self).balance_of(token@, user@) {
                Some(b) => Some((b.0 + amount@, b.1)),
                None => if amount@ == 0 { None } else { Some((amount@, 0nat)) },
            },
            forall|t: Seq<u8>| #[trigger] users_total(final(self).rows(), t) == users_total(old(self).rows(), t) + (if t
                == token@ { amount@ } else { 0 }),
    {
        let ghost rows = self.rows();
        match self.find(token, user) {
            Some(i) => {
                let mut b = self.values[i];
                b.deposit(amount);
                self.set_row(i, b);
                proof {
                    lemma_lookup_update_keys(rows, i as int, b@);
                    assert forall|t: Seq<u8>| #[trigger] users_total(self.rows(), t) == users_total(rows, t) + (if t
                        == token@ { amount@ } else { 0 }) by {
                        lemma_total_update(rows, i as int, b@, t);
                    }
                }
            },
            None => {
                if !amount.is_zero() {
                    self.push_row(BalanceKey::new(token.duplicate(), user), Balance::new_free(amount));
                    proof {
                        lemma_lookup_push(rows, (token@, user@), (amount@, 0nat));
                        assert forall|t: Seq<u8>| #[trigger] users_total(self.rows(), t) == users_total(rows, t) + (if t
                            == token@ { amount@ } else { 0 }) by {
                            lemma_total_push(rows, ((token@, user@), (amount@, 0nat)), t);
                        }
                    }
                }
            },
        }
    }

    /// The balance of `user` in `token`; `None` if the user never held any.
    pub fn get_balance(&self, user: UserId, token: &TokenId) -> (r: Option<Balance>)
        requires
            self.wf(),
        ensures
            match r {
                Some(b) => self.balance_of(token@, user@) == Some(b@),
                None => self.balance_of(token@, user@) is None,
            },
    {
        match self.find(token, user) {
            Some(i) => Some(self.values[i]),
            None => None,
        }
    }

    /// What `user` holds in `token`, free and reserved together.
    pub open spec fn held_of(&self, token: Seq<u8>, user: u64) -> nat {
        match self.balance_of(token, user) {
            Some(b) => b.0 + b.1,
            None => 0,
        }
    }

    /// Whether `user` can take a deposit of `amount` in `token` and still
    /// hold, free and reserved together, an amount in range; if so, the
    /// deposit itself is in range.
    pub fn can_hold_deposit(&self, user: UserId, token: &TokenId, amount: Quantity) -> (r: bool)
        requires
            self.wf(),
        ensures
            r <==> self.held_of(token@, user@) + amount@ < pow2_256(),
            r ==> self.free_of(token@, user@) + amount@ < pow2_256(),
    {
        match self.get_balance(user, token) {
            Some(b) => match b.free().checked_add(*b.reserved()) {
                Some(held) => held.checked_add(amount).is_some(),
                None => false,
            },
            None => true,
        }
    }

    /// Deposit `amount` into the free funds of `user` in `token`.
    pub fn deposit(&mut self, user: UserId, token: TokenId, amount: Quantity)
        requires
            old(self).wf(),
            old(self).free_of(token@, user@) + amount@ < pow2_256(),
        ensures
            deposited(*old(self), *final(self), user@, token@, amount@),
    {
        self.credit(&token, user, amount);
    }

    /// Withdraw `amount` from the free funds of `user` in `token`; an error,
    /// with nothing changed, when they are short (or missing).
    pub fn withdraw(&mut self, user: UserId, token: &TokenId, amount: Quantity) -> (r: Result<(), InsufficientBalanceError>)
        requires
            old(self).wf(),
        ensures
            withdrawn(*old(self), *final(self), user@, token@, amount, r),
    {
        let ghost rows = self.rows();
        match self.find(token, user) {
            Some(i) => {
                let mut b = self.values[i];
                match b.withdraw(amount) {
                    Ok(()) => {
                        self.set_row(i, b);
                        proof {
                            lemma_lookup_update_keys(rows, i as int, b@);
                            assert forall|t: Seq<u8>| #[trigger] users_total(self.rows(), t) + (if t == token@ {
                                amount@
                            } else {
                                0
                            }) == users_total(rows, t) by {
                                lemma_total_update(rows, i as int, b@, t);
                            }
                        }
                        Ok(())
                    },
                    Err(e) => Err(e),
                }
            },
            None => {
                if amount.is_zero() {
                    Ok(())
                } else {
                    Err(InsufficientBalanceError { available: Quantity::zero(), required: amount })
                }
            },
        }
    }

    /// Move `amount` from the free to the reserved funds of `user` in
    /// `token`; an error, with nothing changed, when the free funds are short
    /// (or missing).
    pub fn reserve(&mut self, user: UserId, token: &TokenId, amount: Quantity) -> (r: Result<(), InsufficientBalanceError>)
        requires
            old(self).wf(),
            old(self).balance_of(token@, user@) matches Some(b) ==> (amount@ <= b.0 ==> b.1 + amount@ < pow2_256()),
        ensures
            reserved(*old(self), *final(self), user@, token@, amount, r),
    {
        let ghost rows = self.rows();
        match self.find(token, user) {
            Some(i) => {
                let mut b = self.values[i];
                match b.reserve(amount) {
                    Ok(()) => {
                        self.set_row(i, b);
                        proof {
                            lemma_lookup_update_keys(rows, i as int, b@);
                            assert forall|t: Seq<u8>| #[trigger] users_total(self.rows(), t) == users_total(rows, t) by {
                                lemma_total_update(rows, i as int, b@, t);
                            }
                        }
                        Ok(())
                    },
                    Err(e) => Err(e),
                }
            },
            None => {
                if amount.is_zero() {
                    Ok(())
                } else {
                    Err(InsufficientBalanceError { available: Quantity::zero(), required: amount })
                }
            },
        }
    }

    /// Move `amount` from the reserved back to the free funds of `user` in
    /// `token`, whose row must exist and hold that much reserved.
    pub fn unreserve(&mut self, user: UserId, token: &TokenId, amount: Quantity)
        requires
            old(self).wf(),
            old(self).balance_of(token@, user@) matches Some(b) && amount@ <= b.1 && b.0 + amount@ < pow2_256(),
        ensures
            unreserved(*old(self), *final(self), user@, token@, amount@),
    {
        let ghost rows = self.rows();
        let i = self.find(token, user).unwrap();
        let mut b = self.values[i];
        b.unreserve(amount);
        self.set_row(i, b);
        proof {
            lemma_lookup_update_keys(rows, i as int, b@);
            assert forall|t: Seq<u8>| #[trigger] users_total(self.rows(), t) == users_total(rows, t) by {
                lemma_total_update(rows, i as int, b@, t);
            }
        }
    }

    /// Debit `gross` from the reserved funds of `debtor`, credit `gross - fee`
    /// to the free funds of `creditor` and accrue `fee` to the token's fee
    /// pool. The debtor's row must exist and hold `gross` reserved; a
    /// self-transfer lands the credit on the debited row.
    pub fn transfer(&mut self, debtor: UserId, creditor: UserId, token: &TokenId, gross: Quantity, fee: Quantity)
        requires
            old(self).wf(),
            transfer_allowed(*old(self), debtor@, creditor@, token@, gross@, fee@),
        ensures
            transferred(*old(self), *final(self), debtor@, creditor@, token@, gross@, fee@),
    {
        let ghost rows0 = self.rows();
        let ghost fees0 = self.fees();
        let ghost d = (token@, debtor@);
        let ghost c = (token@, creditor@);
        let net = self.fee_pool.withhold(token, gross, fee);
        proof {
            assert(self.rows() == rows0);
        }
        let i = self.find(token, debtor).unwrap();
        let mut b = self.values[i];
        b.debit_reserved(&gross);
        self.set_row(i, b);
        let ghost rows1 = self.rows();
        proof {
            lemma_lookup_update_keys(rows0, i as int, b@);
            assert(lookup(rows1, d) == Some(b@));
            assert forall|t: Seq<u8>| #[trigger] users_total(rows1, t) + (if t == token@ { gross@ } else { 0 })
                == users_total(rows0, t) by {
                lemma_total_update(rows0, i as int, b@, t);
            }
        }
        self.credit(token, creditor, net);
        proof {
            if debtor != creditor {
                assert(d != c);
                assert(lookup(self.rows(), d) == lookup(rows1, d));
                assert(lookup(rows1, c) == lookup(rows0, c));
            }
            assert forall|k: (Seq<u8>, u64)| k != d && k != c implies lookup(#[trigger] self.rows(), k) == lookup(
                rows0,
                k,
            ) by {
                assert(lookup(self.rows(), k) == lookup(rows1, k));
                assert(lookup(rows1, k) == lookup(rows0, k));
            }
            lemma_transfer_supply(self.fees(), fees0, token@, fee@);
            assert forall|t: Seq<u8>| #[trigger] self.supply(t) == old(self).supply(t) by {
                assert(users_total(self.rows(), t) == users_total(rows1, t) + (if t == token@ { net@ } else { 0 }));
                assert(users_total(rows1, t) + (if t == token@ { gross@ } else { 0 }) == users_total(rows0, t));
            }
        }
    }

    /// The fees accrued for `token`; `None` if none ever were.
    pub fn fee_balance(&self, token: &TokenId) -> (r: Option<Quantity>)
        requires
            self.wf(),
        ensures
            match r {
                Some(q) => lookup(self.fees(), token@) == Some(q@),
                None => lookup(self.fees(), token@) is None,
            },
    {
        self.fee_pool.accrued(token)
    }

    /// The fee pool as `(token, amount)` pairs, in token order.
    pub fn iter_fee_balances(&self) -> (r: Vec<(TokenId, Quantity)>)
        ensures
            r@.len() == self.fees().len(),
            forall|i: int| 0 <= i < r@.len() ==> (#[trigger] r@[i].0@, r@[i].1@) == self.fees()[i],
    {
        self.fee_pool.iter()
    }

    /// The fee pool's entries, in token order, to be kept across an upgrade;
    /// user balances are kept by their store.
    pub fn fee_pool_snapshot(&self) -> (r: Vec<FeeEntry>)
        ensures
            entries_view(r@) == self.fees(),
    {
        self.fee_pool.snapshot()
    }

    /// Replace the fee pool by `snapshot`, which names each token at most once.
    pub fn restore_fee_pool(&mut self, snapshot: Vec<FeeEntry>)
        requires
            old(self).wf(),
            unique_keys(entries_view(snapshot@)),
        ensures
            final(self).wf(),
            final(self).rows() == old(self).rows(),
            forall|t: Seq<u8>| #[trigger] lookup(final(self).fees(), t) == lookup(entries_view(snapshot@), t),
            token_sorted(entries_view(snapshot@)) ==> final(self).fees() == entries_view(snapshot@),
    {
        self.fee_pool.restore(snapshot);
    }

    /// Pay `amount` of `token`'s accrued fees out to the free funds of
    /// `recipient`; an error, with nothing changed, when the pool holds less.
    pub fn drain_fee_to(&mut self, token: &TokenId, amount: Quantity, recipient: UserId) -> (r: Result<(), InsufficientBalanceError>)
        requires
            old(self).wf(),
            old(self).free_of(token@, recipient@) + amount@ < pow2_256(),
        ensures
            final(self).wf(),
            r is Ok <==> amount@ <= held(old(self).fees(), token@),
            r is Err ==> final(self).rows() == old(self).rows() && final(self).fees() == old(self).fees()
                && r->Err_0.available@ == held(old(self).fees(), token@) && r->Err_0.required == amount,
            r is Ok ==> final(self).others_kept(old(self), token@, recipient@) && final(self).balance_of(token@, recipient@)
                == match old(self).balance_of(token@, recipient@) {
                Some(b) => Some((b.0 + amount@, b.1)),
                None => if amount@ == 0 { None } else { Some((amount@, 0nat)) },
            },
            r is Ok && amount@ > 0 && held(old(self).fees(), token@) == amount@ ==> lookup(final(self).fees(), token@) is None,
            r is Ok && held(old(self).fees(), token@) > amount@ ==> lookup(final(self).fees(), token@) == Some(
                (held(old(self).fees(), token@) - amount@) as nat,
            ),
            forall|t: Seq<u8>| t != token@ ==> lookup(#[trigger] final(self).fees(), t) == lookup(old(self).fees(), t),
            forall|t: Seq<u8>| #[trigger] final(self).supply(t) == old(self).supply(t),
    {
        let ghost fees0 = self.fees();
        let ghost rows0 = self.rows();
        match self.fee_pool.drain(token, amount) {
            Ok(()) => {
                self.credit(token, recipient, amount);
                proof {
                    assert forall|t: Seq<u8>| #[trigger] self.supply(t) == old(self).supply(t) by {
                        if t == token@ {
                            if amount@ == 0 {
                                assert(self.fees() == fees0);
                            } else if held(fees0, t) == amount@ {
                                assert(held(self.fees(), t) == 0);
                            } else {
                                assert(held(self.fees(), t) + amount@ == held(fees0, t));
                            }
                        } else {
                            assert(lookup(self.fees(), t) == lookup(fees0, t));
                        }
                    }
                }
                Ok(())
            },
            Err(e) => {
                proof {
                    assert(self.rows() == rows0);
                }
                Err(e)
            },
        }
    }
}

impl TokenBalance {
    /// Open a batch of balance operations over this ledger.
    pub fn write_back(self) -> (wb: BalanceWriteBack)
        requires
            self.wf(),
        ensures
            wb.wf(),
            wb.ledger() == self,
            wb.created().len() == 0,
    {
        BalanceWriteBack { ledger: self, created: Vec::new() }
    }
}

/// A batch of balance operations over the ledger, such as one settling
/// event makes: the operations apply as on the ledger itself, and when the
/// batch is flushed, a row that the batch created and left empty is not
/// kept, so a batch never leaves empty rows behind.
#[derive(Debug)]
pub struct BalanceWriteBack {
    ledger: TokenBalance,
    created: Vec<BalanceKey>,
}

impl BalanceWriteBack {
    /// The ledger as the batch has left it so far.
    pub closed spec fn ledger(&self) -> TokenBalance {
        self.ledger
    }

    /// The rows the batch created, in the order it created them.
    pub closed spec fn created(&self) -> Seq<(Seq<u8>, u64)> {
        self.created@.map_values(|k: BalanceKey| k@)
    }

    pub open spec fn wf(&self) -> bool {
        self.ledger().wf()
    }

    /// The created list after an operation on `(token, user)` that may have
    /// created its row.
    pub open spec fn noted(&self, before: &BalanceWriteBack, token: Seq<u8>, user: u64) -> bool {
        self.created() == if before.ledger().balance_of(token, user) is None && self.ledger().balance_of(token, user) is Some {
            before.created().push((token, user))
        } else {
            before.created()
        }
    }

    fn note_created(&mut self, token: &TokenId, user: UserId, existed: bool)
        requires
            old(self).wf(),
        ensures
            final(self).ledger() == old(self).ledger(),
            final(self).created() == if !existed && old(self).ledger().balance_of(token@, user@) is Some {
                old(self).created().push((token@, user@))
            } else {
                old(self).created()
            },
    {
        if !existed && self.ledger.find(token, user).is_some() {
            let ghost before = self.created();
            self.created.push(BalanceKey::new(token.duplicate(), user));
            proof {
                assert(self.created() =~= before.push((token@, user@)));
            }
        }
    }

    /// Deposit `amount` into the free funds of `user` in `token`.
    pub fn deposit(&mut self, user: UserId, token: &TokenId, amount: Quantity)
        requires
            old(self).wf(),
            old(self).ledger().free_of(token@, user@) + amount@ < pow2_256(),
        ensures
            deposited(old(self).ledger(), final(self).ledger(), user@, token@, amount@),
            final(self).noted(old(self), token@, user@),
    {
        let existed = self.ledger.find(token, user).is_some();
        self.ledger.deposit(user, token.duplicate(), amount);
        self.note_created(token, user, existed);
    }

    /// Withdraw `amount` from the free funds of `user` in `token`; an
    /// error, with nothing changed, when they are short (or missing).
    pub fn withdraw(&mut self, user: UserId, token: &TokenId, amount: Quantity) -> (r: Result<(), InsufficientBalanceError>)
        requires
            old(self).wf(),
        ensures
            withdrawn(old(self).ledger(), final(self).ledger(), user@, token@, amount, r),
            final(self).created() == old(self).created(),
    {
        self.ledger.withdraw(user, token, amount)
    }

    /// Move `amount` from the free to the reserved funds of `user` in
    /// `token`; an error, with nothing changed, when the free funds are short.
    pub fn reserve(&mut self, user: UserId, token: &TokenId, amount: Quantity) -> (r: Result<(), InsufficientBalanceError>)
        requires
            old(self).wf(),
            old(self).ledger().balance_of(token@, user@) matches Some(b) ==> (amount@ <= b.0 ==> b.1 + amount@ < pow2_256()),
        ensures
            reserved(old(self).ledger(), final(self).ledger(), user@, token@, amount, r),
            final(self).created() == old(self).created(),
    {
        self.ledger.reserve(user, token, amount)
    }

    /// Move `amount` from the reserved back to the free funds of `user` in
    /// `token`, whose row must exist and hold that much reserved.
    pub fn unreserve(&mut self, user: UserId, token: &TokenId, amount: Quantity)
        requires
            old(self).wf(),
            old(self).ledger().balance_of(token@, user@) matches Some(b) && amount@ <= b.1 && b.0 + amount@ < pow2_256(),
        ensures
            unreserved(old(self).ledger(), final(self).ledger(), user@, token@, amount@),
            final(self).created() == old(self).created(),
    {
        self.ledger.unreserve(user, token, amount)
    }

    /// Debit `gross` from the reserved funds of `debtor`, credit
    /// `gross - fee` to the free funds of `creditor` and accrue `fee` to the
    /// token's pool; a self-transfer lands the credit on the debited row.
    pub fn transfer(&mut self, debtor: UserId, creditor: UserId, token: &TokenId, gross: Quantity, fee: Quantity)
        requires
            old(self).wf(),
            transfer_allowed(old(self).ledger(), debtor@, creditor@, token@, gross@, fee@),
        ensures
            transferred(old(self).ledger(), final(self).ledger(), debtor@, creditor@, token@, gross@, fee@),
            final(self).noted(old(self), token@, creditor@),
    {
        let existed = self.ledger.find(token, creditor).is_some();
        self.ledger.transfer(debtor, creditor, token, gross, fee);
        self.note_created(token, creditor, existed);
    }

    /// Close the batch: the ledger as the operations left it, less the rows
    /// the batch created and left empty.
    pub fn flush(self) -> (tb: TokenBalance)
        requires
            self.wf(),
        ensures
            tb.wf(),
            tb.fees() == self.ledger().fees(),
            forall|k: (Seq<u8>, u64)| #[trigger] lookup(tb.rows(), k) == if self.created().contains(k) && lookup(
                self.ledger().rows(),
                k,
            ) == Some((0nat, 0nat)) {
                None
            } else {
                lookup(self.ledger().rows(), k)
            },
            forall|t: Seq<u8>| #[trigger] tb.supply(t) == self.ledger().supply(t),
    {
        let ghost orig = self.ledger.rows();
        let ghost created = self.created();
        let BalanceWriteBack { ledger, created: keys } = self;
        let mut tb = ledger;
        let mut j: usize = 0;
        proof {
            assert forall|k: (Seq<u8>, u64)| #[trigger] created.take(0).contains(k) == false by {}
        }
        while j < keys.len()
            invariant
                tb.wf(),
                j <= keys@.len(),
                created == keys@.map_values(|k: BalanceKey| k@),
                tb.fees() == self.ledger().fees(),
                orig == self.ledger().rows(),
                forall|k: (Seq<u8>, u64)| #[trigger] lookup(tb.rows(), k) == if created.take(j as int).contains(k) && lookup(
                    orig,
                    k,
                ) == Some((0nat, 0nat)) {
                    None
                } else {
                    lookup(orig, k)
                },
                forall|t: Seq<u8>| #[trigger] tb.supply(t) == self.ledger().supply(t),
            decreases keys@.len() - j,
        {
            let key = &keys[j];
            let ghost kj = key@;
            let ghost before = tb.rows();
            proof {
                assert forall|t: Seq<u8>| #[trigger] users_total(before, t) + held(tb.fees(), t) == self.ledger().supply(t) by {
                    assert(tb.supply(t) == self.ledger().supply(t));
                }
                assert(created[j as int] == kj);
                assert(created.take(j + 1) =~= created.take(j as int).push(kj));
                assert forall|k: (Seq<u8>, u64)| #[trigger] created.take(j + 1).contains(k) <==> (created.take(j as int).contains(k)
                    || k == kj) by {
                    if created.take(j as int).contains(k) {
                        let m = choose|m: int| 0 <= m < created.take(j as int).len() && created.take(j as int)[m] == k;
                        assert(created.take(j + 1)[m] == k);
                    }
                    if k == kj {
                        assert(created.take(j + 1)[j as int] == k);
                    }
                }
            }
            match tb.find(&key.token, key.user) {
                Some(i) => {
                    if tb.values[i].is_zero() {
                        tb.remove_row(i);
                        proof {
                            assert(before[i as int].0 == kj);
                            lemma_lookup_remove(before, i as int, kj);
                            assert forall|k: (Seq<u8>, u64)| k != kj implies #[trigger] lookup(tb.rows(), k) == lookup(before, k) by {
                                lemma_lookup_remove(before, i as int, k);
                            }
                            assert(before[i as int].1 == (0nat, 0nat));
                            assert forall|t: Seq<u8>| #[trigger] tb.supply(t) == self.ledger().supply(t) by {
                                lemma_total_remove(before, i as int, t);
                                assert(users_total(before, t) + held(tb.fees(), t) == self.ledger().supply(t));
                            }
                        }
                    }
                },
                None => {},
            }
            j = j + 1;
        }
        proof {
            assert(created.take(j as int) =~= created);
        }
        tb
    }
}

impl Default for TokenBalance {
    fn default() -> (tb: TokenBalance)
        ensures
            tb.wf(),
            tb.rows() == Seq::<((Seq<u8>, u64), (nat, nat))>::empty(),
            tb.fees() == Seq::<(Seq<u8>, nat)>::empty(),
    {
        TokenBalance::new()
    }
}

/// Crediting back the amount of a withdrawal that went through, as a failed
/// ledger transfer does, leaves the ledger as it was before the withdrawal:
/// every row, the fees, and the supply of every token.
pub proof fn lemma_withdraw_credit_back_restores(
    a: TokenBalance,
    b: TokenBalance,
    c: TokenBalance,
    user: u64,
    token: Seq<u8>,
    amount: Quantity,
)
    requires
        withdrawn(a, b, user, token, amount, Ok(())),
        deposited(b, c, user, token, amount@),
    ensures
        forall|k: (Seq<u8>, u64)| #[trigger] lookup(c.rows(), k) == lookup(a.rows(), k),
        c.fees() == a.fees(),
        forall|t: Seq<u8>| #[trigger] c.supply(t) == a.supply(t),
{
    assert forall|k: (Seq<u8>, u64)| #[trigger] lookup(c.rows(), k) == lookup(a.rows(), k) by {
        if k != (token, user) {
            assert(lookup(c.rows(), k) == lookup(b.rows(), k));
            assert(lookup(b.rows(), k) == lookup(a.rows(), k));
        }
    }
    assert forall|t: Seq<u8>| #[trigger] c.supply(t) == a.supply(t) by {
        assert(b.supply(t) + (if t == token { amount@ } else { 0 }) == a.supply(t));
        assert(c.supply(t) == b.supply(t) + (if t == token { amount@ } else { 0 }));
    }
}

/// Restoring the fee pool from its own snapshot gives back the same pool:
/// a snapshot names each token once and lists the tokens in order, so
/// `restore_fee_pool` takes it as it is, entry for entry.
pub proof fn lemma_fee_snapshot_roundtrip(tb: TokenBalance, snapshot: Seq<FeeEntry>)
    requires
        tb.wf(),
        entries_view(snapshot) == tb.fees(),
    ensures
        unique_keys(entries_view(snapshot)),
        token_sorted(entries_view(snapshot)),
{
    lemma_sorted_unique(tb.fees());
}

} // verus!
