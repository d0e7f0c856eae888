//! A user's balance of one token, split into free and reserved funds, and
//! its fixed 64-byte storage layout.
use vstd::prelude::*;
use crate::bytes::be_value;
use crate::quantity::{pow2_256, Quantity};

verus! {

broadcast use {Quantity::lemma_view_injective, Quantity::lemma_bound};

/// A user's balance for a given token.
///
/// - `free`: funds available for new orders or withdrawal.
/// - `reserved`: funds locked by open orders.
#[derive(Debug, Clone, Copy, PartialEq, Eq, Structural)]
pub struct Balance {
    free: Quantity,
    reserved: Quantity,
}

/// Not enough free funds: what was there and what was asked for.
#[derive(Debug, Clone, Copy, PartialEq, Eq, Structural)]
pub struct InsufficientBalanceError {
    pub available: Quantity,
    pub required: Quantity,
}

/// Free and reserved amounts after moving `amount` from free to reserved.
pub open spec fn reserve_view(b: (nat, nat), amount: nat) -> (nat, nat) {
    ((b.0 - amount) as nat, b.1 + amount)
}

/// Free and reserved amounts after moving `amount` from reserved to free.
pub open spec fn unreserve_view(b: (nat, nat), amount: nat) -> (nat, nat) {
    (b.0 + amount, (b.1 - amount) as nat)
}

impl View for Balance {
    type V = (nat, nat);

    closed spec fn view(&self) -> (nat, nat) {
        (self.free@, self.reserved@)
    }
}

impl Balance {
    pub closed spec fn spec_free(&self) -> Quantity {
        self.free
    }

    pub closed spec fn spec_reserved(&self) -> Quantity {
        self.reserved
    }

    pub broadcast proof fn lemma_view(b: Balance)
        ensures
            #[trigger] b@ == (b.spec_free()@, b.spec_reserved()@),
    {
    }

    /// Balances with the same amounts are the same balance.
    pub broadcast proof fn lemma_view_injective(a: Balance, b: Balance)
        ensures
            #[trigger] a@ == #[trigger] b@ ==> a == b,
    {
    }

    pub fn zero() -> (b: Balance)
        ensures
            b@ == (0nat, 0nat),
    {
        Balance { free: Quantity::zero(), reserved: Quantity::zero() }
    }

    pub fn new(free: Quantity, reserved: Quantity) -> (b: Balance)
        ensures
            b.spec_free() == free,
            b.spec_reserved() == reserved,
            b@ == (free@, reserved@),
    {
        Balance { free, reserved }
    }

    pub fn new_free(free: Quantity) -> (b: Balance)
        ensures
            b.spec_free() == free,
            b@ == (free@, 0nat),
    {
        Balance::new(free, Quantity::zero())
    }

    pub fn new_reserved(reserved: Quantity) -> (b: Balance)
        ensures
            b.spec_reserved() == reserved,
            b@ == (0nat, reserved@),
    {
        Balance::new(Quantity::zero(), reserved)
    }

    pub fn free(&self) -> (r: &Quantity)
        ensures
            *r == self.spec_free(),
    {
        &self.free
    }

    pub fn reserved(&self) -> (r: &Quantity)
        ensures
            *r == self.spec_reserved(),
    {
        &self.reserved
    }

    /// Add `amount` to the free funds.
    pub fn deposit(&mut self, amount: Quantity)
        requires
            old(self)@.0 + amount@ < pow2_256(),
        ensures
            final(self)@ == (old(self)@.0 + amount@, old(self)@.1),
    {
        self.free = self.free.checked_add(amount).unwrap();
    }

    /// Debit `amount` from the reserved funds.
    pub fn debit_reserved(&mut self, amount: &Quantity)
        requires
            amount@ <= old(self)@.1,
        ensures
            final(self)@ == (old(self)@.0, (old(self)@.1 - amount@) as nat),
    {
        self.reserved = self.reserved.checked_sub(*amount).unwrap();
    }

    /// Move `amount` from reserved back to free.
    pub fn unreserve(&mut self, amount: Quantity)
        requires
            amount@ <= old(self)@.1,
            old(self)@.0 + amount@ < pow2_256(),
        ensures
            final(self)@ == unreserve_view(old(self)@, amount@),
    {
        self.reserved = self.reserved.checked_sub(amount).unwrap();
        self.free = self.free.checked_add(amount).unwrap();
    }

    /// Take `amount` out of the free funds; an error, with the balance
    /// unchanged, when the free funds are short.
    pub fn withdraw(&mut self, amount: Quantity) -> (r: Result<(), InsufficientBalanceError>)
        ensures
            r is Ok <==> amount@ <= old(self)@.0,
            r is Ok ==> final(self)@ == ((old(self)@.0 - amount@) as nat, old(self)@.1),
            r is Err ==> *final(self) == *old(self) && r == Err::<(), InsufficientBalanceError>(
                InsufficientBalanceError { available: old(self).spec_free(), required: amount },
            ),
    {
        match self.free.checked_sub(amount) {
            Some(rest) => {
                self.free = rest;
                Ok(())
            },
            None => Err(InsufficientBalanceError { available: self.free, required: amount }),
        }
    }

    /// Move `required` from free to reserved; an error, with the balance
    /// unchanged, when the free funds are short.
    pub fn reserve(&mut self, required: Quantity) -> (r: Result<(), InsufficientBalanceError>)
        requires
            required@ <= old(self)@.0 ==> old(self)@.1 + required@ < pow2_256(),
        ensures
            r is Ok <==> required@ <= old(self)@.0,
            r is Ok ==> final(self)@ == reserve_view(old(self)@, required@),
            r is Err ==> *final(self) == *old(self) && r == Err::<(), InsufficientBalanceError>(
                InsufficientBalanceError { available: old(self).spec_free(), required },
            ),
    {
        match self.free.checked_sub(required) {
            Some(rest) => {
                self.free = rest;
                self.reserved = self.reserved.checked_add(required).unwrap();
                Ok(())
            },
            None => Err(InsufficientBalanceError { available: self.free, required }),
        }
    }

    /// Whether both the free and the reserved funds are zero.
    pub fn is_zero(&self) -> (r: bool)
        ensures
            r <==> self@ == (0nat, 0nat),
    {
        self.free.is_zero() && self.reserved.is_zero()
    }
}

/// Reserving an amount and then releasing it gives back the balance it started from.
pub proof fn lemma_reserve_then_unreserve(b: (nat, nat), amount: nat)
    requires
        amount <= b.0,
    ensures
        unreserve_view(reserve_view(b, amount), amount) == b,
{
}

/// Moving funds between free and reserved keeps their total.
pub proof fn lemma_reserve_keeps_total(b: (nat, nat), amount: nat)
    requires
        amount <= b.0,
    ensures
        reserve_view(b, amount).0 + reserve_view(b, amount).1 == b.0 + b.1,
        amount <= b.1 ==> unreserve_view(b, amount).0 + unreserve_view(b, amount).1 == b.0 + b.1,
{
}

/// A balance row read out of a balance store for modification, remembering
/// whether the store held it.
#[derive(Debug, Clone, Copy, PartialEq, Eq, Structural)]
pub struct BalanceRow {
    pub balance: Balance,
    pub existed: bool,
}

impl BalanceRow {
    /// The row for what the store returned: the stored balance, or an
    /// empty balance when it held none.
    pub fn from_stored(stored: Option<Balance>) -> (r: BalanceRow)
        ensures
            r.existed == stored is Some,
            r.balance@ == match stored {
                Some(b) => b@,
                None => (0nat, 0nat),
            },
    {
        match stored {
            Some(b) => BalanceRow { balance: b, existed: true },
            None => BalanceRow { balance: Balance::zero(), existed: false },
        }
    }

    /// A row is worth writing back iff it existed before or now holds a
    /// non-zero balance, so no-op changes never create empty rows.
    pub fn worth_persisting(&self) -> (r: bool)
        ensures
            r <==> self.existed || self.balance@ != (0nat, 0nat),
    {
        self.existed || !self.balance.is_zero()
    }
}

/// Free and reserved amounts read back from a stored balance: the first 32
/// bytes and the rest, each big-endian.
pub open spec fn balance_decode(bytes: Seq<u8>) -> (nat, nat) {
    (be_value(bytes.subrange(0, 32)), be_value(bytes.subrange(32, bytes.len() as int)))
}

/// A [`Balance`] as stored: two 32-byte big-endian quantities,
/// `[free: 32][reserved: 32]`, 64 bytes in all.
#[derive(Clone, Copy, Debug, PartialEq, Eq, Structural)]
pub struct StorableBalance {
    pub free: Quantity,
    pub reserved: Quantity,
}

impl StorableBalance {
    pub fn from_balance(b: &Balance) -> (r: StorableBalance)
        ensures
            r.free == b.spec_free(),
            r.reserved == b.spec_reserved(),
    {
        StorableBalance { free: *b.free(), reserved: *b.reserved() }
    }

    pub fn to_balance(&self) -> (r: Balance)
        ensures
            r.spec_free() == self.free,
            r.spec_reserved() == self.reserved,
    {
        Balance::new(self.free, self.reserved)
    }

    /// The 64-byte layout.
    pub fn to_bytes(&self) -> (r: Vec<u8>)
        ensures
            r@.len() == 64,
            balance_decode(r@) == (self.free@, self.reserved@),
    {
        let f = self.free.to_be_bytes();
        let q = self.reserved.to_be_bytes();
        let mut out: Vec<u8> = Vec::new();
        let mut i: usize = 0;
        while i < 32
            invariant
                i <= 32,
                f@.len() == 32,
                out@ == f@.subrange(0, i as int),
            decreases 32 - i,
        {
            out.push(f[i]);
            proof {
                assert(f@.subrange(0, i + 1) =~= f@.subrange(0, i as int).push(f@[i as int]));
            }
            i = i + 1;
        }
        let mut j: usize = 0;
        while j < 32
            invariant
                j <= 32,
                f@.len() == 32,
                q@.len() == 32,
                out@ == f@ + q@.subrange(0, j as int),
            decreases 32 - j,
        {
            out.push(q[j]);
            proof {
                assert(q@.subrange(0, j + 1) =~= q@.subrange(0, j as int).push(q@[j as int]));
                assert(f@ + q@.subrange(0, j + 1) =~= (f@ + q@.subrange(0, j as int)).push(q@[j as int]));
            }
            j = j + 1;
        }
        proof {
            assert(out@.subrange(0, 32) =~= f@);
            assert(out@.subrange(32, 64) =~= q@);
        }
        out
    }

    /// Read a stored balance: the free amount from the first 32 bytes, the
    /// reserved amount from the rest (at most 32 bytes).
    pub fn from_bytes(bytes: &[u8]) -> (r: StorableBalance)
        requires
            32 <= bytes@.len() <= 64,
        ensures
            (r.free@, r.reserved@) == balance_decode(bytes@),
    {
        let n = bytes.len();
        let mut head: Vec<u8> = Vec::new();
        let mut tail: Vec<u8> = Vec::new();
        let mut i: usize = 0;
        while i < n
            invariant
                i <= n,
                n == bytes@.len(),
                32 <= n,
                head@ == bytes@.subrange(0, if i < 32 { i as int } else { 32 }),
                tail@ == bytes@.subrange(32, if i < 32 { 32 } else { i as int }),
            decreases n - i,
        {
            if i < 32 {
                head.push(bytes[i]);
                proof {
                    assert(bytes@.subrange(0, i + 1) =~= bytes@.subrange(0, i as int).push(bytes@[i as int]));
                }
            } else {
                tail.push(bytes[i]);
                proof {
                    assert(bytes@.subrange(32, i + 1) =~= bytes@.subrange(32, i as int).push(bytes@[i as int]));
                }
            }
            i = i + 1;
        }
        let free = Quantity::from_be_bytes(head.as_slice()).unwrap();
        let reserved = Quantity::from_be_bytes(tail.as_slice()).unwrap();
        StorableBalance { free, reserved }
    }
}

/// Storing a balance and reading it back gives the same balance.
pub proof fn lemma_storable_balance_roundtrip(sb: StorableBalance, bytes: Seq<u8>, back: StorableBalance)
    requires
        bytes.len() == 64,
        balance_decode(bytes) == (sb.free@, sb.reserved@),
        (back.free@, back.reserved@) == balance_decode(bytes),
    ensures
        back == sb,
{
}

} // verus!
