//! One deposit or withdrawal at a time per caller and token. An operation
//! claims its `(caller, token)` pair before it starts and gives the claim
//! back when it ends; a second claim of a pair that is taken fails, claims
//! of other pairs are not affected.
use vstd::prelude::*;
use candid::Principal;
use crate::identity::{principal_bytes, principal_to_bytes, TokenId};

verus! {

/// The `(caller, token)` pairs with an operation under way.
pub struct InFlightOps {
    ops: Vec<(Vec<u8>, TokenId)>,
}

/// The claims in the order they were made, as pairs of byte strings.
pub open spec fn claim_keys(ops: Seq<(Vec<u8>, TokenId)>) -> Seq<(Seq<u8>, Seq<u8>)> {
    ops.map_values(|e: (Vec<u8>, TokenId)| (e.0@, e.1@))
}

proof fn lemma_remove_from_unique<A>(s: Seq<A>, i: int)
    requires
        s.no_duplicates(),
        0 <= i < s.len(),
    ensures
        s.remove(i).to_set() == s.to_set().remove(s[i]),
        s.remove(i).no_duplicates(),
{
    let t = s.remove(i);
    assert forall|x: A| #[trigger] t.to_set().contains(x) <==> s.to_set().remove(s[i]).contains(x) by {
        if t.contains(x) {
            let k = choose|k: int| 0 <= k < t.len() && t[k] == x;
            if k < i {
                assert(s[k] == x);
            } else {
                assert(s[k + 1] == x);
            }
        }
        if s.contains(x) && x != s[i] {
            let k = choose|k: int| 0 <= k < s.len() && s[k] == x;
            if k < i {
                assert(t[k] == x);
            } else {
                assert(t[k - 1] == x);
            }
        }
    }
    assert(t.to_set() =~= s.to_set().remove(s[i]));
}

proof fn lemma_push_to_set<A>(s: Seq<A>, a: A)
    ensures
        s.push(a).to_set() == s.to_set().insert(a),
{
    let t = s.push(a);
    assert forall|x: A| #[trigger] t.to_set().contains(x) <==> s.to_set().insert(a).contains(x) by {
        if t.contains(x) {
            let k = choose|k: int| 0 <= k < t.len() && t[k] == x;
            if k < s.len() {
                assert(s[k] == x);
            }
        }
        if s.contains(x) {
            let k = choose|k: int| 0 <= k < s.len() && s[k] == x;
            assert(t[k] == x);
        }
        if x == a {
            assert(t[s.len() as int] == x);
        }
    }
    assert(t.to_set() =~= s.to_set().insert(a));
}

impl InFlightOps {
    /// The pairs claimed.
    pub closed spec fn claimed(&self) -> Set<(Seq<u8>, Seq<u8>)> {
        claim_keys(self.ops@).to_set()
    }

    #[verifier::type_invariant]
    closed spec fn each_once(self) -> bool {
        claim_keys(self.ops@).no_duplicates()
    }

    /// No operation under way.
    pub fn new() -> (r: InFlightOps)
        ensures
            r.claimed() == Set::<(Seq<u8>, Seq<u8>)>::empty(),
    {
        let r = InFlightOps { ops: Vec::new() };
        proof {
            assert(claim_keys(r.ops@) =~= Seq::<(Seq<u8>, Seq<u8>)>::empty());
            assert(r.claimed() =~= Set::<(Seq<u8>, Seq<u8>)>::empty());
        }
        r
    }

    /// The number of operations under way.
    pub fn len(&self) -> (r: usize)
        ensures
            r == self.claimed().len(),
    {
        proof {
            use_type_invariant(self);
            claim_keys(self.ops@).unique_seq_to_set();
        }
        self.ops.len()
    }

    /// Where the claim of `(caller, token)` stands, if it is claimed.
    fn position(&self, caller: &Vec<u8>, token: &TokenId) -> (r: Option<usize>)
        ensures
            match r {
                Some(i) => i < self.ops@.len() && claim_keys(self.ops@)[i as int] == (caller@, token@),
                None => !self.claimed().contains((caller@, token@)),
            },
    {
        let mut i: usize = 0;
        while i < self.ops.len()
            invariant
                i <= self.ops@.len(),
                forall|j: int| 0 <= j < i ==> claim_keys(self.ops@)[j] != (caller@, token@),
            decreases self.ops@.len() - i,
        {
            let (c, t) = &self.ops[i];
            if same_bytes(c, caller) && t.same_as(token) {
                return Some(i);
            }
            i = i + 1;
        }
        proof {
            if claim_keys(self.ops@).to_set().contains((caller@, token@)) {
                let k = choose|k: int| 0 <= k < claim_keys(self.ops@).len() && claim_keys(self.ops@)[k] == (caller@, token@);
                assert(claim_keys(self.ops@)[k] != (caller@, token@));
            }
        }
        None
    }

    /// Whether `caller` has an operation under way in `token`.
    pub fn is_claimed(&self, caller: &Principal, token: &TokenId) -> (r: bool)
        ensures
            r <==> self.claimed().contains((principal_bytes(*caller), token@)),
    {
        let bytes = principal_to_bytes(caller);
        match self.position(&bytes, token) {
            Some(i) => {
                proof {
                    assert(claim_keys(self.ops@).contains((bytes@, token@)));
                }
                true
            },
            None => false,
        }
    }
}

/// Whether two byte strings are equal.
fn same_bytes(a: &Vec<u8>, b: &Vec<u8>) -> (r: bool)
    ensures
        r <==> a@ == b@,
{
    if a.len() != b.len() {
        return false;
    }
    let mut i: usize = 0;
    while i < a.len()
        invariant
            i <= a@.len(),
            a@.len() == b@.len(),
            a@.take(i as int) == b@.take(i as int),
        decreases a@.len() - i,
    {
        if a[i] != b[i] {
            proof {
                assert(a@[i as int] != b@[i as int]);
            }
            return false;
        }
        i = i + 1;
        proof {
            assert(a@.take(i as int) =~= b@.take(i as int));
        }
    }
    proof {
        assert(a@ =~= a@.take(i as int));
        assert(b@ =~= b@.take(i as int));
    }
    true
}

/// A claim on one `(caller, token)` pair, held for the length of one
/// deposit or withdrawal.
#[derive(Debug)]
pub struct UserOpGuard {
    caller: Vec<u8>,
    token: TokenId,
}

impl UserOpGuard {
    /// The pair claimed.
    pub closed spec fn key(&self) -> (Seq<u8>, Seq<u8>) {
        (self.caller@, self.token@)
    }

    /// Claim `(caller, token)`; `None`, with nothing changed, while an
    /// operation of `caller` in `token` is already under way.
    pub fn new(ops: &mut InFlightOps, caller: Principal, token: TokenId) -> (r: Option<UserOpGuard>)
        ensures
            r is Some <==> !old(ops).claimed().contains((principal_bytes(caller), token@)),
            match r {
                Some(g) => g.key() == (principal_bytes(caller), token@) && final(ops).claimed() == old(ops).claimed().insert(
                    g.key(),
                ),
                None => final(ops).claimed() == old(ops).claimed(),
            },
    {
        proof {
            use_type_invariant(&*ops);
        }
        let bytes = principal_to_bytes(&caller);
        match ops.position(&bytes, &token) {
            Some(i) => {
                proof {
                    assert(claim_keys(ops.ops@).contains((bytes@, token@)));
                }
                None
            },
            None => {
                let key = (bytes.clone(), token.duplicate());
                let ghost before = claim_keys(ops.ops@);
                let mut claims: Vec<(Vec<u8>, TokenId)> = Vec::new();
                std::mem::swap(&mut claims, &mut ops.ops);
                claims.push(key);
                proof {
                    assert(claim_keys(claims@) =~= before.push((bytes@, token@)));
                    lemma_push_to_set(before, (bytes@, token@));
                    assert forall|a: int, b: int| 0 <= a < b < claim_keys(claims@).len() implies claim_keys(
                        claims@,
                    )[a] != claim_keys(claims@)[b] by {
                        if b == before.len() {
                            assert(before.contains(before[a]));
                        }
                    }
                }
                ops.ops = claims;
                Some(UserOpGuard { caller: bytes, token })
            },
        }
    }

    /// Give the claim back: the pair is free again.
    pub fn release(self, ops: &mut InFlightOps)
        ensures
            final(ops).claimed() == old(ops).claimed().remove(self.key()),
    {
        proof {
            use_type_invariant(&*ops);
        }
        match ops.position(&self.caller, &self.token) {
            Some(i) => {
                let ghost before = claim_keys(ops.ops@);
                let mut claims: Vec<(Vec<u8>, TokenId)> = Vec::new();
                std::mem::swap(&mut claims, &mut ops.ops);
                claims.remove(i);
                proof {
                    assert(claim_keys(claims@) =~= before.remove(i as int));
                    lemma_remove_from_unique(before, i as int);
                }
                ops.ops = claims;
            },
            None => {
                proof {
                    assert(ops.claimed() =~= ops.claimed().remove(self.key()));
                }
            },
        }
    }
}

/// Claims exclude each other: once `(caller, token)` is claimed, claiming it
/// again fails until the claim is released, and after the release the pair
/// can be claimed again; claims of other pairs stay as they were.
pub proof fn lemma_claims_exclude(claimed: Set<(Seq<u8>, Seq<u8>)>, key: (Seq<u8>, Seq<u8>), other: (Seq<u8>, Seq<u8>))
    requires
        !claimed.contains(key),
    ensures
        claimed.insert(key).contains(key),
        !claimed.insert(key).remove(key).contains(key),
        claimed.insert(key).remove(key) == claimed,
        other != key ==> (claimed.insert(key).contains(other) <==> claimed.contains(other)),
{
    assert(claimed.insert(key).remove(key) =~= claimed);
}

} // verus!
