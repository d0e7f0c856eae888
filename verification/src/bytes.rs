//! Big-endian byte encodings of unsigned integers, the building block of the
//! fixed-width stable-memory layouts.
use vstd::prelude::*;

verus! {

/// `256^n`.
pub open spec fn pow256(n: nat) -> nat
    decreases n,
{
    if n == 0 {
        1
    } else {
        256 * pow256((n - 1) as nat)
    }
}

/// The unsigned integer a big-endian byte string denotes.
pub open spec fn be_value(s: Seq<u8>) -> nat
    decreases s.len(),
{
    if s.len() == 0 {
        0
    } else {
        be_value(s.drop_last()) * 256 + s.last() as nat
    }
}

pub proof fn lemma_pow256_pos(n: nat)
    ensures
        pow256(n) >= 1,
    decreases n,
{
    if n > 0 {
        lemma_pow256_pos((n - 1) as nat);
    }
}

pub proof fn lemma_pow256_values()
    ensures
        pow256(8) == 0x1_0000_0000_0000_0000nat,
        pow256(16) == 0x1_0000_0000_0000_0000_0000_0000_0000_0000nat,
{
    reveal_with_fuel(pow256, 17);
}

pub proof fn lemma_pow256_monotone(a: nat, b: nat)
    requires
        a <= b,
    ensures
        pow256(a) <= pow256(b),
    decreases b,
{
    if a < b {
        lemma_pow256_monotone(a, (b - 1) as nat);
        lemma_pow256_pos((b - 1) as nat);
    }
}

/// A string of `n` bytes denotes a value below `256^n`.
pub proof fn lemma_be_value_bound(s: Seq<u8>)
    ensures
        be_value(s) < pow256(s.len()),
    decreases s.len(),
{
    if s.len() > 0 {
        lemma_be_value_bound(s.drop_last());
        assert(be_value(s.drop_last()) * 256 + s.last() < pow256(s.len())) by (nonlinear_arith)
            requires
                be_value(s.drop_last()) < pow256((s.len() - 1) as nat),
                pow256(s.len()) == 256 * pow256((s.len() - 1) as nat),
                s.last() < 256;
    }
}

/// Prepending a byte adds it at the most significant position.
pub proof fn lemma_be_value_prepend(b: u8, s: Seq<u8>)
    ensures
        be_value(seq![b] + s) == b as nat * pow256(s.len()) + be_value(s),
    decreases s.len(),
{
    if s.len() == 0 {
        assert((seq![b] + s).drop_last() =~= Seq::<u8>::empty());
        assert((seq![b] + s).last() == b);
        assert(pow256(0) == 1);
        assert(be_value(Seq::<u8>::empty()) == 0);
    } else {
        let t = seq![b] + s;
        assert(t.drop_last() =~= seq![b] + s.drop_last());
        assert(t.last() == s.last());
        assert(pow256(s.len()) == 256 * pow256((s.len() - 1) as nat));
        lemma_be_value_prepend(b, s.drop_last());
        assert(be_value(t) == (b as nat * pow256((s.len() - 1) as nat) + be_value(s.drop_last())) * 256
            + s.last() as nat);
        assert((b as nat * pow256((s.len() - 1) as nat) + be_value(s.drop_last())) * 256 + s.last() as nat
            == b as nat * (256 * pow256((s.len() - 1) as nat)) + (be_value(s.drop_last()) * 256 + s.last() as nat))
            by (nonlinear_arith);
    }
}

/// Leading zero bytes do not change the value.
pub proof fn lemma_be_value_leading_zeros(z: Seq<u8>, s: Seq<u8>)
    requires
        forall|i: int| 0 <= i < z.len() ==> z[i] == 0,
    ensures
        be_value(z + s) == be_value(s),
    decreases z.len(),
{
    if z.len() > 0 {
        let rest = z.drop_first();
        assert(z + s =~= seq![0u8] + (rest + s));
        lemma_be_value_prepend(0u8, rest + s);
        lemma_be_value_leading_zeros(rest, s);
    }
}

/// Appending a byte shifts the value left by eight bits.
pub proof fn lemma_be_value_push(s: Seq<u8>, b: u8)
    ensures
        be_value(s.push(b)) == be_value(s) * 256 + b as nat,
{
    assert(s.push(b).drop_last() =~= s);
}

/// The value of a concatenation: the prefix shifted past the suffix's bytes.
pub proof fn lemma_be_value_concat(a: Seq<u8>, b: Seq<u8>)
    ensures
        be_value(a + b) == be_value(a) * pow256(b.len()) + be_value(b),
    decreases b.len(),
{
    if b.len() == 0 {
        assert(a + b =~= a);
        assert(pow256(0) == 1);
    } else {
        lemma_be_value_concat(a, b.drop_last());
        assert((a + b).drop_last() =~= a + b.drop_last());
        assert((a + b).last() == b.last());
        let p = pow256((b.len() - 1) as nat);
        assert(pow256(b.len()) == 256 * p);
        assert((be_value(a) * p + be_value(b.drop_last())) * 256 + b.last() as nat
            == be_value(a) * (256 * p) + (be_value(b.drop_last()) * 256 + b.last() as nat))
            by (nonlinear_arith);
    }
}

/// Two equal-length byte strings with the same value are equal.
pub proof fn lemma_be_value_injective(s: Seq<u8>, t: Seq<u8>)
    requires
        s.len() == t.len(),
        be_value(s) == be_value(t),
    ensures
        s == t,
    decreases s.len(),
{
    if s.len() > 0 {
        let a = be_value(s.drop_last());
        let b = be_value(t.drop_last());
        assert(a * 256 + s.last() == b * 256 + t.last());
        assert(a == b && s.last() == t.last()) by (nonlinear_arith)
            requires
                a * 256 + s.last() == b * 256 + t.last(),
                s.last() < 256,
                t.last() < 256,
                a >= 0,
                b >= 0;
        lemma_be_value_injective(s.drop_last(), t.drop_last());
        assert(s =~= t.drop_last().push(t.last()));
        assert(t =~= t.drop_last().push(t.last()));
    }
}

/// `s` comes before `t` in lexicographic byte order.
pub open spec fn lex_lt(s: Seq<u8>, t: Seq<u8>) -> bool
    decreases s.len(),
{
    if s.len() == 0 || t.len() == 0 {
        s.len() == 0 && t.len() > 0
    } else if s[0] != t[0] {
        s[0] < t[0]
    } else {
        lex_lt(s.drop_first(), t.drop_first())
    }
}

/// For byte strings of one length, big-endian value order is lexicographic order.
pub proof fn lemma_be_order_is_lex(s: Seq<u8>, t: Seq<u8>)
    requires
        s.len() == t.len(),
    ensures
        be_value(s) < be_value(t) <==> lex_lt(s, t),
    decreases s.len(),
{
    if s.len() > 0 {
        let a = s.drop_first();
        let b = t.drop_first();
        assert(s =~= seq![s[0]] + a);
        assert(t =~= seq![t[0]] + b);
        lemma_be_value_prepend(s[0], a);
        lemma_be_value_prepend(t[0], b);
        lemma_be_value_bound(a);
        lemma_be_value_bound(b);
        lemma_be_order_is_lex(a, b);
        let p = pow256(a.len());
        let va = be_value(a);
        let vb = be_value(b);
        let x = s[0] as nat;
        let y = t[0] as nat;
        if x < y {
            assert(x * p + va < y * p + vb) by (nonlinear_arith)
                requires x < y, va < p, vb >= 0;
        } else if x > y {
            assert(y * p + vb < x * p + va) by (nonlinear_arith)
                requires y < x, vb < p, va >= 0;
        }
    } else {
        assert(be_value(s) == 0 && be_value(t) == 0);
    }
}

/// The `n`-byte big-endian encoding of `x`, where `x < 256^n` and `n <= 16`.
pub fn u128_to_be(x: u128, n: usize) -> (out: Vec<u8>)
    requires
        1 <= n <= 16,
        x < pow256(n as nat),
    ensures
        out.len() == n,
        be_value(out@) == x,
{
    let mut out: Vec<u8> = Vec::new();
    let mut i: usize = 0;
    while i < n
        invariant
            i <= n,
            out.len() == i,
            forall|j: int| 0 <= j < i ==> out@[j] == 0,
        decreases n - i,
    {
        out.push(0u8);
        i = i + 1;
    }
    let mut y: u128 = x;
    let mut k: usize = n;
    proof {
        assert(out@.subrange(n as int, n as int) =~= Seq::<u8>::empty());
        assert(pow256(0) == 1);
        assert(be_value(Seq::<u8>::empty()) == 0);
        assert((n - k) as nat == 0);
        assert(y as nat * pow256((n - k) as nat) == x);
    }
    while k > 0
        invariant
            k <= n,
            n <= 16,
            out.len() == n,
            y as nat * pow256((n - k) as nat) + be_value(out@.subrange(k as int, n as int)) == x,
        decreases k,
    {
        let ghost old_out = out@;
        let ghost old_y = y;
        k = k - 1;
        let b = (y % 256) as u8;
        out.set(k, b);
        y = y / 256;
        proof {
            let tail = old_out.subrange(k + 1, n as int);
            assert(out@.subrange(k as int, n as int) =~= seq![b] + tail);
            lemma_be_value_prepend(b, tail);
            let p = pow256((n - k - 1) as nat);
            assert(pow256((n - k) as nat) == 256 * p);
            assert(old_y == 256 * y + b as nat);
            assert(old_y * p == y * (256 * p) + b as nat * p) by (nonlinear_arith)
                requires old_y == 256 * y + b as nat;
        }
    }
    proof {
        assert(out@.subrange(0, n as int) =~= out@);
        lemma_be_value_bound(out@);
        lemma_pow256_pos(n as nat);
        if y > 0 {
            assert(y as nat * pow256(n as nat) >= pow256(n as nat)) by (nonlinear_arith)
                requires y > 0, pow256(n as nat) >= 1;
        }
    }
    out
}

/// The value of a big-endian byte string of at most 16 bytes.
pub fn be_to_u128(s: &[u8]) -> (r: u128)
    requires
        s@.len() <= 16,
    ensures
        r == be_value(s@),
{
    let mut acc: u128 = 0;
    let mut i: usize = 0;
    while i < s.len()
        invariant
            i <= s@.len(),
            s@.len() <= 16,
            acc == be_value(s@.subrange(0, i as int)),
        decreases s@.len() - i,
    {
        proof {
            lemma_be_value_bound(s@.subrange(0, i as int));
            lemma_pow256_monotone(i as nat, 15);
            reveal_with_fuel(pow256, 16);
            lemma_be_value_push(s@.subrange(0, i as int), s@[i as int]);
            assert(s@.subrange(0, i + 1) =~= s@.subrange(0, i as int).push(s@[i as int]));
        }
        acc = acc * 256 + s[i] as u128;
        i = i + 1;
    }
    proof {
        assert(s@.subrange(0, s@.len() as int) =~= s@);
    }
    acc
}

} // verus!
