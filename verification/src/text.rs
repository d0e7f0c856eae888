//! Character-level helpers: hexadecimal and decimal renderings of integers,
//! and the string plumbing they need.
use vstd::prelude::*;

verus! {

/// Calls `String::push`, which appends one character to the string.
#[verifier::external_body]
pub(crate) fn push_char(s: &mut String, c: char)
    ensures
        final(s)@ == old(s)@.push(c),
{
    s.push(c);
}

/// The characters of `s`, in order.
pub fn str_chars(s: &str) -> (out: Vec<char>)
    ensures
        out@ == s@,
{
    let mut out: Vec<char> = Vec::new();
    for c in it: s.chars()
        invariant
            it.seq() == s@,
            out@ == it.seq().subrange(0, it.index() as int),
    {
        out.push(c);
    }
    out
}

/// A string holding exactly the characters of `chars`.
pub fn string_from_chars(chars: &Vec<char>) -> (s: String)
    ensures
        s@ == chars@,
{
    let mut s = String::new();
    let mut i: usize = 0;
    while i < chars.len()
        invariant
            i <= chars.len(),
            s@ == chars@.subrange(0, i as int),
        decreases chars.len() - i,
    {
        push_char(&mut s, chars[i]);
        proof {
            assert(chars@.subrange(0, i + 1) =~= chars@.subrange(0, i as int).push(chars@[i as int]));
        }
        i = i + 1;
    }
    proof {
        assert(chars@.subrange(0, chars@.len() as int) =~= chars@);
    }
    s
}

/// Lower-case hexadecimal digit for `v < 16`.
pub open spec fn hex_char(v: nat) -> char {
    if v < 10 {
        (('0' as nat) + v) as char
    } else {
        (('a' as nat) + (v - 10)) as char
    }
}

/// Whether `c` is a hexadecimal digit of either case.
pub open spec fn is_hex_digit(c: char) -> bool {
    ('0' <= c && c <= '9') || ('a' <= c && c <= 'f') || ('A' <= c && c <= 'F')
}

/// The value of a hexadecimal digit.
pub open spec fn hex_digit_value(c: char) -> nat {
    if '0' <= c && c <= '9' {
        (c as nat - '0' as nat) as nat
    } else if 'a' <= c && c <= 'f' {
        (c as nat - 'a' as nat + 10) as nat
    } else {
        (c as nat - 'A' as nat + 10) as nat
    }
}

/// Every character is a hexadecimal digit.
pub open spec fn all_hex(cs: Seq<char>) -> bool {
    forall|i: int| 0 <= i < cs.len() ==> is_hex_digit(#[trigger] cs[i])
}

/// The value of a string of hexadecimal digits, most significant first.
pub open spec fn hex_value(cs: Seq<char>) -> nat
    decreases cs.len(),
{
    if cs.len() == 0 {
        0
    } else {
        hex_value(cs.drop_last()) * 16 + hex_digit_value(cs.last())
    }
}

/// The `width` lower-case hex digits of `x`, zero-padded on the left.
pub open spec fn hex_encode(x: nat, width: nat) -> Seq<char>
    decreases width,
{
    if width == 0 {
        Seq::empty()
    } else {
        hex_encode(x / 16, (width - 1) as nat).push(hex_char(x % 16))
    }
}

/// The value of a non-empty run of hexadecimal digits (and nothing else:
/// no sign), if it fits in `u64`.
pub open spec fn hex_digits_u64(cs: Seq<char>) -> Option<u64> {
    if cs.len() == 0 || !all_hex(cs) || hex_value(cs) > u64::MAX {
        None
    } else {
        Some(hex_value(cs) as u64)
    }
}

pub proof fn lemma_hex_value_bound(cs: Seq<char>)
    requires
        all_hex(cs),
    ensures
        hex_value(cs) < crate::text::pow16(cs.len()),
    decreases cs.len(),
{
    if cs.len() > 0 {
        assert(all_hex(cs.drop_last())) by {
            assert forall|i: int| 0 <= i < cs.drop_last().len() implies is_hex_digit(#[trigger] cs.drop_last()[i]) by {
                assert(cs.drop_last()[i] == cs[i]);
            }
        }
        lemma_hex_value_bound(cs.drop_last());
        assert(is_hex_digit(cs[cs.len() - 1]));
        assert(hex_digit_value(cs.last()) < 16);
        assert(hex_value(cs.drop_last()) * 16 + hex_digit_value(cs.last()) < pow16(cs.len())) by (nonlinear_arith)
            requires
                hex_value(cs.drop_last()) < pow16((cs.len() - 1) as nat),
                pow16(cs.len()) == 16 * pow16((cs.len() - 1) as nat),
                hex_digit_value(cs.last()) < 16;
    }
}

/// `16^n`.
pub open spec fn pow16(n: nat) -> nat
    decreases n,
{
    if n == 0 {
        1
    } else {
        16 * pow16((n - 1) as nat)
    }
}

proof fn lemma_pow16_16()
    ensures
        pow16(16) == 0x1_0000_0000_0000_0000nat,
        pow16(15) == 0x1000_0000_0000_0000nat,
{
    reveal_with_fuel(pow16, 17);
}

/// Encoding then reading back hex digits gives the value modulo `16^width`.
pub proof fn lemma_hex_encode_value(x: nat, width: nat)
    ensures
        hex_encode(x, width).len() == width,
        all_hex(hex_encode(x, width)),
        hex_value(hex_encode(x, width)) == x % pow16(width),
    decreases width,
{
    if width > 0 {
        lemma_hex_encode_value(x / 16, (width - 1) as nat);
        let prev = hex_encode(x / 16, (width - 1) as nat);
        let e = hex_encode(x, width);
        assert(e == prev.push(hex_char(x % 16)));
        assert(e.drop_last() =~= prev);
        let d = x % 16;
        assert(is_hex_digit(hex_char(d)));
        assert(hex_digit_value(hex_char(d)) == d);
        assert forall|i: int| 0 <= i < e.len() implies is_hex_digit(#[trigger] e[i]) by {
            if i < prev.len() {
                assert(e[i] == prev[i]);
            }
        }
        let p = pow16((width - 1) as nat);
        assert(pow16(width) == 16 * p);
        assert(p > 0) by {
            lemma_pow16_pos((width - 1) as nat);
        }
        assert(((x / 16) % p) * 16 + x % 16 == x % (16 * p)) by {
            vstd::arithmetic::div_mod::lemma_breakdown(x as int, 16, p as int);
        }
    } else {
        assert(pow16(0) == 1);
    }
}

pub proof fn lemma_pow16_pos(n: nat)
    ensures
        pow16(n) > 0,
    decreases n,
{
    if n > 0 {
        lemma_pow16_pos((n - 1) as nat);
    }
}

/// The lower-case hex digit character for `v < 16`.
pub fn hex_char_exec(v: u8) -> (c: char)
    requires
        v < 16,
    ensures
        c == hex_char(v as nat),
{
    match v {
        0 => '0',
        1 => '1',
        2 => '2',
        3 => '3',
        4 => '4',
        5 => '5',
        6 => '6',
        7 => '7',
        8 => '8',
        9 => '9',
        10 => 'a',
        11 => 'b',
        12 => 'c',
        13 => 'd',
        14 => 'e',
        _ => 'f',
    }
}

/// Append the 16 lower-case hex digits of `x` (as `{:016x}` renders it).
pub fn push_hex_u64(out: &mut Vec<char>, x: u64)
    ensures
        final(out)@ == old(out)@ + hex_encode(x as nat, 16),
{
    let mut digits: Vec<char> = Vec::new();
    let mut y: u64 = x;
    let mut k: usize = 0;
    proof {
        assert(pow16(0) == 1);
    }
    // Collect the digits least significant first.
    while k < 16
        invariant
            k <= 16,
            digits.len() == k,
            y as nat == x as nat / pow16(k as nat),
            forall|j: int| 0 <= j < k ==> #[trigger] digits@[j] == hex_char((x as nat / pow16(j as nat)) % 16),
        decreases 16 - k,
    {
        let d = (y % 16) as u8;
        digits.push(hex_char_exec(d));
        proof {
            lemma_pow16_pos(k as nat);
            assert(pow16((k + 1) as nat) == 16 * pow16(k as nat));
            vstd::arithmetic::div_mod::lemma_div_denominator(x as int, pow16(k as nat) as int, 16);
            assert(pow16(k as nat) * 16 == 16 * pow16(k as nat));
        }
        y = y / 16;
        k = k + 1;
    }
    let ghost start = out@;
    let mut i: usize = 16;
    while i > 0
        invariant
            i <= 16,
            digits.len() == 16,
            forall|j: int| 0 <= j < 16 ==> #[trigger] digits@[j] == hex_char((x as nat / pow16(j as nat)) % 16),
            out@ == start + hex_encode(x as nat / pow16(i as nat), (16 - i) as nat),
        decreases i,
    {
        proof {
            lemma_pow16_pos(i as nat);
            lemma_pow16_pos((i - 1) as nat);
            assert(pow16(i as nat) == 16 * pow16((i - 1) as nat));
            vstd::arithmetic::div_mod::lemma_div_denominator(x as int, pow16((i - 1) as nat) as int, 16);
            assert(pow16((i - 1) as nat) * 16 == 16 * pow16((i - 1) as nat));
            let v = x as nat / pow16((i - 1) as nat);
            assert(v / 16 == x as nat / pow16(i as nat));
            assert(hex_encode(v, (16 - i + 1) as nat) == hex_encode(v / 16, (16 - i) as nat).push(hex_char(v % 16)));
        }
        out.push(digits[i - 1]);
        i = i - 1;
    }
    proof {
        assert(pow16(0) == 1);
    }
}

/// Read a run of at most 16 hexadecimal digits as a `u64`; `None` when
/// the run is empty or holds anything but hex digits.
pub fn parse_hex_digits_u64(cs: &[char]) -> (r: Option<u64>)
    requires
        cs@.len() <= 16,
    ensures
        r == hex_digits_u64(cs@),
{
    let n = cs.len();
    if n == 0 {
        return None;
    }
    let mut acc: u64 = 0;
    let mut i: usize = 0;
    proof {
        assert(cs@.subrange(0, 0) =~= Seq::<char>::empty());
    }
    while i < n
        invariant
            i <= n,
            n == cs@.len(),
            n <= 16,
            all_hex(cs@.subrange(0, i as int)),
            acc == hex_value(cs@.subrange(0, i as int)),
        decreases n - i,
    {
        let c = cs[i];
        let d: u64 = if '0' <= c && c <= '9' {
            (c as u64) - ('0' as u64)
        } else if 'a' <= c && c <= 'f' {
            (c as u64) - ('a' as u64) + 10
        } else if 'A' <= c && c <= 'F' {
            (c as u64) - ('A' as u64) + 10
        } else {
            proof {
                assert(cs@[i as int] == c);
                assert(!is_hex_digit(cs@[i as int]));
                assert(!all_hex(cs@));
            }
            return None;
        };
        let ghost pre = cs@.subrange(0, i as int);
        proof {
            lemma_hex_value_bound(pre);
            lemma_pow16_mono(i as nat, 15);
            lemma_pow16_16();
            assert(cs@.subrange(0, i + 1) =~= pre.push(c));
            assert(pre.push(c).drop_last() =~= pre);
            assert forall|j: int| 0 <= j < pre.push(c).len() implies is_hex_digit(#[trigger] pre.push(c)[j]) by {
                if j < pre.len() {
                    assert(pre.push(c)[j] == pre[j]);
                }
            }
        }
        acc = acc * 16 + d;
        i = i + 1;
    }
    proof {
        assert(cs@.subrange(0, n as int) =~= cs@);
        lemma_hex_value_bound(cs@);
        lemma_pow16_mono(cs@.len(), 16);
        lemma_pow16_16();
    }
    Some(acc)
}

pub proof fn lemma_pow16_mono(a: nat, b: nat)
    requires
        a <= b,
    ensures
        pow16(a) <= pow16(b),
    decreases b,
{
    if a < b {
        lemma_pow16_mono(a, (b - 1) as nat);
        lemma_pow16_pos((b - 1) as nat);
    }
}

/// Reading back the 16 hex digits of `x` gives `x`.
pub proof fn lemma_hex16_roundtrip(x: u64)
    ensures
        hex_digits_u64(hex_encode(x as nat, 16)) == Some(x),
{
    lemma_hex_encode_value(x as nat, 16);
    lemma_pow16_16();
}

/// The decimal digit character of `d < 10`.
pub open spec fn digit_char(d: nat) -> char {
    (48 + d) as char
}

/// The decimal digits of `n`, most significant first, without leading zeros
/// (`"0"` for zero).
pub open spec fn dec_digits(n: nat) -> Seq<char>
    decreases n,
{
    if n < 10 {
        seq![digit_char(n)]
    } else {
        dec_digits(n / 10).push(digit_char(n % 10))
    }
}

pub(crate) fn digit(d: u64) -> (c: char)
    requires
        d < 10,
    ensures
        c == digit_char(d as nat),
{
    match d {
        0 => '0',
        1 => '1',
        2 => '2',
        3 => '3',
        4 => '4',
        5 => '5',
        6 => '6',
        7 => '7',
        8 => '8',
        _ => '9',
    }
}

/// The decimal digits of `x`.
pub fn u128_digits(x: u128) -> (r: String)
    ensures
        r@ == dec_digits(x as nat),
{
    let mut cur = x;
    let mut acc: Vec<char> = Vec::new();
    while cur >= 10
        invariant
            dec_digits(x as nat) == dec_digits(cur as nat) + acc@,
        decreases cur,
    {
        let d = (cur % 10) as u64;
        let ghost a0 = acc@;
        acc.insert(0, digit(d));
        proof {
            assert(dec_digits(cur as nat) == dec_digits((cur / 10) as nat).push(digit_char(d as nat)));
            assert(acc@ =~= seq![digit_char(d as nat)] + a0);
            assert(dec_digits((cur / 10) as nat).push(digit_char(d as nat)) + a0 =~= dec_digits((cur / 10) as nat) + acc@);
        }
        cur = cur / 10;
    }
    let ghost a0 = acc@;
    acc.insert(0, digit(cur as u64));
    proof {
        assert(dec_digits(cur as nat) == seq![digit_char(cur as nat)]);
        assert(acc@ =~= seq![digit_char(cur as nat)] + a0);
    }
    string_from_chars(&acc)
}

} // verus!
