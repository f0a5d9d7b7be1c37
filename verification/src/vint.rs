//! EBML variable-length integers and minimal big-endian integers.
use crate::bytes::{
    be_bytes, be_round_trip, be_value, lemma_be_bytes_len, lemma_be_value_bound,
    lemma_be_value_concat, lemma_pow256_values, pow256, push_be,
};
use vstd::prelude::*;

verus! {

/// `128` to the power `n`: what an `n`-byte VINT can count up to.
pub open spec fn pow128(n: nat) -> nat
    decreases n,
{
    if n == 0 {
        1
    } else {
        128 * pow128((n - 1) as nat)
    }
}

/// The number that the `n` bytes of a VINT for `value` spell: the value with the
/// length marker, bit `7 * n`, set.
pub open spec fn vint_number(value: u64, n: nat) -> nat {
    if value < pow128(n) {
        value as nat + pow128(n)
    } else {
        (value | (pow128(n) as u64)) as nat
    }
}

/// The `n`-byte VINT for `value`.
pub open spec fn vint_bytes(value: u64, n: nat) -> Seq<u8> {
    be_bytes(vint_number(value, n), n)
}

/// The width of a VINT that begins with `b`: one more than its leading zero bits.
pub open spec fn vint_width(b: u8) -> usize {
    if b >= 0x80 {
        1
    } else if b >= 0x40 {
        2
    } else if b >= 0x20 {
        3
    } else if b >= 0x10 {
        4
    } else if b >= 0x08 {
        5
    } else if b >= 0x04 {
        6
    } else if b >= 0x02 {
        7
    } else if b >= 0x01 {
        8
    } else {
        9
    }
}

/// What stands at the start of a byte string read as a VINT.
#[derive(Debug, Clone, Copy, PartialEq, Eq)]
pub enum VintRead {
    /// There is no byte.
    Empty,
    /// The first byte has no marker bit.
    Invalid,
    /// The string ends inside the VINT.
    Truncated,
    /// A value, and the number of bytes it takes.
    Value(u64, usize),
}

/// The VINT at the start of `data`.
pub open spec fn vint_at(data: Seq<u8>) -> VintRead {
    if data.len() == 0 {
        VintRead::Empty
    } else {
        let n = vint_width(data[0]);
        if n > 8 {
            VintRead::Invalid
        } else if data.len() < n {
            VintRead::Truncated
        } else {
            VintRead::Value((be_value(data.take(n as int)) - pow128(n as nat)) as u64, n)
        }
    }
}

/// The least width whose values below the all-ones pattern hold `value`, at most eight.
pub open spec fn vint_size(value: u64) -> nat {
    if value <= 0x7E {
        1
    } else if value <= 0x3FFE {
        2
    } else if value <= 0x1F_FFFE {
        3
    } else if value <= 0x0FFF_FFFE {
        4
    } else if value <= 0x07_FFFF_FFFE {
        5
    } else if value <= 0x03FF_FFFF_FFFE {
        6
    } else if value <= 0x01_FFFF_FFFF_FFFE {
        7
    } else {
        8
    }
}

/// The least width whose values hold `value`, the all-ones pattern too, at most eight.
pub open spec fn length_size(value: u64) -> nat {
    if value <= 0x7F {
        1
    } else if value <= 0x3FFF {
        2
    } else if value <= 0x1F_FFFF {
        3
    } else if value <= 0x0FFF_FFFF {
        4
    } else if value <= 0x07_FFFF_FFFF {
        5
    } else if value <= 0x03FF_FFFF_FFFF {
        6
    } else if value <= 0x01_FFFF_FFFF_FFFF {
        7
    } else {
        8
    }
}

/// The least number of bytes, at least one, that hold `value`.
pub open spec fn uint_size(value: u64) -> nat {
    if value <= 0xFF {
        1
    } else if value <= 0xFFFF {
        2
    } else if value <= 0xFF_FFFF {
        3
    } else if value <= 0xFFFF_FFFF {
        4
    } else if value <= 0xFF_FFFF_FFFF {
        5
    } else if value <= 0xFFFF_FFFF_FFFF {
        6
    } else if value <= 0xFF_FFFF_FFFF_FFFF {
        7
    } else {
        8
    }
}

/// The minimal big-endian form of `value`.
pub open spec fn uint_bytes(value: u64) -> Seq<u8> {
    be_bytes(value as nat, uint_size(value))
}

/// The low 64 bits of the big-endian number that `bytes` spell.
pub open spec fn uint_value(bytes: Seq<u8>) -> u64 {
    (be_value(bytes) % 0x1_0000_0000_0000_0000) as u64
}

pub proof fn lemma_pow128_values()
    ensures
        pow128(1) == 0x80,
        pow128(2) == 0x4000,
        pow128(3) == 0x20_0000,
        pow128(4) == 0x1000_0000,
        pow128(5) == 0x8_0000_0000,
        pow128(6) == 0x400_0000_0000,
        pow128(7) == 0x2_0000_0000_0000,
        pow128(8) == 0x100_0000_0000_0000,
{
    reveal_with_fuel(pow128, 9);
}

pub proof fn lemma_vint_bytes_len(value: u64, n: nat)
    ensures
        vint_bytes(value, n).len() == n,
{
    lemma_be_bytes_len(vint_number(value, n), n);
}

/// The first of `n` bytes that spell `v` is `v` without its other bytes.
pub proof fn lemma_be_first(v: nat, n: nat)
    requires
        1 <= n,
        v < pow256(n),
    ensures
        be_bytes(v, n)[0] as nat == v / pow256((n - 1) as nat),
    decreases n,
{
    lemma_be_bytes_len(v, n);
    let m = (n - 1) as nat;
    if n == 1 {
        assert(pow256(0) == 1);
        assert(pow256(1) == 256) by {
            reveal_with_fuel(pow256, 2);
        }
        assert(v / pow256(0) == v);
    } else {
        lemma_be_bytes_len(v / 256, m);
        assert(v / 256 < pow256(m)) by (nonlinear_arith)
            requires
                v < 256 * pow256(m),
        ;
        lemma_be_first(v / 256, m);
        vstd::arithmetic::div_mod::lemma_div_denominator(
            v as int,
            256,
            pow256((m - 1) as nat) as int,
        );
    }
}

/// A VINT of a value that fits its width reads back as that value, whatever follows.
pub proof fn vint_round_trip(value: u64, n: nat, rest: Seq<u8>)
    requires
        1 <= n <= 8,
        value < pow128(n),
    ensures
        vint_at(vint_bytes(value, n) + rest) == VintRead::Value(value, n as usize),
{
    lemma_pow128_values();
    lemma_pow256_values();
    let s = vint_bytes(value, n);
    let v = vint_number(value, n);
    lemma_vint_bytes_len(value, n);
    assert(v < pow256(n));
    be_round_trip(v, n);
    lemma_be_first(v, n);
    assert((s + rest).take(n as int) =~= s);
    assert(vint_width(s[0]) == n) by {
        let first = s[0] as nat;
        if n == 1 {
            assert(first == v / 1);
        } else if n == 2 {
            assert(first == v / 0x100);
        } else if n == 3 {
            assert(first == v / 0x1_0000);
        } else if n == 4 {
            assert(first == v / 0x100_0000);
        } else if n == 5 {
            assert(first == v / 0x1_0000_0000);
        } else if n == 6 {
            assert(first == v / 0x100_0000_0000);
        } else if n == 7 {
            assert(first == v / 0x1_0000_0000_0000);
        } else {
            assert(first == v / 0x100_0000_0000_0000);
        }
    }
}

/// The value of a VINT is below the count of its width.
pub proof fn lemma_vint_at_value(data: Seq<u8>)
    ensures
        vint_at(data) matches VintRead::Value(v, n) ==> {
            &&& 1 <= n <= 8
            &&& n <= data.len()
            &&& v < pow128(n as nat)
            &&& v < 0x100_0000_0000_0000
            &&& v as nat + pow128(n as nat) == be_value(data.take(n as int))
        },
{
    lemma_pow128_values();
    lemma_pow256_values();
    if let VintRead::Value(v, n) = vint_at(data) {
        let t = data.take(n as int);
        let head = seq![t[0]];
        let tail = t.skip(1);
        assert(t =~= head + tail);
        lemma_be_value_concat(head, tail);
        lemma_be_value_bound(tail);
        assert(be_value(head) == t[0]) by {
            assert(head.drop_last() =~= Seq::<u8>::empty());
            assert(be_value(head.drop_last()) == 0);
        }
        assert(tail.len() == n - 1);
        let p = pow256(tail.len());
        assert(be_value(t) == t[0] * p + be_value(tail));
        lemma_first_byte_product(n as nat, t[0] as nat);
    }
}

/// A first byte in its place among `n`, with the place value written out.
proof fn lemma_first_byte_product(n: nat, b: nat)
    requires
        1 <= n <= 8,
    ensures
        n == 1 ==> b * pow256((n - 1) as nat) == b,
        n == 2 ==> b * pow256((n - 1) as nat) == b * 0x100,
        n == 3 ==> b * pow256((n - 1) as nat) == b * 0x1_0000,
        n == 4 ==> b * pow256((n - 1) as nat) == b * 0x100_0000,
        n == 5 ==> b * pow256((n - 1) as nat) == b * 0x1_0000_0000,
        n == 6 ==> b * pow256((n - 1) as nat) == b * 0x100_0000_0000,
        n == 7 ==> b * pow256((n - 1) as nat) == b * 0x1_0000_0000_0000,
        n == 8 ==> b * pow256((n - 1) as nat) == b * 0x100_0000_0000_0000,
{
    lemma_pow256_values();
    if n == 1 {
        vstd::arithmetic::mul::lemma_mul_basics(b as int);
    }
}

/// The minimal form of a number reads back as the number.
pub proof fn uint_round_trip(value: u64)
    ensures
        uint_value(uint_bytes(value)) == value,
{
    lemma_pow256_values();
    be_round_trip(value as nat, uint_size(value));
}

/// The bit that marks an `n`-byte VINT.
fn vint_marker(n: usize) -> (r: u64)
    requires
        1 <= n <= 8,
    ensures
        r == pow128(n as nat),
{
    proof {
        lemma_pow128_values();
    }
    match n {
        1 => 0x80,
        2 => 0x4000,
        3 => 0x20_0000,
        4 => 0x1000_0000,
        5 => 0x8_0000_0000,
        6 => 0x400_0000_0000,
        7 => 0x2_0000_0000_0000,
        _ => 0x100_0000_0000_0000,
    }
}

/// Appends the `n`-byte VINT for `value`; of a value that does not fit, the low bytes.
pub fn push_vint(out: &mut Vec<u8>, value: u64, n: usize)
    requires
        1 <= n <= 8,
    ensures
        final(out)@ == old(out)@ + vint_bytes(value, n as nat),
{
    proof {
        lemma_pow128_values();
    }
    let marker: u64 = vint_marker(n);
    let number: u64 = if value < marker {
        value + marker
    } else {
        value | marker
    };
    push_be(out, number, n);
}

/// The width of a VINT that begins with `b`; nine where `b` has no marker bit.
pub fn width_of(b: u8) -> (r: usize)
    ensures
        r == vint_width(b),
{
    if b >= 0x80 {
        1
    } else if b >= 0x40 {
        2
    } else if b >= 0x20 {
        3
    } else if b >= 0x10 {
        4
    } else if b >= 0x08 {
        5
    } else if b >= 0x04 {
        6
    } else if b >= 0x02 {
        7
    } else if b >= 0x01 {
        8
    } else {
        9
    }
}

/// Reads the VINT at the start of `data`.
pub fn decode_vint(data: &[u8]) -> (r: VintRead)
    ensures
        r == vint_at(data@),
{
    if data.len() == 0 {
        return VintRead::Empty;
    }
    let n: usize = width_of(data[0]);
    if n > 8 {
        return VintRead::Invalid;
    }
    if data.len() < n {
        return VintRead::Truncated;
    }
    let mut v: u64 = 0;
    let mut i: usize = 0;
    while i < n
        invariant
            n <= 8,
            i <= n <= data@.len(),
            v == be_value(data@.take(i as int)),
        decreases n - i,
    {
        proof {
            lemma_pow256_values();
            let t = data@.take(i as int + 1);
            assert(t.drop_last() =~= data@.take(i as int));
            lemma_be_value_bound(t);
        }
        v = v * 256 + data[i] as u64;
        i = i + 1;
    }
    proof {
        lemma_vint_at_value(data@);
        lemma_pow128_values();
        lemma_pow256_values();
        let t = data@.take(n as int);
        let head = seq![t[0]];
        let tail = t.skip(1);
        assert(t =~= head + tail);
        lemma_be_value_concat(head, tail);
        assert(be_value(head) == t[0]) by {
            assert(head.drop_last() =~= Seq::<u8>::empty());
            assert(be_value(head.drop_last()) == 0);
        }
        lemma_first_byte_product(n as nat, t[0] as nat);
    }
    VintRead::Value(v - vint_marker(n), n)
}

/// Appends the minimal big-endian form of `value`.
pub fn push_uint(out: &mut Vec<u8>, value: u64)
    ensures
        final(out)@ == old(out)@ + uint_bytes(value),
{
    let n: usize = if value <= 0xFF {
        1
    } else if value <= 0xFFFF {
        2
    } else if value <= 0xFF_FFFF {
        3
    } else if value <= 0xFFFF_FFFF {
        4
    } else if value <= 0xFF_FFFF_FFFF {
        5
    } else if value <= 0xFFFF_FFFF_FFFF {
        6
    } else if value <= 0xFF_FFFF_FFFF_FFFF {
        7
    } else {
        8
    };
    push_be(out, value, n);
}

/// The minimal big-endian form of `value`: one zero byte for zero.
pub fn encode_uint(value: u64) -> (r: Vec<u8>)
    ensures
        r@ == uint_bytes(value),
{
    let mut out: Vec<u8> = Vec::new();
    push_uint(&mut out, value);
    assert(out@ =~= uint_bytes(value));
    out
}

/// The low 64 bits of the big-endian number that `bytes` spell.
pub fn decode_uint(bytes: &[u8]) -> (r: u64)
    ensures
        r == uint_value(bytes@),
{
    let mut v: u64 = 0;
    let mut i: usize = 0;
    while i < bytes.len()
        invariant
            i <= bytes@.len(),
            v == uint_value(bytes@.take(i as int)),
        decreases bytes@.len() - i,
    {
        let b: u64 = bytes[i] as u64;
        let w: u64 = (v << 8) | b;
        proof {
            let t = bytes@.take(i as int + 1);
            assert(t.drop_last() =~= bytes@.take(i as int));
            assert(b <= 0xFF ==> ((v << 8) | b) == (v & 0x00FF_FFFF_FFFF_FFFF) * 256 + b)
                by (bit_vector);
            assert(v & 0x00FF_FFFF_FFFF_FFFF == v % 0x100_0000_0000_0000) by (bit_vector);
            let u = be_value(t.drop_last()) as int;
            let m = 0x100_0000_0000_0000int;
            assert((u % (m * 256)) % m == u % m) by {
                vstd::arithmetic::div_mod::lemma_mod_mod(u, m, 256);
            }
            assert((u % m) * 256 + b == (u * 256 + b) % (m * 256)) by {
                vstd::arithmetic::div_mod::lemma_fundamental_div_mod(u, m);
                let q = u / m;
                assert(u * 256 + b == q * (m * 256) + ((u % m) * 256 + b)) by (nonlinear_arith)
                    requires
                        u == m * q + u % m,
                ;
                vstd::arithmetic::div_mod::lemma_fundamental_div_mod_converse_mod(
                    u * 256 + b,
                    m * 256,
                    q,
                    (u % m) * 256 + b,
                );
            }
        }
        v = w;
        i = i + 1;
    }
    assert(bytes@.take(bytes@.len() as int) =~= bytes@);
    v
}

} // verus!
