//! The wire coding that messages are built from.
//!
//! * A byte is written as itself.
//! * An integer below 2^62 is written as a variable-length integer: the top two
//!   bits of its first byte give its width (`00` one byte, `01` two, `10` four,
//!   `11` eight bytes), and the remaining bits, read big-endian, give its value.
//!   The encoder always picks the narrowest width that holds the value; the
//!   decoder accepts any width.
//! * A string is written as the length of its UTF-8 bytes (a variable-length
//!   integer) followed by those bytes.

use crate::buffer::{buffer_contents, copy_to_vec, get_u8, put_slice, put_u8, remaining};
use bytes::BytesMut;
use std::string::FromUtf8Error;
use vstd::arithmetic::div_mod::{
    lemma_div_denominator, lemma_fundamental_div_mod, lemma_fundamental_div_mod_converse, lemma_mod_breakdown,
    lemma_mod_multiples_vanish, lemma_small_mod,
};
use vstd::prelude::*;
use vstd::utf8::{
    decode_utf8, decode_utf8_encode_utf8, encode_utf8, encode_utf8_decode_utf8,
    encode_utf8_valid_utf8, valid_utf8,
};

verus! {

/// Why a message could not be decoded.
#[derive(Clone, Copy, Debug, PartialEq, Eq)]
pub enum DecodeError {
    /// The buffer ended before the message did.
    Short,
    /// A field held a value that the message does not allow.
    InvalidValue,
    /// A string's bytes are not valid UTF-8.
    InvalidString,
    /// A length does not fit in `usize` on this machine.
    BoundsExceeded,
}

/// One more than the largest value that a variable-length integer carries.
pub const VARINT_LIMIT: u64 = 0x4000_0000_0000_0000;

/// `256` to the power `n`.
pub open spec fn pow256(n: nat) -> nat
    decreases n,
{
    if n == 0 {
        1
    } else {
        256 * pow256((n - 1) as nat)
    }
}

/// The last `n` bytes of `x` in base 256, most significant first.
pub open spec fn be_bytes(x: nat, n: nat) -> Seq<u8>
    decreases n,
{
    if n == 0 {
        Seq::empty()
    } else {
        be_bytes(x / 256, (n - 1) as nat).push((x % 256) as u8)
    }
}

/// The number that `s` spells in base 256, most significant byte first.
pub open spec fn be_value(s: Seq<u8>) -> nat
    decreases s.len(),
{
    if s.len() == 0 {
        0
    } else {
        be_value(s.drop_last()) * 256 + s.last() as nat
    }
}

/// The width in bytes that the encoder gives the value `v`.
pub open spec fn varint_width(v: u64) -> nat {
    if v < 0x40 {
        1
    } else if v < 0x4000 {
        2
    } else if v < 0x4000_0000 {
        4
    } else {
        8
    }
}

/// The width in bytes announced by the tag bits of a first byte.
pub open spec fn width_of_first_byte(b: u8) -> nat {
    if b < 0x40 {
        1
    } else if b < 0x80 {
        2
    } else if b < 0xc0 {
        4
    } else {
        8
    }
}

/// One more than the largest value that fits in a varint of width `w`: the
/// place value of the two tag bits.
pub open spec fn width_limit(w: nat) -> nat {
    if w == 1 {
        0x40
    } else if w == 2 {
        0x4000
    } else if w == 4 {
        0x4000_0000
    } else {
        0x4000_0000_0000_0000
    }
}

/// The tag bits of width `w` in their place in a `w`-byte number.
pub open spec fn width_tag(w: nat) -> nat {
    if w == 1 {
        0
    } else if w == 2 {
        0x4000
    } else if w == 4 {
        0x8000_0000
    } else {
        0xc000_0000_0000_0000
    }
}

/// The bytes that encode `v` as a variable-length integer.
pub open spec fn varint_bytes(v: u64) -> Seq<u8> {
    be_bytes((v + width_tag(varint_width(v))) as nat, varint_width(v))
}

/// Decoding a variable-length integer from the front of `s`: the value and
/// the number of bytes it took, or why it failed.
pub open spec fn parse_varint(s: Seq<u8>) -> Result<(u64, nat), DecodeError> {
    if s.len() == 0 {
        Err(DecodeError::Short)
    } else {
        let w = width_of_first_byte(s[0]);
        if s.len() < w {
            Err(DecodeError::Short)
        } else {
            Ok(((be_value(s.take(w as int)) % width_limit(w)) as u64, w))
        }
    }
}

proof fn lemma_pow256_facts()
    ensures
        pow256(0) == 1,
        pow256(1) == 0x100,
        pow256(2) == 0x1_0000,
        pow256(3) == 0x100_0000,
        pow256(4) == 0x1_0000_0000,
        pow256(7) == 0x100_0000_0000_0000,
        pow256(8) == 0x1_0000_0000_0000_0000,
{
    reveal_with_fuel(pow256, 9);
}

proof fn lemma_pow256_positive(n: nat)
    ensures
        pow256(n) > 0,
    decreases n,
{
    if n > 0 {
        lemma_pow256_positive((n - 1) as nat);
    }
}

proof fn lemma_pow256_monotone(a: nat, b: nat)
    requires
        a <= b,
    ensures
        pow256(a) <= pow256(b),
    decreases b,
{
    if a < b {
        lemma_pow256_monotone(a, (b - 1) as nat);
        lemma_pow256_positive((b - 1) as nat);
    }
}

proof fn lemma_be_bytes_len(x: nat, n: nat)
    ensures
        be_bytes(x, n).len() == n,
    decreases n,
{
    if n > 0 {
        lemma_be_bytes_len(x / 256, (n - 1) as nat);
    }
}

/// Reading back the bytes of `x` gives `x` modulo the width.
proof fn lemma_be_value_of_bytes(x: nat, n: nat)
    ensures
        be_value(be_bytes(x, n)) == x % pow256(n),
    decreases n,
{
    if n == 0 {
    } else {
        let p = pow256((n - 1) as nat);
        lemma_pow256_positive((n - 1) as nat);
        lemma_be_value_of_bytes(x / 256, (n - 1) as nat);
        let s = be_bytes(x, n);
        assert(s.drop_last() =~= be_bytes(x / 256, (n - 1) as nat));
        lemma_mod_breakdown(x as int, 256, p as int);
    }
}

/// The first of the bytes of `x`.
proof fn lemma_be_bytes_first(x: nat, n: nat)
    requires
        n >= 1,
    ensures
        be_bytes(x, n)[0] == (x / pow256((n - 1) as nat)) % 256,
    decreases n,
{
    lemma_be_bytes_len(x, n);
    let prev = be_bytes(x / 256, (n - 1) as nat);
    assert(be_bytes(x, n) == prev.push((x % 256) as u8));
    if n == 1 {
        assert(pow256(0) == 1);
        assert(be_bytes(x, n)[0] == (x % 256) as u8);
    } else {
        lemma_be_bytes_len(x / 256, (n - 1) as nat);
        lemma_be_bytes_first(x / 256, (n - 1) as nat);
        assert(be_bytes(x, n)[0] == prev[0]);
        lemma_pow256_positive((n - 2) as nat);
        assert(pow256((n - 1) as nat) == 256 * pow256((n - 2) as nat));
        lemma_div_denominator(x as int, 256, pow256((n - 2) as nat) as int);
    }
}

/// A number spelled by `n` bytes is below `256^n`.
proof fn lemma_be_value_bound(s: Seq<u8>)
    ensures
        be_value(s) < pow256(s.len()),
    decreases s.len(),
{
    if s.len() > 0 {
        lemma_be_value_bound(s.drop_last());
    }
}

/// The encoding of `v` has the width the encoder picks, and its first byte
/// announces that width.
proof fn lemma_varint_first_byte(v: u64)
    requires
        v < VARINT_LIMIT,
    ensures
        varint_bytes(v).len() == varint_width(v),
        width_of_first_byte(varint_bytes(v)[0]) == varint_width(v),
{
    let w = varint_width(v);
    let x: nat = (v + width_tag(w)) as nat;
    let bytes = be_bytes(x, w);
    lemma_be_bytes_len(x, w);
    lemma_pow256_facts();
    lemma_be_bytes_first(x, w);
    let first = (x / pow256((w - 1) as nat)) % 256;
    if w == 1 {
        assert(first == x % 256);
        assert(first < 0x40);
    } else if w == 2 {
        assert(first == (x / 0x100) % 256);
        assert(0x40 <= x / 0x100 < 0x80);
    } else if w == 4 {
        assert(first == (x / 0x100_0000) % 256);
        assert(0x80 <= x / 0x100_0000 < 0xc0);
    } else {
        assert(first == (x / 0x100_0000_0000_0000) % 256);
        assert(0xc0 <= x / 0x100_0000_0000_0000 < 0x100);
    }
}

/// Decoding the encoding of `v`, with anything after it, gives back `v` and
/// consumes exactly the encoding.
pub proof fn lemma_varint_roundtrip(v: u64, rest: Seq<u8>)
    requires
        v < VARINT_LIMIT,
    ensures
        varint_bytes(v).len() == varint_width(v),
        parse_varint(varint_bytes(v) + rest) == Ok::<(u64, nat), DecodeError>((v, varint_width(v))),
{
    let w = varint_width(v);
    let x: nat = (v + width_tag(w)) as nat;
    let bytes = be_bytes(x, w);
    let s = bytes + rest;
    lemma_varint_first_byte(v);
    lemma_pow256_facts();
    assert(x < pow256(w));
    assert(s[0] == bytes[0]);
    assert(s.take(w as int) =~= bytes);
    lemma_be_value_of_bytes(x, w);
    lemma_small_mod(x, pow256(w));
    let k: int = width_tag(w) as int / width_limit(w) as int;
    assert(width_tag(w) == width_limit(w) * k);
    lemma_mod_multiples_vanish(k, v as int, width_limit(w) as int);
    lemma_small_mod(v as nat, width_limit(w));
}

/// Whether `w` is one of the widths that a variable-length integer can have.
pub open spec fn is_varint_width(w: nat) -> bool {
    w == 1 || w == 2 || w == 4 || w == 8
}

/// Byte `i` of the bytes of `x`, counted from the most significant.
proof fn lemma_be_bytes_index(x: nat, n: nat, i: int)
    requires
        0 <= i < n,
    ensures
        be_bytes(x, n)[i] == (x / pow256((n - 1 - i) as nat)) % 256,
    decreases n,
{
    lemma_be_bytes_len(x, n);
    lemma_be_bytes_len(x / 256, (n - 1) as nat);
    if i == n - 1 {
        assert(pow256(0) == 1);
    } else {
        lemma_be_bytes_index(x / 256, (n - 1) as nat, i);
        lemma_pow256_positive((n - 2 - i) as nat);
        assert(pow256((n - 1 - i) as nat) == 256 * pow256((n - 2 - i) as nat));
        lemma_div_denominator(x as int, 256, pow256((n - 2 - i) as nat) as int);
    }
}

/// Decoding the `w`-byte form of `v` (the tag bits of width `w`, then `v`
/// big-endian), with anything after it, gives `v` and takes `w` bytes: the
/// decoder reads every width, not just the narrowest.
proof fn lemma_varint_width_form(v: u64, w: nat, rest: Seq<u8>)
    requires
        is_varint_width(w),
        v < width_limit(w),
    ensures
        be_bytes((v + width_tag(w)) as nat, w).len() == w,
        parse_varint(be_bytes((v + width_tag(w)) as nat, w) + rest) == Ok::<(u64, nat), DecodeError>(
            (v, w),
        ),
{
    let x: nat = (v + width_tag(w)) as nat;
    let bytes = be_bytes(x, w);
    let s = bytes + rest;
    lemma_be_bytes_len(x, w);
    lemma_pow256_facts();
    lemma_be_bytes_first(x, w);
    let first = (x / pow256((w - 1) as nat)) % 256;
    if w == 1 {
        assert(first == x % 256);
        assert(first < 0x40);
    } else if w == 2 {
        assert(first == (x / 0x100) % 256);
        assert(0x40 <= x / 0x100 < 0x80);
    } else if w == 4 {
        assert(first == (x / 0x100_0000) % 256);
        assert(0x80 <= x / 0x100_0000 < 0xc0);
    } else {
        assert(first == (x / 0x100_0000_0000_0000) % 256);
        assert(0xc0 <= x / 0x100_0000_0000_0000 < 0x100);
    }
    assert(s[0] == bytes[0]);
    assert(width_of_first_byte(s[0]) == w);
    assert(x < pow256(w));
    assert(s.take(w as int) =~= bytes);
    lemma_be_value_of_bytes(x, w);
    lemma_small_mod(x, pow256(w));
    let k: int = width_tag(w) as int / width_limit(w) as int;
    assert(width_tag(w) == width_limit(w) * k);
    lemma_mod_multiples_vanish(k, v as int, width_limit(w) as int);
    lemma_small_mod(v as nat, width_limit(w));
}

/// Adding `c` whole units of `p` to `v` adds `c` to the quotient by `p`.
proof fn lemma_div_add_units(v: nat, c: nat, p: nat)
    requires
        p > 0,
    ensures
        (v + c * p) / p == c + v / p,
{
    lemma_fundamental_div_mod(v as int, p as int);
    assert(v + c * p == (c + v / p) * p + v % p) by (nonlinear_arith)
        requires
            v == p * (v / p) + v % p,
    ;
    lemma_fundamental_div_mod_converse((v + c * p) as int, p as int, (c + v / p) as int, (v % p) as int);
}

/// A byte below the top one of `v` plus tag bits: the tag bits (a multiple
/// of 256 units of `p`) do not show in it.
proof fn lemma_low_digit(v: nat, d: nat, p: nat)
    requires
        p > 0,
    ensures
        ((v + (256 * d) * p) / p) % 256 == (v / p) % 256,
{
    lemma_div_add_units(v, 256 * d, p);
    lemma_mod_multiples_vanish(d as int, (v / p) as int, 256);
}

/// The top byte of `v` plus tag bits `c` in the top place.
proof fn lemma_top_digit(v: nat, c: nat, p: nat)
    requires
        p > 0,
        v < 64 * p,
        c + 64 <= 256,
    ensures
        ((v + c * p) / p) % 256 == c + v / p,
{
    lemma_div_add_units(v, c, p);
    assert(v / p < 64) by (nonlinear_arith)
        requires
            v < 64 * p,
            p > 0,
    ;
    lemma_small_mod((c + v / p) as nat, 256);
}

/// A variable-length integer is read in every width that holds its value:
/// the one-, two-, four- and eight-byte forms of `v` (the width's tag in the
/// top two bits, then the value big-endian), followed by anything, each
/// decode to `v` and take their width.
pub proof fn lemma_varint_every_width(v: u64, rest: Seq<u8>)
    ensures
        v < 0x40 ==> parse_varint(seq![v as u8] + rest) == Ok::<(u64, nat), DecodeError>((v, 1)),
        v < 0x4000 ==> parse_varint(
            seq![(0x40 + v / 0x100) as u8, (v % 0x100) as u8] + rest,
        ) == Ok::<(u64, nat), DecodeError>((v, 2)),
        v < 0x4000_0000 ==> parse_varint(
            seq![
                (0x80 + v / 0x100_0000) as u8,
                ((v / 0x1_0000) % 0x100) as u8,
                ((v / 0x100) % 0x100) as u8,
                (v % 0x100) as u8,
            ] + rest,
        ) == Ok::<(u64, nat), DecodeError>((v, 4)),
        v < 0x4000_0000_0000_0000 ==> parse_varint(
            seq![
                (0xc0 + v / 0x100_0000_0000_0000) as u8,
                ((v / 0x1_0000_0000_0000) % 0x100) as u8,
                ((v / 0x100_0000_0000) % 0x100) as u8,
                ((v / 0x1_0000_0000) % 0x100) as u8,
                ((v / 0x100_0000) % 0x100) as u8,
                ((v / 0x1_0000) % 0x100) as u8,
                ((v / 0x100) % 0x100) as u8,
                (v % 0x100) as u8,
            ] + rest,
        ) == Ok::<(u64, nat), DecodeError>((v, 8)),
{
    lemma_pow256_facts();
    reveal_with_fuel(pow256, 8);
    let vn = v as nat;
    if v < 0x40 {
        lemma_varint_width_form(v, 1, rest);
        let b = be_bytes(vn, 1);
        lemma_be_bytes_index(vn, 1, 0);
        assert(b =~= seq![v as u8]);
    }
    if v < 0x4000 {
        lemma_varint_width_form(v, 2, rest);
        let x = vn + 0x4000;
        let b = be_bytes(x, 2);
        lemma_be_bytes_index(x, 2, 0);
        lemma_be_bytes_index(x, 2, 1);
        lemma_top_digit(vn, 0x40, 0x100);
        lemma_low_digit(vn, 0x40, 1);
        assert(b =~= seq![(0x40 + v / 0x100) as u8, (v % 0x100) as u8]);
    }
    if v < 0x4000_0000 {
        lemma_varint_width_form(v, 4, rest);
        let x = vn + 0x8000_0000;
        let b = be_bytes(x, 4);
        lemma_be_bytes_index(x, 4, 0);
        lemma_be_bytes_index(x, 4, 1);
        lemma_be_bytes_index(x, 4, 2);
        lemma_be_bytes_index(x, 4, 3);
        lemma_top_digit(vn, 0x80, 0x100_0000);
        lemma_low_digit(vn, 0x80, 0x1_0000);
        lemma_low_digit(vn, 0x8000, 0x100);
        lemma_low_digit(vn, 0x80_0000, 1);
        assert(b =~= seq![
            (0x80 + v / 0x100_0000) as u8,
            ((v / 0x1_0000) % 0x100) as u8,
            ((v / 0x100) % 0x100) as u8,
            (v % 0x100) as u8,
        ]);
    }
    if v < 0x4000_0000_0000_0000 {
        lemma_varint_width_form(v, 8, rest);
        let x = vn + 0xc000_0000_0000_0000;
        let b = be_bytes(x, 8);
        lemma_be_bytes_index(x, 8, 0);
        lemma_be_bytes_index(x, 8, 1);
        lemma_be_bytes_index(x, 8, 2);
        lemma_be_bytes_index(x, 8, 3);
        lemma_be_bytes_index(x, 8, 4);
        lemma_be_bytes_index(x, 8, 5);
        lemma_be_bytes_index(x, 8, 6);
        lemma_be_bytes_index(x, 8, 7);
        lemma_top_digit(vn, 0xc0, 0x100_0000_0000_0000);
        lemma_low_digit(vn, 0xc0, 0x1_0000_0000_0000);
        lemma_low_digit(vn, 0xc000, 0x100_0000_0000);
        lemma_low_digit(vn, 0xc0_0000, 0x1_0000_0000);
        lemma_low_digit(vn, 0xc000_0000, 0x100_0000);
        lemma_low_digit(vn, 0xc0_0000_0000, 0x1_0000);
        lemma_low_digit(vn, 0xc000_0000_0000, 0x100);
        lemma_low_digit(vn, 0xc0_0000_0000_0000, 1);
        assert(b =~= seq![
            (0xc0 + v / 0x100_0000_0000_0000) as u8,
            ((v / 0x1_0000_0000_0000) % 0x100) as u8,
            ((v / 0x100_0000_0000) % 0x100) as u8,
            ((v / 0x1_0000_0000) % 0x100) as u8,
            ((v / 0x100_0000) % 0x100) as u8,
            ((v / 0x1_0000) % 0x100) as u8,
            ((v / 0x100) % 0x100) as u8,
            (v % 0x100) as u8,
        ]);
    }
}

/// The encoder writes the shortest form there is: whatever bytes decode to a
/// value, the encoding of that value is no longer than they are.
pub proof fn lemma_varint_encoding_shortest(t: Seq<u8>)
    requires
        parse_varint(t) is Ok,
    ensures
        varint_bytes(parse_varint(t)->Ok_0.0).len() <= parse_varint(t)->Ok_0.1,
{
    let v = parse_varint(t)->Ok_0.0;
    let w = width_of_first_byte(t[0]);
    lemma_be_bytes_len((v + width_tag(varint_width(v))) as nat, varint_width(v));
    assert(v < width_limit(w));
}

/// A variable-length integer decodes from the bytes it takes alone: what
/// follows them does not change the result.
pub proof fn lemma_varint_ignores_what_follows(t: Seq<u8>, rest: Seq<u8>)
    requires
        parse_varint(t) is Ok,
    ensures
        parse_varint(t + rest) == parse_varint(t),
{
    let w = width_of_first_byte(t[0]);
    assert((t + rest)[0] == t[0]);
    assert((t + rest).take(w as int) =~= t.take(w as int));
}

/// Every proper prefix of the encoding of `v` decodes as too short.
pub proof fn lemma_varint_truncated(v: u64, i: int)
    requires
        v < VARINT_LIMIT,
        0 <= i < varint_width(v),
    ensures
        parse_varint(varint_bytes(v).take(i)) == Err::<(u64, nat), DecodeError>(DecodeError::Short),
{
    lemma_varint_first_byte(v);
    if i > 0 {
        assert(varint_bytes(v).take(i)[0] == varint_bytes(v)[0]);
    }
}

/// Spelling out the number that some bytes spell gives back those bytes.
proof fn lemma_be_bytes_of_value(t: Seq<u8>)
    ensures
        be_bytes(be_value(t), t.len()) == t,
    decreases t.len(),
{
    if t.len() > 0 {
        let d = t.drop_last();
        lemma_be_bytes_of_value(d);
        let x = be_value(t);
        assert(x / 256 == be_value(d));
        assert(x % 256 == t.last());
        assert(d.push(t.last()) =~= t);
    }
}

/// The number that `n` bytes spell is their first byte in the top place plus
/// the number that the rest spell.
proof fn lemma_be_value_first(t: Seq<u8>)
    requires
        t.len() >= 1,
    ensures
        be_value(t) == t[0] * pow256((t.len() - 1) as nat) + be_value(t.skip(1)),
    decreases t.len(),
{
    if t.len() == 1 {
        assert(t.drop_last() =~= Seq::<u8>::empty());
        assert(t.skip(1) =~= Seq::<u8>::empty());
        assert(be_value(Seq::<u8>::empty()) == 0);
        assert(be_value(t) == t[0]);
        assert(pow256(0) == 1);
        assert(t[0] * pow256(0) == t[0]);
    } else {
        let d = t.drop_last();
        lemma_be_value_first(d);
        assert(d.skip(1) =~= t.skip(1).drop_last());
        assert(t.skip(1).last() == t.last());
        assert(d[0] == t[0]);
        assert(be_value(t) == be_value(d) * 256 + t.last() as nat);
        assert(be_value(t.skip(1)) == be_value(d.skip(1)) * 256 + t.last() as nat);
        let p = pow256((t.len() - 2) as nat);
        assert(pow256((t.len() - 1) as nat) == 256 * p);
        assert((t[0] * p) * 256 == t[0] * (256 * p)) by (nonlinear_arith);
        let big_r = be_value(d.skip(1));
        assert(be_value(d) == t[0] * p + big_r);
        assert(be_value(t) == (t[0] * p + big_r) * 256 + t.last() as nat);
        assert(be_value(t) == (t[0] * p) * 256 + (big_r * 256 + t.last() as nat));
    }
}

proof fn lemma_split_top_byte(x: int, top: int, p: int, r: int, tag_index: int, low: int)
    by (nonlinear_arith)
    requires
        x == top * p + r,
        top == low + 64 * tag_index,
    ensures
        x == tag_index * (64 * p) + (low * p + r),
{
}

/// When a variable-length integer was read in as few bytes as the encoder
/// would have used, those bytes are exactly what the encoder writes: the
/// narrowest encoding is the only one that has its length.
pub proof fn lemma_varint_canonical(s: Seq<u8>)
    requires
        parse_varint(s) is Ok,
        parse_varint(s)->Ok_0.1 == varint_width(parse_varint(s)->Ok_0.0),
    ensures
        s.take(parse_varint(s)->Ok_0.1 as int) == varint_bytes(parse_varint(s)->Ok_0.0),
{
    let v = parse_varint(s)->Ok_0.0;
    let w = width_of_first_byte(s[0]);
    let t = s.take(w as int);
    let x = be_value(t);
    lemma_pow256_facts();
    lemma_be_value_first(t);
    lemma_be_value_bound(t.skip(1));
    let p = pow256((w - 1) as nat);
    let r = be_value(t.skip(1));
    assert(t[0] == s[0]);
    let tag_index: int = if w == 1 {
        0
    } else if w == 2 {
        1
    } else if w == 4 {
        2
    } else {
        3
    };
    let low: int = t[0] - 64 * tag_index;
    assert(0 <= low < 64);
    assert(x == t[0] * p + r);
    lemma_split_top_byte(x as int, t[0] as int, p as int, r as int, tag_index, low);
    assert(width_limit(w) == 64 * p);
    assert(0 <= low * p + r < width_limit(w)) by {
        if w == 1 {
        } else if w == 2 {
        } else if w == 4 {
        } else {
        }
    }
    lemma_fundamental_div_mod_converse(
        x as int,
        width_limit(w) as int,
        tag_index,
        low * p + r,
    );
    assert(width_tag(w) == tag_index * width_limit(w));
    assert(x == v + width_tag(w));
    lemma_be_bytes_of_value(t);
}

/// The bytes that hold a string of characters `c`: the length of their UTF-8
/// encoding, then that encoding.
pub open spec fn string_bytes(c: Seq<char>) -> Seq<u8> {
    varint_bytes(encode_utf8(c).len() as u64) + encode_utf8(c)
}

/// Decoding a byte string (a length, then that many bytes) from the front of
/// `s`: the bytes and the number of bytes taken, or why it failed.
pub open spec fn parse_bytes(s: Seq<u8>) -> Result<(Seq<u8>, nat), DecodeError> {
    match parse_varint(s) {
        Err(e) => Err(e),
        Ok((n, k)) => if n > usize::MAX {
            Err(DecodeError::BoundsExceeded)
        } else if s.len() < k + n {
            Err(DecodeError::Short)
        } else {
            Ok((s.subrange(k as int, k + n), (k + n) as nat))
        },
    }
}

/// Decoding a string from the front of `s`: its characters and the number of
/// bytes taken, or why it failed.
pub open spec fn parse_string(s: Seq<u8>) -> Result<(Seq<char>, nat), DecodeError> {
    match parse_bytes(s) {
        Err(e) => Err(e),
        Ok((b, k)) => if valid_utf8(b) {
            Ok((decode_utf8(b), k))
        } else {
            Err(DecodeError::InvalidString)
        },
    }
}

/// How many bytes a failing decode of a variable-length integer takes from
/// the front of `s`: none when `s` is empty, else the first byte (which was
/// read before the rest was found missing).
pub open spec fn varint_failure_taken(s: Seq<u8>) -> nat {
    if s.len() == 0 {
        0
    } else {
        1
    }
}

/// How many bytes a failing decode of a string takes from the front of `s`:
/// what the failing length took; or, when the length is too large for `usize`
/// or more than what follows, the length; or, when the bytes are not valid
/// UTF-8, the length and the bytes.
pub open spec fn string_failure_taken(s: Seq<u8>) -> nat {
    match parse_varint(s) {
        Err(_) => varint_failure_taken(s),
        Ok((n, k)) => if n > usize::MAX || s.len() < k + n {
            k
        } else {
            (k + n) as nat
        },
    }
}

/// Decoding a byte from the front of `s`.
pub open spec fn parse_u8(s: Seq<u8>) -> Result<(u8, nat), DecodeError> {
    if s.len() == 0 {
        Err(DecodeError::Short)
    } else {
        Ok((s[0], 1))
    }
}

/// Decoding the bytes of a string of characters `c`, with anything after
/// them, gives back `c` and consumes exactly those bytes.
pub proof fn lemma_string_roundtrip(c: Seq<char>, rest: Seq<u8>)
    requires
        encode_utf8(c).len() < VARINT_LIMIT,
        encode_utf8(c).len() <= usize::MAX,
    ensures
        parse_string(string_bytes(c) + rest) == Ok::<(Seq<char>, nat), DecodeError>(
            (c, string_bytes(c).len()),
        ),
{
    let b = encode_utf8(c);
    let n = b.len() as u64;
    let head = varint_bytes(n);
    lemma_varint_roundtrip(n, b + rest);
    let s = string_bytes(c) + rest;
    assert(s =~= head + (b + rest));
    let k = varint_width(n);
    assert(s.subrange(k as int, k + n) =~= b);
    encode_utf8_valid_utf8(c);
    encode_utf8_decode_utf8(c);
}

/// A string is read whatever width its length field has: when bytes `t`
/// decode, as a whole, to the length of the UTF-8 bytes of `c`, then `t`
/// followed by those bytes (and anything) decodes to `c` and takes both.
pub proof fn lemma_string_any_length_field(t: Seq<u8>, c: Seq<char>, rest: Seq<u8>)
    requires
        parse_varint(t) is Ok,
        parse_varint(t)->Ok_0.0 == encode_utf8(c).len(),
        parse_varint(t)->Ok_0.1 == t.len(),
        encode_utf8(c).len() <= usize::MAX,
    ensures
        parse_string(t + encode_utf8(c) + rest) == Ok::<(Seq<char>, nat), DecodeError>(
            (c, t.len() + encode_utf8(c).len()),
        ),
{
    let b = encode_utf8(c);
    let s = t + b + rest;
    lemma_varint_ignores_what_follows(t, b + rest);
    assert(s =~= t + (b + rest));
    assert(s.subrange(t.len() as int, (t.len() + b.len()) as int) =~= b);
    encode_utf8_valid_utf8(c);
    encode_utf8_decode_utf8(c);
}

/// Every proper prefix of the bytes of a string decodes as too short.
pub proof fn lemma_string_truncated(c: Seq<char>, i: int)
    requires
        encode_utf8(c).len() < VARINT_LIMIT,
        encode_utf8(c).len() <= usize::MAX,
        0 <= i < string_bytes(c).len(),
    ensures
        parse_string(string_bytes(c).take(i)) == Err::<(Seq<char>, nat), DecodeError>(
            DecodeError::Short,
        ),
{
    let b = encode_utf8(c);
    let n = b.len() as u64;
    let head = varint_bytes(n);
    let k = varint_width(n);
    lemma_varint_first_byte(n);
    let t = string_bytes(c).take(i);
    if i < k {
        assert(t =~= head.take(i));
        lemma_varint_truncated(n, i);
    } else {
        assert(t =~= head + b.take(i - k));
        lemma_varint_roundtrip(n, b.take(i - k));
    }
}

/// When a string was read in as many bytes as the encoder writes for it,
/// those bytes are exactly what the encoder writes.
pub proof fn lemma_string_canonical(s: Seq<u8>)
    requires
        parse_string(s) is Ok,
        parse_string(s)->Ok_0.1 == string_bytes(parse_string(s)->Ok_0.0).len(),
    ensures
        s.take(parse_string(s)->Ok_0.1 as int) == string_bytes(parse_string(s)->Ok_0.0),
{
    let n = parse_varint(s)->Ok_0.0;
    let kv = parse_varint(s)->Ok_0.1;
    let b = s.subrange(kv as int, kv + n);
    let c = decode_utf8(b);
    decode_utf8_encode_utf8(b);
    assert(encode_utf8(c) == b);
    lemma_varint_first_byte(n);
    lemma_varint_canonical(s);
    assert(s.take(kv + n) =~= s.take(kv as int) + b);
}

/// Makes `std::string::FromUtf8Error` usable in signatures.
#[verifier::external_type_specification]
#[verifier::external_body]
pub struct ExFromUtf8Error(FromUtf8Error);

/// `String::from_utf8`: succeeds exactly when the bytes are valid UTF-8, and
/// then holds the characters that they encode.
#[verifier::external_body]
fn string_from_utf8(bytes: Vec<u8>) -> (res: Result<String, FromUtf8Error>)
    ensures
        res is Ok <==> valid_utf8(bytes@),
        res matches Ok(s) ==> s@ == decode_utf8(bytes@),
{
    String::from_utf8(bytes)
}

/// Reads a byte.
pub fn decode_u8(buf: &mut BytesMut) -> (res: Result<u8, DecodeError>)
    ensures
        match parse_u8(buffer_contents(*old(buf))) {
            Ok((b, n)) => res == Ok::<u8, DecodeError>(b) && buffer_contents(*final(buf))
                == buffer_contents(*old(buf)).skip(n as int),
            Err(e) => res == Err::<u8, DecodeError>(e) && buffer_contents(*final(buf))
                == buffer_contents(*old(buf)),
        },
{
    if remaining(buf) == 0 {
        return Err(DecodeError::Short);
    }
    let b = get_u8(buf);
    proof {
        assert(buffer_contents(*old(buf)).drop_first() =~= buffer_contents(*old(buf)).skip(1));
    }
    Ok(b)
}

/// Writes a byte.
pub fn encode_u8(b: u8, buf: &mut BytesMut)
    requires
        buffer_contents(*old(buf)).len() + 1 <= isize::MAX,
    ensures
        buffer_contents(*final(buf)) == buffer_contents(*old(buf)).push(b),
{
    put_u8(buf, b)
}

/// Reads a variable-length integer.
pub fn decode_varint(buf: &mut BytesMut) -> (res: Result<u64, DecodeError>)
    ensures
        match parse_varint(buffer_contents(*old(buf))) {
            Ok((v, n)) => res == Ok::<u64, DecodeError>(v) && buffer_contents(*final(buf))
                == buffer_contents(*old(buf)).skip(n as int),
            Err(e) => res == Err::<u64, DecodeError>(e) && buffer_contents(*final(buf))
                == buffer_contents(*old(buf)).skip(varint_failure_taken(buffer_contents(*old(buf))) as int),
        },
{
    let ghost s = buffer_contents(*buf);
    if remaining(buf) == 0 {
        proof {
            assert(s.skip(0) =~= s);
        }
        return Err(DecodeError::Short);
    }
    let first = get_u8(buf);
    let w: usize = if first < 0x40 {
        1
    } else if first < 0x80 {
        2
    } else if first < 0xc0 {
        4
    } else {
        8
    };
    if remaining(buf) < w - 1 {
        proof {
            assert(s.drop_first() =~= s.skip(s.len() - (s.len() - 1)));
        }
        return Err(DecodeError::Short);
    }
    let mut x: u64 = first as u64;
    let mut i: usize = 1;
    proof {
        assert(s.drop_first() =~= s.skip(1));
        assert(s.take(1).drop_last() =~= Seq::<u8>::empty());
        assert(be_value(Seq::<u8>::empty()) == 0);
        assert(s.take(1).last() == first);
        assert(be_value(s.take(1)) == first);
        lemma_pow256_facts();
    }
    while i < w
        invariant
            1 <= i <= w <= 8,
            w == width_of_first_byte(s[0]),
            s.len() >= w,
            buffer_contents(*buf) == s.skip(i as int),
            x == be_value(s.take(i as int)),
        decreases w - i,
    {
        let ghost before = buffer_contents(*buf);
        let b = get_u8(buf);
        proof {
            assert(s.take(i + 1).drop_last() =~= s.take(i as int));
            assert(s.take(i + 1).last() == b);
            assert(before.drop_first() =~= s.skip(i + 1));
            lemma_be_value_bound(s.take(i as int));
            lemma_pow256_monotone((i + 1) as nat, 8);
            lemma_pow256_facts();
            assert(pow256((i + 1) as nat) == 256 * pow256(i as nat));
        }
        x = x * 256 + b as u64;
        i = i + 1;
    }
    let limit: u64 = if w == 1 {
        0x40
    } else if w == 2 {
        0x4000
    } else if w == 4 {
        0x4000_0000
    } else {
        0x4000_0000_0000_0000
    };
    Ok(x % limit)
}

/// Writes `v` as a variable-length integer of the narrowest width that holds
/// it. Values from 2^62 on cannot be written, which `requires` leaves out.
pub fn encode_varint(v: u64, buf: &mut BytesMut)
    requires
        v < VARINT_LIMIT,
        buffer_contents(*old(buf)).len() + varint_width(v) <= isize::MAX,
    ensures
        buffer_contents(*final(buf)) == buffer_contents(*old(buf)) + varint_bytes(v),
{
    let w: usize;
    let tag: u64;
    if v < 0x40 {
        w = 1;
        tag = 0;
    } else if v < 0x4000 {
        w = 2;
        tag = 0x4000;
    } else if v < 0x4000_0000 {
        w = 4;
        tag = 0x8000_0000;
    } else {
        w = 8;
        tag = 0xc000_0000_0000_0000;
    }
    let x: u64 = v + tag;
    let mut out: Vec<u8> = vec![0u8; w];
    let mut rest: u64 = x;
    let mut i: usize = w;
    proof {
        assert(be_bytes(x as nat, w as nat) =~= be_bytes(rest as nat, i as nat) + out@.subrange(
            i as int,
            w as int,
        ));
    }
    while i > 0
        invariant
            out.len() == w,
            i <= w,
            be_bytes(x as nat, w as nat) == be_bytes(rest as nat, i as nat) + out@.subrange(
                i as int,
                w as int,
            ),
        decreases i,
    {
        let ghost old_out = out@;
        let ghost old_rest = rest;
        i = i - 1;
        out.set(i, (rest % 256) as u8);
        rest = rest / 256;
        proof {
            assert(be_bytes(old_rest as nat, (i + 1) as nat) == be_bytes(rest as nat, i as nat).push(
                (old_rest % 256) as u8,
            ));
            assert(out@.subrange(i as int, w as int) =~= seq![(old_rest % 256) as u8]
                + old_out.subrange(i + 1, w as int));
            assert(be_bytes(rest as nat, i as nat) + out@.subrange(i as int, w as int)
                =~= be_bytes(old_rest as nat, (i + 1) as nat) + old_out.subrange(
                i + 1,
                w as int,
            ));
        }
    }
    proof {
        assert(out@.subrange(0, w as int) =~= out@);
        assert(be_bytes(rest as nat, 0) =~= Seq::<u8>::empty());
        assert(Seq::<u8>::empty() + out@ =~= out@);
    }
    put_slice(buf, out.as_slice());
}

/// Reads a string: a length, then that many bytes of UTF-8.
pub fn decode_string(buf: &mut BytesMut) -> (res: Result<String, DecodeError>)
    ensures
        match parse_string(buffer_contents(*old(buf))) {
            Ok((c, n)) => res matches Ok(s) && s@ == c && buffer_contents(*final(buf))
                == buffer_contents(*old(buf)).skip(n as int),
            Err(e) => res == Err::<String, DecodeError>(e) && buffer_contents(*final(buf))
                == buffer_contents(*old(buf)).skip(string_failure_taken(buffer_contents(*old(buf))) as int),
        },
{
    let ghost s = buffer_contents(*buf);
    let n = match decode_varint(buf) {
        Ok(n) => n,
        Err(e) => {
            return Err(e);
        },
    };
    let ghost k = varint_width_of(s);
    if n > usize::MAX as u64 {
        return Err(DecodeError::BoundsExceeded);
    }
    let n = n as usize;
    if remaining(buf) < n {
        return Err(DecodeError::Short);
    }
    let bytes = copy_to_vec(buf, n);
    proof {
        assert(bytes@ =~= s.subrange(k as int, k + n));
        assert(s.skip(k as int).skip(n as int) =~= s.skip(k + n));
    }
    match string_from_utf8(bytes) {
        Ok(text) => Ok(text),
        Err(_) => Err(DecodeError::InvalidString),
    }
}

/// The number of bytes that the variable-length integer at the front of `s`
/// takes.
spec fn varint_width_of(s: Seq<u8>) -> nat {
    match parse_varint(s) {
        Ok((_, k)) => k,
        Err(_) => 0,
    }
}

/// Writes a string: the length of its UTF-8 bytes, then those bytes. Strings
/// of 2^62 bytes or more cannot be written, which `requires` leaves out.
pub fn encode_string(text: &str, buf: &mut BytesMut)
    requires
        encode_utf8(text@).len() < VARINT_LIMIT,
        buffer_contents(*old(buf)).len() + string_bytes(text@).len() <= isize::MAX,
    ensures
        buffer_contents(*final(buf)) == buffer_contents(*old(buf)) + string_bytes(text@),
{
    let bytes = text.as_bytes();
    proof {
        lemma_varint_roundtrip(bytes@.len() as u64, Seq::empty());
    }
    encode_varint(bytes.len() as u64, buf);
    put_slice(buf, bytes);
    proof {
        assert(buffer_contents(*final(buf)) =~= buffer_contents(*old(buf)) + string_bytes(text@));
    }
}

} // verus!
