//! Little-endian encoding of integers.
//!
//! Every number in a buffer is stored least significant byte first, whatever
//! the host's byte order. The encoding is defined once, over natural numbers
//! and byte sequences, and the fixed-width integer types are instances of it.

use vstd::prelude::*;

verus! {

/// 256 to the power `n`: the number of values that `n` bytes can hold.
pub open spec fn radix_pow(n: nat) -> nat
    decreases n,
{
    if n == 0 {
        1
    } else {
        256 * radix_pow((n - 1) as nat)
    }
}

/// The number that `bytes` spell in base 256, least significant byte first.
pub open spec fn le_value(bytes: Seq<u8>) -> nat
    decreases bytes.len(),
{
    if bytes.len() == 0 {
        0
    } else {
        bytes[0] as nat + 256 * le_value(bytes.drop_first())
    }
}

/// The `width` low-order base-256 digits of `value`, least significant first.
pub open spec fn le_bytes(value: nat, width: nat) -> Seq<u8>
    decreases width,
{
    if width == 0 {
        Seq::empty()
    } else {
        seq![(value % 256) as u8] + le_bytes(value / 256, (width - 1) as nat)
    }
}

/// The natural number that stands for `value` in two's complement on
/// `width` bytes.
pub open spec fn to_unsigned(value: int, width: nat) -> nat {
    if value < 0 {
        (value + radix_pow(width)) as nat
    } else {
        value as nat
    }
}

/// The integer that `value` stands for in two's complement on `width` bytes.
pub open spec fn to_signed(value: nat, width: nat) -> int {
    if 2 * value >= radix_pow(width) {
        value - radix_pow(width)
    } else {
        value as int
    }
}

/// The values of `radix_pow` at the widths of the integer types.
pub proof fn lemma_radix_pow_values()
    ensures
        radix_pow(0) == 1,
        radix_pow(1) == 0x100,
        radix_pow(2) == 0x1_0000,
        radix_pow(4) == 0x1_0000_0000,
        radix_pow(8) == 0x1_0000_0000_0000_0000,
{
    reveal_with_fuel(radix_pow, 9);
}

/// `radix_pow` does not decrease.
pub proof fn lemma_radix_pow_monotonic(m: nat, n: nat)
    requires
        m <= n,
    ensures
        0 < radix_pow(m) <= radix_pow(n),
    decreases n,
{
    if n == 0 {
    } else if m == n {
        lemma_radix_pow_monotonic((m - 1) as nat, (n - 1) as nat);
    } else {
        lemma_radix_pow_monotonic(m, (n - 1) as nat);
    }
}

/// An encoding on `width` bytes has `width` bytes.
pub proof fn lemma_le_bytes_len(value: nat, width: nat)
    ensures
        le_bytes(value, width).len() == width,
    decreases width,
{
    if width > 0 {
        lemma_le_bytes_len(value / 256, (width - 1) as nat);
    }
}

/// `n` bytes spell a number below `256^n`.
pub proof fn lemma_le_value_bound(bytes: Seq<u8>)
    ensures
        le_value(bytes) < radix_pow(bytes.len()),
    decreases bytes.len(),
{
    if bytes.len() > 0 {
        lemma_le_value_bound(bytes.drop_first());
    }
}

/// Decoding undoes encoding, for every value that fits the width.
pub proof fn lemma_le_value_of_bytes(value: nat, width: nat)
    requires
        value < radix_pow(width),
    ensures
        le_value(le_bytes(value, width)) == value,
    decreases width,
{
    if width > 0 {
        let rest = le_bytes(value / 256, (width - 1) as nat);
        let all = le_bytes(value, width);
        lemma_le_value_of_bytes(value / 256, (width - 1) as nat);
        assert(all.drop_first() =~= rest);
        assert(all[0] == (value % 256) as u8);
    }
}

/// Encoding undoes decoding.
pub proof fn lemma_le_bytes_of_value(bytes: Seq<u8>)
    ensures
        le_bytes(le_value(bytes), bytes.len()) == bytes,
    decreases bytes.len(),
{
    if bytes.len() > 0 {
        let rest = bytes.drop_first();
        lemma_le_bytes_of_value(rest);
        let value = le_value(bytes);
        assert(value % 256 == bytes[0] as nat);
        assert(value / 256 == le_value(rest));
        assert(le_bytes(value, bytes.len()) =~= bytes);
    }
}

/// Reads the number that at most eight bytes spell, least significant first.
pub fn decode_le(bytes: &[u8]) -> (value: u64)
    requires
        bytes@.len() <= 8,
    ensures
        value == le_value(bytes@),
{
    let n = bytes.len();
    let mut acc: u64 = 0;
    let mut i: usize = n;
    while i > 0
        invariant
            i <= n,
            n == bytes@.len(),
            n <= 8,
            acc == le_value(bytes@.subrange(i as int, n as int)),
        decreases i,
    {
        i = i - 1;
        proof {
            let tail = bytes@.subrange(i as int, n as int);
            assert(tail.drop_first() =~= bytes@.subrange(i + 1, n as int));
            lemma_le_value_bound(tail);
            lemma_radix_pow_monotonic((n - i) as nat, 8);
            lemma_radix_pow_values();
        }
        acc = acc * 256 + bytes[i] as u64;
    }
    assert(bytes@.subrange(0, n as int) =~= bytes@);
    acc
}

/// Reads the number that the `width` bytes of `bytes` from `at` spell.
pub fn read_le(bytes: &[u8], at: usize, width: usize) -> (value: u64)
    requires
        width <= 8,
        at + width <= bytes@.len(),
    ensures
        value == le_value(bytes@.subrange(at as int, at + width)),
        value < radix_pow(width as nat),
{
    assert(bytes@.len() == bytes.len());
    let part = &bytes[at..at + width];
    proof {
        lemma_le_value_bound(part@);
    }
    decode_le(part)
}

/// Appends the `width` low-order bytes of `value` to `out`, least
/// significant first.
pub fn append_le(out: &mut Vec<u8>, value: u64, width: usize)
    ensures
        final(out)@ == old(out)@ + le_bytes(value as nat, width as nat),
{
    let ghost target = old(out)@ + le_bytes(value as nat, width as nat);
    let mut rest: u64 = value;
    let mut i: usize = 0;
    assert(out@ + le_bytes(rest as nat, (width - i) as nat) == target);
    while i < width
        invariant
            i <= width,
            out@ + le_bytes(rest as nat, (width - i) as nat) == target,
        decreases width - i,
    {
        let ghost before = out@;
        let ghost pending = le_bytes(rest as nat, (width - i) as nat);
        out.push((rest % 256) as u8);
        rest = rest / 256;
        i = i + 1;
        assert(out@ + le_bytes(rest as nat, (width - i) as nat) =~= before + pending);
    }
    assert(out@ + Seq::<u8>::empty() =~= out@);
}

/// The `width` low-order bytes of `value`, least significant first.
pub fn encode_le(value: u64, width: usize) -> (bytes: Vec<u8>)
    ensures
        bytes@ == le_bytes(value as nat, width as nat),
{
    let mut out: Vec<u8> = Vec::new();
    append_le(&mut out, value, width);
    assert(Seq::<u8>::empty() + le_bytes(value as nat, width as nat) =~= le_bytes(
        value as nat,
        width as nat,
    ));
    out
}

/// A value with a fixed-width little-endian encoding: what a field of the
/// fixed-data section can hold.
pub trait Scalar: Copy {
    /// The number of bytes of every encoded value of this type.
    spec fn spec_width() -> nat;

    /// The bytes that stand for `self`.
    spec fn spec_encode(self) -> Seq<u8>;

    /// The value that `bytes` stand for.
    spec fn spec_decode(bytes: Seq<u8>) -> Self;

    /// An encoding has the type's width, and decoding it gives the value back.
    proof fn lemma_codec(value: Self)
        ensures
            value.spec_encode().len() == Self::spec_width(),
            Self::spec_decode(value.spec_encode()) == value,
    ;

    fn width() -> (w: usize)
        ensures
            w == Self::spec_width(),
    ;

    fn encode(&self) -> (bytes: Vec<u8>)
        ensures
            bytes@ == self.spec_encode(),
    ;

    fn decode(bytes: &[u8]) -> (value: Self)
        requires
            bytes@.len() == Self::spec_width(),
        ensures
            value == Self::spec_decode(bytes@),
    ;
}

impl Scalar for u8 {
    open spec fn spec_width() -> nat {
        1
    }

    open spec fn spec_encode(self) -> Seq<u8> {
        le_bytes(self as nat, 1)
    }

    open spec fn spec_decode(bytes: Seq<u8>) -> u8 {
        le_value(bytes) as u8
    }

    proof fn lemma_codec(value: u8) {
        lemma_radix_pow_values();
        lemma_le_bytes_len(value as nat, 1);
        lemma_le_value_of_bytes(value as nat, 1);
    }

    fn width() -> (w: usize) {
        1
    }

    fn encode(&self) -> (bytes: Vec<u8>) {
        encode_le(*self as u64, 1)
    }

    fn decode(bytes: &[u8]) -> (value: u8) {
        proof {
            lemma_radix_pow_values();
            lemma_le_value_bound(bytes@);
        }
        decode_le(bytes) as u8
    }
}

impl Scalar for u16 {
    open spec fn spec_width() -> nat {
        2
    }

    open spec fn spec_encode(self) -> Seq<u8> {
        le_bytes(self as nat, 2)
    }

    open spec fn spec_decode(bytes: Seq<u8>) -> u16 {
        le_value(bytes) as u16
    }

    proof fn lemma_codec(value: u16) {
        lemma_radix_pow_values();
        lemma_le_bytes_len(value as nat, 2);
        lemma_le_value_of_bytes(value as nat, 2);
    }

    fn width() -> (w: usize) {
        2
    }

    fn encode(&self) -> (bytes: Vec<u8>) {
        encode_le(*self as u64, 2)
    }

    fn decode(bytes: &[u8]) -> (value: u16) {
        proof {
            lemma_radix_pow_values();
            lemma_le_value_bound(bytes@);
        }
        decode_le(bytes) as u16
    }
}

impl Scalar for u32 {
    open spec fn spec_width() -> nat {
        4
    }

    open spec fn spec_encode(self) -> Seq<u8> {
        le_bytes(self as nat, 4)
    }

    open spec fn spec_decode(bytes: Seq<u8>) -> u32 {
        le_value(bytes) as u32
    }

    proof fn lemma_codec(value: u32) {
        lemma_radix_pow_values();
        lemma_le_bytes_len(value as nat, 4);
        lemma_le_value_of_bytes(value as nat, 4);
    }

    fn width() -> (w: usize) {
        4
    }

    fn encode(&self) -> (bytes: Vec<u8>) {
        encode_le(*self as u64, 4)
    }

    fn decode(bytes: &[u8]) -> (value: u32) {
        proof {
            lemma_radix_pow_values();
            lemma_le_value_bound(bytes@);
        }
        decode_le(bytes) as u32
    }
}

impl Scalar for u64 {
    open spec fn spec_width() -> nat {
        8
    }

    open spec fn spec_encode(self) -> Seq<u8> {
        le_bytes(self as nat, 8)
    }

    open spec fn spec_decode(bytes: Seq<u8>) -> u64 {
        le_value(bytes) as u64
    }

    proof fn lemma_codec(value: u64) {
        lemma_radix_pow_values();
        lemma_le_bytes_len(value as nat, 8);
        lemma_le_value_of_bytes(value as nat, 8);
    }

    fn width() -> (w: usize) {
        8
    }

    fn encode(&self) -> (bytes: Vec<u8>) {
        encode_le(*self as u64, 8)
    }

    fn decode(bytes: &[u8]) -> (value: u64) {
        proof {
            lemma_radix_pow_values();
            lemma_le_value_bound(bytes@);
        }
        decode_le(bytes) as u64
    }
}

impl Scalar for i8 {
    open spec fn spec_width() -> nat {
        1
    }

    open spec fn spec_encode(self) -> Seq<u8> {
        le_bytes(to_unsigned(self as int, 1), 1)
    }

    open spec fn spec_decode(bytes: Seq<u8>) -> i8 {
        to_signed(le_value(bytes), 1) as i8
    }

    proof fn lemma_codec(value: i8) {
        lemma_radix_pow_values();
        lemma_le_bytes_len(to_unsigned(value as int, 1), 1);
        lemma_le_value_of_bytes(to_unsigned(value as int, 1), 1);
    }

    fn width() -> (w: usize) {
        1
    }

    fn encode(&self) -> (bytes: Vec<u8>) {
        proof {
            lemma_radix_pow_values();
        }
        let raw: u64 = if *self < 0 {
            (*self as i64 + 0x100) as u64
        } else {
            *self as u64
        };
        encode_le(raw, 1)
    }

    fn decode(bytes: &[u8]) -> (value: i8) {
        proof {
            lemma_radix_pow_values();
            lemma_le_value_bound(bytes@);
        }
        let raw = decode_le(bytes);
        if raw >= 0x80 {
            (raw as i64 - 0x100) as i8
        } else {
            raw as i8
        }
    }
}

impl Scalar for i16 {
    open spec fn spec_width() -> nat {
        2
    }

    open spec fn spec_encode(self) -> Seq<u8> {
        le_bytes(to_unsigned(self as int, 2), 2)
    }

    open spec fn spec_decode(bytes: Seq<u8>) -> i16 {
        to_signed(le_value(bytes), 2) as i16
    }

    proof fn lemma_codec(value: i16) {
        lemma_radix_pow_values();
        lemma_le_bytes_len(to_unsigned(value as int, 2), 2);
        lemma_le_value_of_bytes(to_unsigned(value as int, 2), 2);
    }

    fn width() -> (w: usize) {
        2
    }

    fn encode(&self) -> (bytes: Vec<u8>) {
        proof {
            lemma_radix_pow_values();
        }
        let raw: u64 = if *self < 0 {
            (*self as i64 + 0x1_0000) as u64
        } else {
            *self as u64
        };
        encode_le(raw, 2)
    }

    fn decode(bytes: &[u8]) -> (value: i16) {
        proof {
            lemma_radix_pow_values();
            lemma_le_value_bound(bytes@);
        }
        let raw = decode_le(bytes);
        if raw >= 0x8000 {
            (raw as i64 - 0x1_0000) as i16
        } else {
            raw as i16
        }
    }
}

impl Scalar for i32 {
    open spec fn spec_width() -> nat {
        4
    }

    open spec fn spec_encode(self) -> Seq<u8> {
        le_bytes(to_unsigned(self as int, 4), 4)
    }

    open spec fn spec_decode(bytes: Seq<u8>) -> i32 {
        to_signed(le_value(bytes), 4) as i32
    }

    proof fn lemma_codec(value: i32) {
        lemma_radix_pow_values();
        lemma_le_bytes_len(to_unsigned(value as int, 4), 4);
        lemma_le_value_of_bytes(to_unsigned(value as int, 4), 4);
    }

    fn width() -> (w: usize) {
        4
    }

    fn encode(&self) -> (bytes: Vec<u8>) {
        proof {
            lemma_radix_pow_values();
        }
        let raw: u64 = if *self < 0 {
            (*self as i64 + 0x1_0000_0000) as u64
        } else {
            *self as u64
        };
        encode_le(raw, 4)
    }

    fn decode(bytes: &[u8]) -> (value: i32) {
        proof {
            lemma_radix_pow_values();
            lemma_le_value_bound(bytes@);
        }
        let raw = decode_le(bytes);
        if raw >= 0x8000_0000 {
            (raw as i64 - 0x1_0000_0000) as i32
        } else {
            raw as i32
        }
    }
}

impl Scalar for i64 {
    open spec fn spec_width() -> nat {
        8
    }

    open spec fn spec_encode(self) -> Seq<u8> {
        le_bytes(to_unsigned(self as int, 8), 8)
    }

    open spec fn spec_decode(bytes: Seq<u8>) -> i64 {
        to_signed(le_value(bytes), 8) as i64
    }

    proof fn lemma_codec(value: i64) {
        lemma_radix_pow_values();
        lemma_le_bytes_len(to_unsigned(value as int, 8), 8);
        lemma_le_value_of_bytes(to_unsigned(value as int, 8), 8);
    }

    fn width() -> (w: usize) {
        8
    }

    fn encode(&self) -> (bytes: Vec<u8>) {
        proof {
            lemma_radix_pow_values();
        }
        let raw: u64 = if *self < 0 {
            (*self as i128 + 0x1_0000_0000_0000_0000) as u64
        } else {
            *self as u64
        };
        encode_le(raw, 8)
    }

    fn decode(bytes: &[u8]) -> (value: i64) {
        proof {
            lemma_radix_pow_values();
            lemma_le_value_bound(bytes@);
        }
        let raw = decode_le(bytes);
        if raw >= 0x8000_0000_0000_0000 {
            (raw as i128 - 0x1_0000_0000_0000_0000) as i64
        } else {
            raw as i64
        }
    }
}

} // verus!
