use vstd::prelude::*;
use crate::error::DecodeError;
use crate::encoding::{Decoded, Encoded, RoundTrip};

verus! {

/// `256` raised to `width`: one more than the largest number `width` bytes hold.
pub open spec fn byte_power(width: nat) -> nat
    decreases width,
{
    if width == 0 {
        1
    } else {
        256 * byte_power((width - 1) as nat)
    }
}

/// The `width` little-endian bytes of `x`, least significant first.
pub open spec fn le_bytes(x: nat, width: nat) -> Seq<u8>
    decreases width,
{
    if width == 0 {
        Seq::empty()
    } else {
        seq![(x % 256) as u8] + le_bytes(x / 256, (width - 1) as nat)
    }
}

/// The number that the little-endian `bytes` stand for.
pub open spec fn le_value(bytes: Seq<u8>) -> nat
    decreases bytes.len(),
{
    if bytes.len() == 0 {
        0
    } else {
        bytes[0] as nat + 256 * le_value(bytes.drop_first())
    }
}

/// Reading a `width`-byte little-endian number from the front of `bytes`:
/// the number and `width`, or `UnexpectedEof` when fewer bytes remain.
pub open spec fn parse_le(bytes: Seq<u8>, width: nat) -> Result<(nat, nat), DecodeError> {
    if bytes.len() < width {
        Err(DecodeError::UnexpectedEof)
    } else {
        Ok((le_value(bytes.take(width as int)), width))
    }
}

/// The ranges of one, two, four and eight bytes.
pub proof fn lemma_byte_power_values()
    ensures
        byte_power(1) == 0x100,
        byte_power(2) == 0x1_0000,
        byte_power(4) == 0x1_0000_0000,
        byte_power(8) == 0x1_0000_0000_0000_0000,
{
    reveal_with_fuel(byte_power, 9);
}

/// `width` little-endian bytes are `width` bytes long.
pub proof fn lemma_le_bytes_len(x: nat, width: nat)
    ensures
        le_bytes(x, width).len() == width,
    decreases width,
{
    if width > 0 {
        lemma_le_bytes_len(x / 256, (width - 1) as nat);
    }
}

/// A number read from `n` bytes is below `256` to the `n`.
pub proof fn lemma_le_value_bound(bytes: Seq<u8>)
    ensures
        le_value(bytes) < byte_power(bytes.len()),
    decreases bytes.len(),
{
    if bytes.len() > 0 {
        let tail = bytes.drop_first();
        lemma_le_value_bound(tail);
        let t = le_value(tail);
        let p = byte_power(tail.len());
        let b = bytes[0] as nat;
        assert(b + 256 * t < 256 * p) by (nonlinear_arith)
            requires
                b < 256,
                t < p,
        ;
    }
}

/// Little-endian bytes read back as the number they were made from.
pub proof fn lemma_le_round_trip(x: nat, width: nat)
    requires
        x < byte_power(width),
    ensures
        le_value(le_bytes(x, width)) == x,
    decreases width,
{
    if width > 0 {
        let w1 = (width - 1) as nat;
        assert(x / 256 < byte_power(w1)) by (nonlinear_arith)
            requires
                x < 256 * byte_power(w1),
        ;
        lemma_le_round_trip(x / 256, w1);
        assert(le_bytes(x, width).drop_first() =~= le_bytes(x / 256, w1));
    }
}

/// One little-endian byte is the number itself.
pub proof fn lemma_le_one_byte(x: nat)
    requires
        x < 256,
    ensures
        le_bytes(x, 1) == seq![x as u8],
{
    assert(le_bytes(x / 256, 0) =~= Seq::<u8>::empty());
    assert(le_bytes(x, 1) =~= seq![x as u8]);
}

/// A single byte read as a little-endian number is that byte.
pub proof fn lemma_le_value_one_byte(bytes: Seq<u8>)
    requires
        bytes.len() == 1,
    ensures
        le_value(bytes) == bytes[0],
{
    assert(le_value(bytes.drop_first()) == 0);
}

/// A little-endian number followed by anything parses back as that number.
pub proof fn lemma_parse_le_round_trip(x: nat, width: nat, rest: Seq<u8>)
    requires
        x < byte_power(width),
    ensures
        parse_le(le_bytes(x, width) + rest, width) == Ok::<(nat, nat), DecodeError>((x, width)),
{
    lemma_le_bytes_len(x, width);
    lemma_le_round_trip(x, width);
    assert((le_bytes(x, width) + rest).take(width as int) =~= le_bytes(x, width));
}

/// Appends the `width` little-endian bytes of `x` to `output`.
pub fn write_le(output: &mut Vec<u8>, x: u64, width: usize)
    requires
        width <= 8,
        x < byte_power(width as nat),
    ensures
        final(output)@ == old(output)@ + le_bytes(x as nat, width as nat),
{
    let mut rem: u64 = x;
    let mut left: usize = width;
    while left > 0
        invariant
            left <= width,
            output@ + le_bytes(rem as nat, left as nat) == old(output)@ + le_bytes(
                x as nat,
                width as nat,
            ),
        decreases left,
    {
        let ghost before = output@;
        output.push((rem % 256) as u8);
        assert(le_bytes(rem as nat, left as nat) == seq![(rem % 256) as u8] + le_bytes(
            (rem / 256) as nat,
            (left - 1) as nat,
        ));
        assert(output@ + le_bytes((rem / 256) as nat, (left - 1) as nat) =~= before + le_bytes(
            rem as nat,
            left as nat,
        ));
        rem = rem / 256;
        left = left - 1;
    }
    assert(output@ + le_bytes(rem as nat, 0) =~= output@);
}

/// Reads a `width`-byte little-endian number from `input` at `*pos`.
pub fn read_le(input: &[u8], pos: &mut usize, width: usize) -> (r: Result<u64, DecodeError>)
    requires
        1 <= width <= 8,
        *old(pos) <= input@.len(),
    ensures
        match parse_le(input@.subrange(*old(pos) as int, input@.len() as int), width as nat) {
            Ok((v, n)) => r == Ok::<u64, DecodeError>(v as u64) && *final(pos) == *old(pos) + n
                && v < byte_power(width as nat),
            Err(e) => r == Err::<u64, DecodeError>(e) && *final(pos) == *old(pos),
        },
{
    let start = *pos;
    if input.len() - start < width {
        return Err(DecodeError::UnexpectedEof);
    }
    let ghost field = input@.subrange(start as int, start + width);
    let mut acc: u64 = 0;
    let mut i: usize = width;
    proof {
        lemma_byte_power_values();
    }
    while i > 0
        invariant
            i <= width <= 8,
            start + width <= input.len(),
            field == input@.subrange(start as int, start + width),
            acc as nat == le_value(field.subrange(i as int, width as int)),
            byte_power((width - i) as nat) <= byte_power(8),
            byte_power(8) == 0x1_0000_0000_0000_0000,
        decreases i,
    {
        let ghost tail = field.subrange(i as int, width as int);
        let ghost next = field.subrange(i - 1, width as int);
        assert(next.drop_first() =~= tail);
        proof {
            lemma_le_value_bound(tail);
            lemma_byte_power_monotone((width - i + 1) as nat, 8);
        }
        let b = input[start + i - 1];
        assert(b == next[0]);
        assert(acc * 256 + b < 256 * byte_power((width - i) as nat)) by (nonlinear_arith)
            requires
                acc < byte_power((width - i) as nat),
                b < 256,
        ;
        acc = acc * 256 + b as u64;
        i = i - 1;
    }
    assert(field.subrange(0, width as int) =~= field);
    assert(input@.subrange(start as int, input@.len() as int).take(width as int) =~= field);
    proof {
        lemma_le_value_bound(field);
    }
    *pos = start + width;
    Ok(acc)
}

/// More bytes hold at least as large a range.
pub proof fn lemma_byte_power_monotone(a: nat, b: nat)
    requires
        a <= b,
    ensures
        byte_power(a) <= byte_power(b),
    decreases b,
{
    if a < b {
        lemma_byte_power_monotone(a, (b - 1) as nat);
    }
}

impl Encoded for bool {
    /// One byte: `1` for true, `0` for false.
    open spec fn encoding(&self) -> Seq<u8> {
        seq![if *self { 1u8 } else { 0u8 }]
    }

    fn encode(&self, output: &mut Vec<u8>) {
        let byte: u8 = if *self { 1 } else { 0 };
        output.push(byte);
    }
}

impl Decoded for bool {
    /// One byte; any byte but `0` reads as true.
    open spec fn parse(bytes: Seq<u8>) -> Result<(bool, nat), DecodeError> {
        if bytes.len() < 1 {
            Err(DecodeError::UnexpectedEof)
        } else {
            Ok((bytes[0] != 0, 1))
        }
    }

    fn decode(input: &[u8], pos: &mut usize) -> (r: Result<bool, DecodeError>) {
        if *pos >= input.len() {
            return Err(DecodeError::UnexpectedEof);
        }
        let byte = input[*pos];
        *pos = *pos + 1;
        Ok(byte != 0)
    }
}

impl RoundTrip for bool {
    proof fn lemma_round_trip(v: bool, rest: Seq<u8>) {
    }
}

impl Encoded for u8 {
    /// 1 little-endian byte.
    open spec fn encoding(&self) -> Seq<u8> {
        le_bytes(*self as nat, 1)
    }

    fn encode(&self, output: &mut Vec<u8>) {
        proof {
            lemma_byte_power_values();
        }
        write_le(output, *self as u64, 1);
    }
}

impl Decoded for u8 {
    open spec fn parse(bytes: Seq<u8>) -> Result<(u8, nat), DecodeError> {
        match parse_le(bytes, 1) {
            Ok((x, n)) => Ok((x as u8, n)),
            Err(e) => Err(e),
        }
    }

    fn decode(input: &[u8], pos: &mut usize) -> (r: Result<u8, DecodeError>) {
        proof {
            lemma_byte_power_values();
        }
        match read_le(input, pos, 1) {
            Ok(x) => Ok(x as u8),
            Err(e) => Err(e),
        }
    }
}

impl RoundTrip for u8 {
    proof fn lemma_round_trip(v: u8, rest: Seq<u8>) {
        lemma_byte_power_values();
        lemma_parse_le_round_trip(v as nat, 1, rest);
        lemma_le_bytes_len(v as nat, 1);
    }
}

impl Encoded for u16 {
    /// 2 little-endian bytes.
    open spec fn encoding(&self) -> Seq<u8> {
        le_bytes(*self as nat, 2)
    }

    fn encode(&self, output: &mut Vec<u8>) {
        proof {
            lemma_byte_power_values();
        }
        write_le(output, *self as u64, 2);
    }
}

impl Decoded for u16 {
    open spec fn parse(bytes: Seq<u8>) -> Result<(u16, nat), DecodeError> {
        match parse_le(bytes, 2) {
            Ok((x, n)) => Ok((x as u16, n)),
            Err(e) => Err(e),
        }
    }

    fn decode(input: &[u8], pos: &mut usize) -> (r: Result<u16, DecodeError>) {
        proof {
            lemma_byte_power_values();
        }
        match read_le(input, pos, 2) {
            Ok(x) => Ok(x as u16),
            Err(e) => Err(e),
        }
    }
}

impl RoundTrip for u16 {
    proof fn lemma_round_trip(v: u16, rest: Seq<u8>) {
        lemma_byte_power_values();
        lemma_parse_le_round_trip(v as nat, 2, rest);
        lemma_le_bytes_len(v as nat, 2);
    }
}

impl Encoded for u32 {
    /// 4 little-endian bytes.
    open spec fn encoding(&self) -> Seq<u8> {
        le_bytes(*self as nat, 4)
    }

    fn encode(&self, output: &mut Vec<u8>) {
        proof {
            lemma_byte_power_values();
        }
        write_le(output, *self as u64, 4);
    }
}

impl Decoded for u32 {
    open spec fn parse(bytes: Seq<u8>) -> Result<(u32, nat), DecodeError> {
        match parse_le(bytes, 4) {
            Ok((x, n)) => Ok((x as u32, n)),
            Err(e) => Err(e),
        }
    }

    fn decode(input: &[u8], pos: &mut usize) -> (r: Result<u32, DecodeError>) {
        proof {
            lemma_byte_power_values();
        }
        match read_le(input, pos, 4) {
            Ok(x) => Ok(x as u32),
            Err(e) => Err(e),
        }
    }
}

impl RoundTrip for u32 {
    proof fn lemma_round_trip(v: u32, rest: Seq<u8>) {
        lemma_byte_power_values();
        lemma_parse_le_round_trip(v as nat, 4, rest);
        lemma_le_bytes_len(v as nat, 4);
    }
}

impl Encoded for u64 {
    /// 8 little-endian bytes.
    open spec fn encoding(&self) -> Seq<u8> {
        le_bytes(*self as nat, 8)
    }

    fn encode(&self, output: &mut Vec<u8>) {
        proof {
            lemma_byte_power_values();
        }
        write_le(output, *self as u64, 8);
    }
}

impl Decoded for u64 {
    open spec fn parse(bytes: Seq<u8>) -> Result<(u64, nat), DecodeError> {
        match parse_le(bytes, 8) {
            Ok((x, n)) => Ok((x as u64, n)),
            Err(e) => Err(e),
        }
    }

    fn decode(input: &[u8], pos: &mut usize) -> (r: Result<u64, DecodeError>) {
        proof {
            lemma_byte_power_values();
        }
        match read_le(input, pos, 8) {
            Ok(x) => Ok(x as u64),
            Err(e) => Err(e),
        }
    }
}

impl RoundTrip for u64 {
    proof fn lemma_round_trip(v: u64, rest: Seq<u8>) {
        lemma_byte_power_values();
        lemma_parse_le_round_trip(v as nat, 8, rest);
        lemma_le_bytes_len(v as nat, 8);
    }
}

impl Encoded for i8 {
    /// The two's-complement bits as 1 little-endian byte.
    open spec fn encoding(&self) -> Seq<u8> {
        le_bytes((*self as u8) as nat, 1)
    }

    fn encode(&self, output: &mut Vec<u8>) {
        proof {
            lemma_byte_power_values();
        }
        write_le(output, (*self as u8) as u64, 1);
    }
}

impl Decoded for i8 {
    open spec fn parse(bytes: Seq<u8>) -> Result<(i8, nat), DecodeError> {
        match parse_le(bytes, 1) {
            Ok((x, n)) => Ok(((x as u8) as i8, n)),
            Err(e) => Err(e),
        }
    }

    fn decode(input: &[u8], pos: &mut usize) -> (r: Result<i8, DecodeError>) {
        proof {
            lemma_byte_power_values();
        }
        match read_le(input, pos, 1) {
            Ok(x) => Ok((x as u8) as i8),
            Err(e) => Err(e),
        }
    }
}

impl RoundTrip for i8 {
    proof fn lemma_round_trip(v: i8, rest: Seq<u8>) {
        lemma_byte_power_values();
        lemma_parse_le_round_trip((v as u8) as nat, 1, rest);
        lemma_le_bytes_len((v as u8) as nat, 1);
        assert(((v as u8) as i8) == v) by (bit_vector);
    }
}

impl Encoded for i16 {
    /// The two's-complement bits as 2 little-endian bytes.
    open spec fn encoding(&self) -> Seq<u8> {
        le_bytes((*self as u16) as nat, 2)
    }

    fn encode(&self, output: &mut Vec<u8>) {
        proof {
            lemma_byte_power_values();
        }
        write_le(output, (*self as u16) as u64, 2);
    }
}

impl Decoded for i16 {
    open spec fn parse(bytes: Seq<u8>) -> Result<(i16, nat), DecodeError> {
        match parse_le(bytes, 2) {
            Ok((x, n)) => Ok(((x as u16) as i16, n)),
            Err(e) => Err(e),
        }
    }

    fn decode(input: &[u8], pos: &mut usize) -> (r: Result<i16, DecodeError>) {
        proof {
            lemma_byte_power_values();
        }
        match read_le(input, pos, 2) {
            Ok(x) => Ok((x as u16) as i16),
            Err(e) => Err(e),
        }
    }
}

impl RoundTrip for i16 {
    proof fn lemma_round_trip(v: i16, rest: Seq<u8>) {
        lemma_byte_power_values();
        lemma_parse_le_round_trip((v as u16) as nat, 2, rest);
        lemma_le_bytes_len((v as u16) as nat, 2);
        assert(((v as u16) as i16) == v) by (bit_vector);
    }
}

impl Encoded for i32 {
    /// The two's-complement bits as 4 little-endian bytes.
    open spec fn encoding(&self) -> Seq<u8> {
        le_bytes((*self as u32) as nat, 4)
    }

    fn encode(&self, output: &mut Vec<u8>) {
        proof {
            lemma_byte_power_values();
        }
        write_le(output, (*self as u32) as u64, 4);
    }
}

impl Decoded for i32 {
    open spec fn parse(bytes: Seq<u8>) -> Result<(i32, nat), DecodeError> {
        match parse_le(bytes, 4) {
            Ok((x, n)) => Ok(((x as u32) as i32, n)),
            Err(e) => Err(e),
        }
    }

    fn decode(input: &[u8], pos: &mut usize) -> (r: Result<i32, DecodeError>) {
        proof {
            lemma_byte_power_values();
        }
        match read_le(input, pos, 4) {
            Ok(x) => Ok((x as u32) as i32),
            Err(e) => Err(e),
        }
    }
}

impl RoundTrip for i32 {
    proof fn lemma_round_trip(v: i32, rest: Seq<u8>) {
        lemma_byte_power_values();
        lemma_parse_le_round_trip((v as u32) as nat, 4, rest);
        lemma_le_bytes_len((v as u32) as nat, 4);
        assert(((v as u32) as i32) == v) by (bit_vector);
    }
}

impl Encoded for i64 {
    /// The two's-complement bits as 8 little-endian bytes.
    open spec fn encoding(&self) -> Seq<u8> {
        le_bytes((*self as u64) as nat, 8)
    }

    fn encode(&self, output: &mut Vec<u8>) {
        proof {
            lemma_byte_power_values();
        }
        write_le(output, (*self as u64) as u64, 8);
    }
}

impl Decoded for i64 {
    open spec fn parse(bytes: Seq<u8>) -> Result<(i64, nat), DecodeError> {
        match parse_le(bytes, 8) {
            Ok((x, n)) => Ok(((x as u64) as i64, n)),
            Err(e) => Err(e),
        }
    }

    fn decode(input: &[u8], pos: &mut usize) -> (r: Result<i64, DecodeError>) {
        proof {
            lemma_byte_power_values();
        }
        match read_le(input, pos, 8) {
            Ok(x) => Ok((x as u64) as i64),
            Err(e) => Err(e),
        }
    }
}

impl RoundTrip for i64 {
    proof fn lemma_round_trip(v: i64, rest: Seq<u8>) {
        lemma_byte_power_values();
        lemma_parse_le_round_trip((v as u64) as nat, 8, rest);
        lemma_le_bytes_len((v as u64) as nat, 8);
        assert(((v as u64) as i64) == v) by (bit_vector);
    }
}

} // verus!
