use vstd::prelude::*;
use crate::error::DecodeError;
use crate::encoding::{Decoded, Encoded, RoundTrip, SlowType};

verus! {

/// Reading two values back to back: the first, then the second from where
/// the first ended; the first failure stops the read.
pub open spec fn parse_pair<A: Decoded, B: Decoded>(bytes: Seq<u8>) -> Result<
    ((A::V, B::V), nat),
    DecodeError,
> {
    match A::parse(bytes) {
        Ok((a, n)) => match B::parse(bytes.skip(n as int)) {
            Ok((b, m)) => Ok(((a, b), n + m)),
            Err(e) => Err(e),
        },
        Err(e) => Err(e),
    }
}

/// A two-field product: the fields' encodings in order, with nothing between them.
impl<A: Encoded, B: Encoded> Encoded for (A, B) {
    open spec fn encoding(&self) -> Seq<u8> {
        self.0.encoding() + self.1.encoding()
    }

    fn encode(&self, output: &mut Vec<u8>) {
        self.0.encode(output);
        self.1.encode(output);
        assert(output@ =~= old(output)@ + (self.0.encoding() + self.1.encoding()));
    }
}

impl<A: Decoded, B: Decoded> Decoded for (A, B) {
    open spec fn parse(bytes: Seq<u8>) -> Result<((A::V, B::V), nat), DecodeError> {
        parse_pair::<A, B>(bytes)
    }

    fn decode(input: &[u8], pos: &mut usize) -> (r: Result<(A, B), DecodeError>) {
        let ghost bytes = input@.subrange(*old(pos) as int, input@.len() as int);
        let a = match A::decode(input, pos) {
            Ok(a) => a,
            Err(e) => return Err(e),
        };
        assert(bytes.skip(*pos - *old(pos)) =~= input@.subrange(*pos as int, input@.len() as int));
        let b = match B::decode(input, pos) {
            Ok(b) => b,
            Err(e) => return Err(e),
        };
        Ok((a, b))
    }
}

impl<A: RoundTrip, B: RoundTrip> RoundTrip for (A, B) {
    proof fn lemma_round_trip(v: (A, B), rest: Seq<u8>) {
        let ea = v.0.encoding();
        let eb = v.1.encoding();
        A::lemma_round_trip(v.0, eb + rest);
        B::lemma_round_trip(v.1, rest);
        assert(ea + eb + rest =~= ea + (eb + rest));
        assert((ea + (eb + rest)).skip(ea.len() as int) =~= eb + rest);
    }
}

impl<A, B> SlowType for (A, B) {}

/// Reading three values back to back, each from where the one before ended.
pub open spec fn parse_triple<A: Decoded, B: Decoded, C: Decoded>(bytes: Seq<u8>) -> Result<
    ((A::V, B::V, C::V), nat),
    DecodeError,
> {
    match parse_pair::<A, B>(bytes) {
        Ok(((a, b), n)) => match C::parse(bytes.skip(n as int)) {
            Ok((c, m)) => Ok(((a, b, c), n + m)),
            Err(e) => Err(e),
        },
        Err(e) => Err(e),
    }
}

/// A three-field product: the fields' encodings in order, with nothing between them.
impl<A: Encoded, B: Encoded, C: Encoded> Encoded for (A, B, C) {
    open spec fn encoding(&self) -> Seq<u8> {
        self.0.encoding() + self.1.encoding() + self.2.encoding()
    }

    fn encode(&self, output: &mut Vec<u8>) {
        self.0.encode(output);
        self.1.encode(output);
        self.2.encode(output);
    }
}

impl<A: Decoded, B: Decoded, C: Decoded> Decoded for (A, B, C) {
    open spec fn parse(bytes: Seq<u8>) -> Result<((A::V, B::V, C::V), nat), DecodeError> {
        parse_triple::<A, B, C>(bytes)
    }

    fn decode(input: &[u8], pos: &mut usize) -> (r: Result<(A, B, C), DecodeError>) {
        let ghost bytes = input@.subrange(*old(pos) as int, input@.len() as int);
        let a = match A::decode(input, pos) {
            Ok(a) => a,
            Err(e) => return Err(e),
        };
        assert(bytes.skip(*pos - *old(pos)) =~= input@.subrange(*pos as int, input@.len() as int));
        let b = match B::decode(input, pos) {
            Ok(b) => b,
            Err(e) => return Err(e),
        };
        assert(bytes.skip(*pos - *old(pos)) =~= input@.subrange(*pos as int, input@.len() as int));
        let c = match C::decode(input, pos) {
            Ok(c) => c,
            Err(e) => return Err(e),
        };
        Ok((a, b, c))
    }
}

impl<A: RoundTrip, B: RoundTrip, C: RoundTrip> RoundTrip for (A, B, C) {
    proof fn lemma_round_trip(v: (A, B, C), rest: Seq<u8>) {
        let ea = v.0.encoding();
        let eb = v.1.encoding();
        let ec = v.2.encoding();
        let all = ea + eb + ec + rest;
        A::lemma_round_trip(v.0, eb + ec + rest);
        B::lemma_round_trip(v.1, ec + rest);
        C::lemma_round_trip(v.2, rest);
        assert(all =~= ea + (eb + ec + rest));
        assert(all.skip(ea.len() as int) =~= eb + (ec + rest));
        assert(all.skip((ea.len() + eb.len()) as int) =~= ec + rest);
    }
}

impl<A, B, C> SlowType for (A, B, C) {}

} // verus!
