use vstd::prelude::*;
use crate::error::DecodeError;
use crate::encoding::{Decoded, Encoded, RoundTrip};
use crate::scalar::{read_le, write_le};
use crate::sum::{decode_tag, encode_tag};

verus! {

/// The declared shape of a value, as a struct or enum declaration gives it:
/// enough for the codec to derive the value's encoder and decoder.
#[derive(Debug, PartialEq, Eq)]
pub enum Shape {
    Bool,
    /// A fixed-width integer of this many bytes (1, 2, 4 or 8); whether it
    /// is signed does not change its bytes.
    Int(usize),
    Text,
    /// A growable sequence of elements of one shape.
    List(Box<Shape>),
    /// A struct: its fields' shapes in declaration order.
    Struct(Vec<Shape>),
    /// An enum: each variant's field shapes (a `Struct` shape), in
    /// declaration order; a variant's ordinal is its index here.
    Enum(Vec<Shape>),
}

/// A value to be encoded by its shape.
#[derive(Debug, PartialEq, Eq)]
pub enum Value {
    Bool(bool),
    /// An integer's bits, read as unsigned.
    Int(u64),
    Text(String),
    List(Vec<Value>),
    /// A struct's field values in declaration order.
    Struct(Vec<Value>),
    /// An enum value: the ordinal of its variant and that variant's fields.
    Variant(u64, Box<Value>),
}

/// The content of a value, as decoding gives it back.
pub enum Model {
    Bool(bool),
    Int(nat),
    Text(Seq<char>),
    List(Seq<Model>),
    Struct(Seq<Model>),
    Variant(nat, Box<Model>),
}

/// The content of `v`.
pub open spec fn model(v: Value) -> Model
    decreases v,
{
    match v {
        Value::Bool(b) => Model::Bool(b),
        Value::Int(x) => Model::Int(x as nat),
        Value::Text(t) => Model::Text(t@),
        Value::List(items) => Model::List(models(items@)),
        Value::Struct(xs) => Model::Struct(models(xs@)),
        Value::Variant(k, p) => Model::Variant(k as nat, Box::new(model(*p))),
    }
}

/// The contents of `vs`, in order.
pub open spec fn models(vs: Seq<Value>) -> Seq<Model>
    decreases vs,
{
    if vs.len() == 0 {
        Seq::empty()
    } else {
        models(vs.subrange(0, vs.len() - 1)).push(model(vs[vs.len() - 1]))
    }
}

/// Whether `v` has shape `s`: every integer fits its declared width, a
/// struct has one value per field, a variant's ordinal names a declared variant.
pub open spec fn fits(s: Shape, v: Value) -> bool
    decreases v,
{
    match v {
        Value::Bool(_) => s is Bool,
        Value::Int(x) => match s {
            Shape::Int(w) => crate::sum::is_tag_width(w as nat) && x < crate::scalar::byte_power(w as nat),
            _ => false,
        },
        Value::Text(_) => s is Text,
        Value::List(items) => match s {
            Shape::List(e) => all_fit(*e, items@),
            _ => false,
        },
        Value::Struct(xs) => match s {
            Shape::Struct(fs) => fs@.len() == xs@.len() && fields_fit(fs@, xs@),
            _ => false,
        },
        Value::Variant(k, p) => match s {
            Shape::Enum(vs) => k < vs@.len() && fits(vs@[k as int], *p),
            _ => false,
        },
    }
}

/// Whether every value of `vs` has shape `e`.
pub open spec fn all_fit(e: Shape, vs: Seq<Value>) -> bool
    decreases vs,
{
    if vs.len() == 0 {
        true
    } else {
        all_fit(e, vs.subrange(0, vs.len() - 1)) && fits(e, vs[vs.len() - 1])
    }
}

/// Whether each value of `xs` has the shape at the same place in `fs`.
pub open spec fn fields_fit(fs: Seq<Shape>, xs: Seq<Value>) -> bool
    decreases xs,
{
    if xs.len() == 0 {
        true
    } else {
        fields_fit(fs, xs.subrange(0, xs.len() - 1)) && fits(fs[xs.len() - 1], xs[xs.len() - 1])
    }
}

/// The bytes of `v` encoded by shape `s`.
pub open spec fn value_bytes(s: Shape, v: Value) -> Seq<u8>
    decreases v,
{
    match v {
        Value::Bool(b) => b.encoding(),
        Value::Int(x) => match s {
            Shape::Int(w) => crate::scalar::le_bytes(x as nat, w as nat),
            _ => Seq::empty(),
        },
        Value::Text(t) => t.encoding(),
        Value::List(items) => match s {
            Shape::List(e) => crate::sequence::count_prefix(items@.len()) + list_bytes(*e, items@),
            _ => Seq::empty(),
        },
        Value::Struct(xs) => match s {
            Shape::Struct(fs) => fields_bytes(fs@, xs@),
            _ => Seq::empty(),
        },
        Value::Variant(k, p) => match s {
            Shape::Enum(vs) => crate::sum::tag_encoding(k as nat, vs@.len()) + value_bytes(
                vs@[k as int],
                *p,
            ),
            _ => Seq::empty(),
        },
    }
}

/// The values of `vs`, each encoded by shape `e`, back to back.
pub open spec fn list_bytes(e: Shape, vs: Seq<Value>) -> Seq<u8>
    decreases vs,
{
    if vs.len() == 0 {
        Seq::empty()
    } else {
        list_bytes(e, vs.subrange(0, vs.len() - 1)) + value_bytes(e, vs[vs.len() - 1])
    }
}

/// The values of `xs`, each encoded by the shape at the same place in `fs`, back to back.
pub open spec fn fields_bytes(fs: Seq<Shape>, xs: Seq<Value>) -> Seq<u8>
    decreases xs,
{
    if xs.len() == 0 {
        Seq::empty()
    } else {
        fields_bytes(fs, xs.subrange(0, xs.len() - 1)) + value_bytes(
            fs[xs.len() - 1],
            xs[xs.len() - 1],
        )
    }
}

/// Reading a value of shape `s` from the front of `bytes`: its content and
/// the bytes it took, or the first failure.
pub open spec fn parse_value(s: Shape, bytes: Seq<u8>) -> Result<(Model, nat), DecodeError>
    decreases s, 0nat,
{
    match s {
        Shape::Bool => match <bool as Decoded>::parse(bytes) {
            Ok((b, n)) => Ok((Model::Bool(b), n)),
            Err(e) => Err(e),
        },
        Shape::Int(w) => if crate::sum::is_tag_width(w as nat) {
            match crate::scalar::parse_le(bytes, w as nat) {
                Ok((x, n)) => Ok((Model::Int(x), n)),
                Err(e) => Err(e),
            }
        } else {
            Err(DecodeError::InvalidData)
        },
        Shape::Text => match crate::text::parse_text(bytes) {
            Ok((t, n)) => Ok((Model::Text(t), n)),
            Err(e) => Err(e),
        },
        Shape::List(e) => match crate::scalar::parse_le(bytes, 8) {
            Ok((count, _)) => match parse_list(*e, bytes.skip(8), count) {
                Ok((ms, n)) => Ok((Model::List(ms), 8 + n)),
                Err(err) => Err(err),
            },
            Err(err) => Err(err),
        },
        Shape::Struct(fs) => match parse_fields(fs@, bytes, fs@.len()) {
            Ok((ms, n)) => Ok((Model::Struct(ms), n)),
            Err(e) => Err(e),
        },
        Shape::Enum(vs) => match crate::sum::parse_tag(bytes, vs@.len()) {
            Ok((k, n)) => match parse_value(vs@[k as int], bytes.skip(n as int)) {
                Ok((m, n2)) => Ok((Model::Variant(k, Box::new(m)), n + n2)),
                Err(e) => Err(e),
            },
            Err(e) => Err(e),
        },
    }
}

/// Reading `count` values of shape `e` back to back.
pub open spec fn parse_list(e: Shape, bytes: Seq<u8>, count: nat) -> Result<(Seq<Model>, nat), DecodeError>
    decreases e, count,
{
    if count == 0 {
        Ok((Seq::empty(), 0))
    } else {
        match parse_list(e, bytes, (count - 1) as nat) {
            Ok((ms, n)) => match parse_value(e, bytes.skip(n as int)) {
                Ok((m, k)) => Ok((ms.push(m), n + k)),
                Err(err) => Err(err),
            },
            Err(err) => Err(err),
        }
    }
}

/// Reading the first `count` fields of shapes `fs` back to back (nothing,
/// when `count` is more than there are fields).
pub open spec fn parse_fields(fs: Seq<Shape>, bytes: Seq<u8>, count: nat) -> Result<
    (Seq<Model>, nat),
    DecodeError,
>
    decreases fs, count,
{
    if count == 0 || count > fs.len() {
        Ok((Seq::empty(), 0))
    } else {
        match parse_fields(fs, bytes, (count - 1) as nat) {
            Ok((ms, n)) => match parse_value(fs[count - 1], bytes.skip(n as int)) {
                Ok((m, k)) => Ok((ms.push(m), n + k)),
                Err(err) => Err(err),
            },
            Err(err) => Err(err),
        }
    }
}

/// Appends the encoding of `v` by shape `s` to `output`: scalars and text as
/// their own codecs write them, a list as its count and then each element,
/// a struct as its fields in order, an enum value as its variant's tag and
/// then the variant's fields.
pub fn encode_value(s: &Shape, v: &Value, output: &mut Vec<u8>)
    requires
        fits(*s, *v),
    ensures
        final(output)@ == old(output)@ + value_bytes(*s, *v),
    decreases v,
{
    match v {
        Value::Bool(b) => b.encode(output),
        Value::Int(x) => match s {
            Shape::Int(w) => {
                write_le(output, *x, *w);
            },
            _ => {},
        },
        Value::Text(t) => t.encode(output),
        Value::List(items) => match s {
            Shape::List(e) => {
                proof {
                    crate::scalar::lemma_byte_power_values();
                    vstd::std_specs::vec::axiom_vec_decreases_to_view(*items);
                }
                write_le(output, items.len() as u64, 8);
                let ghost start = output@;
                let mut i: usize = 0;
                while i < items.len()
                    invariant
                        i <= items@.len(),
                        *v == Value::List(*items),
                        *s == Shape::List(*e),
                        decreases_to!(*v => items@),
                        all_fit(**e, items@),
                        start == old(output)@ + crate::sequence::count_prefix(items@.len()),
                        output@ == start + list_bytes(**e, items@.subrange(0, i as int)),
                    decreases items@.len() - i,
                {
                    assert(decreases_to!(items@ => items@[i as int]));
                    proof {
                        lemma_all_fit_at(**e, items@, i as int);
                    }
                    encode_value(e, &items[i], output);
                    assert(items@.subrange(0, i + 1).subrange(0, i as int) =~= items@.subrange(
                        0,
                        i as int,
                    ));
                    i = i + 1;
                }
                assert(items@.subrange(0, i as int) =~= items@);
            },
            _ => {},
        },
        Value::Struct(xs) => match s {
            Shape::Struct(fs) => {
                proof {
                    vstd::std_specs::vec::axiom_vec_decreases_to_view(*xs);
                }
                let mut i: usize = 0;
                while i < xs.len()
                    invariant
                        i <= xs@.len(),
                        xs@.len() == fs@.len(),
                        *v == Value::Struct(*xs),
                        *s == Shape::Struct(*fs),
                        decreases_to!(*v => xs@),
                        fields_fit(fs@, xs@),
                        output@ == old(output)@ + fields_bytes(fs@, xs@.subrange(0, i as int)),
                    decreases xs@.len() - i,
                {
                    assert(decreases_to!(xs@ => xs@[i as int]));
                    proof {
                        lemma_fields_fit_at(fs@, xs@, i as int);
                    }
                    encode_value(&fs[i], &xs[i], output);
                    assert(xs@.subrange(0, i + 1).subrange(0, i as int) =~= xs@.subrange(
                        0,
                        i as int,
                    ));
                    i = i + 1;
                }
                assert(xs@.subrange(0, i as int) =~= xs@);
            },
            _ => {},
        },
        Value::Variant(k, p) => match s {
            Shape::Enum(vs) => {
                encode_tag(*k, vs.len() as u64, output);
                encode_value(&vs[*k as usize], p, output);
                assert(output@ =~= old(output)@ + value_bytes(*s, *v));
            },
            _ => {},
        },
    }
}

/// A value of a list that fits element by element fits at each place.
pub proof fn lemma_all_fit_at(e: Shape, vs: Seq<Value>, i: int)
    requires
        all_fit(e, vs),
        0 <= i < vs.len(),
    ensures
        fits(e, vs[i]),
    decreases vs.len(),
{
    let init = vs.subrange(0, vs.len() - 1);
    if i < vs.len() - 1 {
        lemma_all_fit_at(e, init, i);
    }
}

/// A struct's values that fit field by field fit at each place.
pub proof fn lemma_fields_fit_at(fs: Seq<Shape>, xs: Seq<Value>, i: int)
    requires
        fields_fit(fs, xs),
        0 <= i < xs.len(),
    ensures
        fits(fs[i], xs[i]),
    decreases xs.len(),
{
    let init = xs.subrange(0, xs.len() - 1);
    if i < xs.len() - 1 {
        lemma_fields_fit_at(fs, init, i);
    }
}

/// Reads a value of shape `s` from `input` at `*pos` and moves `*pos` past
/// it. A list reads its count and then that many elements, a struct its
/// fields in order, an enum its tag (`InvalidData` when the tag names no
/// declared variant) and then that variant's fields; the first failure ends
/// the read and nothing read so far is returned.
pub fn decode_value(s: &Shape, input: &[u8], pos: &mut usize) -> (r: Result<Value, DecodeError>)
    requires
        *old(pos) <= input@.len(),
    ensures
        match parse_value(*s, input@.subrange(*old(pos) as int, input@.len() as int)) {
            Ok((m, n)) => {
                &&& r is Ok
                &&& model(r->Ok_0) == m
                &&& *final(pos) == *old(pos) + n
                &&& *final(pos) <= input@.len()
            },
            Err(e) => r == Err::<Value, DecodeError>(e),
        },
    decreases s,
{
    let start = *pos;
    let ghost bytes = input@.subrange(start as int, input@.len() as int);
    match s {
        Shape::Bool => match bool::decode(input, pos) {
            Ok(b) => Ok(Value::Bool(b)),
            Err(e) => Err(e),
        },
        Shape::Int(w) => {
            if !(*w == 1 || *w == 2 || *w == 4 || *w == 8) {
                return Err(DecodeError::InvalidData);
            }
            proof {
                crate::scalar::lemma_byte_power_values();
            }
            match read_le(input, pos, *w) {
                Ok(x) => Ok(Value::Int(x)),
                Err(e) => Err(e),
            }
        },
        Shape::Text => match String::decode(input, pos) {
            Ok(t) => Ok(Value::Text(t)),
            Err(e) => Err(e),
        },
        Shape::List(e) => {
            proof {
                crate::scalar::lemma_byte_power_values();
            }
            let count = match read_le(input, pos, 8) {
                Ok(c) => c,
                Err(err) => return Err(err),
            };
            let body_start = *pos;
            let ghost body = bytes.skip(8);
            assert(body =~= input@.subrange(body_start as int, input@.len() as int));
            let mut items: Vec<Value> = Vec::new();
            assert(models(items@) =~= Seq::<Model>::empty());
            let mut i: u64 = 0;
            while i < count
                invariant
                    i <= count,
                    start == *old(pos),
                    body_start == start + 8,
                    bytes == input@.subrange(start as int, input@.len() as int),
                    body == bytes.skip(8),
                    *s == Shape::List(*e),
                    crate::scalar::parse_le(bytes, 8) == Ok::<(nat, nat), DecodeError>(
                        (count as nat, 8),
                    ),
                    body_start <= *pos <= input@.len(),
                    body == input@.subrange(body_start as int, input@.len() as int),
                    parse_list(**e, body, i as nat) == Ok::<(Seq<Model>, nat), DecodeError>(
                        (models(items@), (*pos - body_start) as nat),
                    ),
                decreases count - i,
            {
                let ghost n = (*pos - body_start) as nat;
                assert(body.skip(n as int) =~= input@.subrange(*pos as int, input@.len() as int));
                assert(decreases_to!(*s => **e));
                match decode_value(e, input, pos) {
                    Ok(item) => {
                        let ghost before = items@;
                        items.push(item);
                        assert(items@.subrange(0, items@.len() - 1) =~= before);
                    },
                    Err(err) => {
                        proof {
                            lemma_parse_list_error(**e, body, (i + 1) as nat, count as nat);
                        }
                        return Err(err);
                    },
                }
                i = i + 1;
            }
            Ok(Value::List(items))
        },
        Shape::Struct(fs) => {
            let mut fields: Vec<Value> = Vec::new();
            assert(models(fields@) =~= Seq::<Model>::empty());
            proof {
                vstd::std_specs::vec::axiom_vec_decreases_to_view(*fs);
            }
            let mut i: usize = 0;
            while i < fs.len()
                invariant
                    i <= fs@.len(),
                    start == *old(pos),
                    *s == Shape::Struct(*fs),
                    decreases_to!(*s => fs@),
                    start <= *pos <= input@.len(),
                    bytes == input@.subrange(start as int, input@.len() as int),
                    parse_fields(fs@, bytes, i as nat) == Ok::<(Seq<Model>, nat), DecodeError>(
                        (models(fields@), (*pos - start) as nat),
                    ),
                decreases fs@.len() - i,
            {
                let ghost n = (*pos - start) as nat;
                assert(bytes.skip(n as int) =~= input@.subrange(*pos as int, input@.len() as int));
                assert(decreases_to!(fs@ => fs@[i as int]));
                match decode_value(&fs[i], input, pos) {
                    Ok(field) => {
                        let ghost before = fields@;
                        fields.push(field);
                        assert(fields@.subrange(0, fields@.len() - 1) =~= before);
                    },
                    Err(err) => {
                        proof {
                            lemma_parse_fields_error(fs@, bytes, (i + 1) as nat, fs@.len());
                        }
                        return Err(err);
                    },
                }
                i = i + 1;
            }
            Ok(Value::Struct(fields))
        },
        Shape::Enum(vs) => {
            let k = match decode_tag(input, pos, vs.len() as u64) {
                Ok(k) => k,
                Err(err) => return Err(err),
            };
            let ghost n = (*pos - start) as nat;
            assert(bytes.skip(n as int) =~= input@.subrange(*pos as int, input@.len() as int));
            match decode_value(&vs[k as usize], input, pos) {
                Ok(fields) => Ok(Value::Variant(k, Box::new(fields))),
                Err(err) => Err(err),
            }
        },
    }
}

/// Once reading the first elements of a list fails, reading more fails the same way.
pub proof fn lemma_parse_list_error(e: Shape, bytes: Seq<u8>, count: nat, more: nat)
    requires
        count <= more,
        parse_list(e, bytes, count) is Err,
    ensures
        parse_list(e, bytes, more) == parse_list(e, bytes, count),
    decreases more,
{
    if count < more {
        lemma_parse_list_error(e, bytes, count, (more - 1) as nat);
    }
}

/// Once reading the first fields of a struct fails, reading more fails the same way.
pub proof fn lemma_parse_fields_error(fs: Seq<Shape>, bytes: Seq<u8>, count: nat, more: nat)
    requires
        count <= more <= fs.len(),
        parse_fields(fs, bytes, count) is Err,
    ensures
        parse_fields(fs, bytes, more) == parse_fields(fs, bytes, count),
    decreases more,
{
    if count < more {
        lemma_parse_fields_error(fs, bytes, count, (more - 1) as nat);
    }
}

/// Decoding by a shape reads back what encoding by that shape wrote: for
/// every value that has the shape (structs and enums included, nested to any
/// depth), whatever follows its bytes, decoding yields the value's content
/// and consumes exactly its bytes.
pub proof fn lemma_value_round_trip(s: Shape, v: Value, rest: Seq<u8>)
    requires
        fits(s, v),
        value_bytes(s, v).len() <= usize::MAX,
    ensures
        parse_value(s, value_bytes(s, v) + rest) == Ok::<(Model, nat), DecodeError>(
            (model(v), value_bytes(s, v).len()),
        ),
    decreases v,
{
    match v {
        Value::Bool(b) => {
            <bool as RoundTrip>::lemma_round_trip(b, rest);
        },
        Value::Int(x) => match s {
            Shape::Int(w) => {
                crate::scalar::lemma_parse_le_round_trip(x as nat, w as nat, rest);
                crate::scalar::lemma_le_bytes_len(x as nat, w as nat);
            },
            _ => {},
        },
        Value::Text(t) => {
            <String as RoundTrip>::lemma_round_trip(t, rest);
        },
        Value::List(items) => match s {
            Shape::List(e) => {
                vstd::std_specs::vec::axiom_vec_decreases_to_view(items);
                assert(items.len() == items@.len());
                crate::scalar::lemma_byte_power_values();
                crate::scalar::lemma_le_bytes_len(items@.len(), 8);
                let prefix = crate::sequence::count_prefix(items@.len());
                let body = list_bytes(*e, items@) + rest;
                assert(value_bytes(s, v) + rest =~= prefix + body);
                crate::scalar::lemma_parse_le_round_trip(items@.len(), 8, body);
                assert((prefix + body).skip(8) =~= body);
                lemma_list_round_trip(*e, items@, rest);
            },
            _ => {},
        },
        Value::Struct(xs) => match s {
            Shape::Struct(fs) => {
                vstd::std_specs::vec::axiom_vec_decreases_to_view(xs);
                lemma_fields_round_trip(fs@, xs@, rest);
            },
            _ => {},
        },
        Value::Variant(k, p) => match s {
            Shape::Enum(vs) => {
                assert(vs.len() == vs@.len());
                let tag = crate::sum::tag_encoding(k as nat, vs@.len());
                let fields = value_bytes(vs@[k as int], *p);
                crate::sum::lemma_tag_round_trip(k as nat, vs@.len(), fields + rest);
                assert(value_bytes(s, v) + rest =~= tag + (fields + rest));
                assert((tag + (fields + rest)).skip(tag.len() as int) =~= fields + rest);
                lemma_value_round_trip(vs@[k as int], *p, rest);
            },
            _ => {},
        },
    }
}

/// A list's elements, encoded back to back, read back as their contents.
pub proof fn lemma_list_round_trip(e: Shape, vs: Seq<Value>, rest: Seq<u8>)
    requires
        all_fit(e, vs),
        list_bytes(e, vs).len() <= usize::MAX,
    ensures
        parse_list(e, list_bytes(e, vs) + rest, vs.len()) == Ok::<(Seq<Model>, nat), DecodeError>(
            (models(vs), list_bytes(e, vs).len()),
        ),
    decreases vs,
{
    if vs.len() > 0 {
        let init = vs.subrange(0, vs.len() - 1);
        let last = vs[vs.len() - 1];
        let tail = value_bytes(e, last) + rest;
        let all = list_bytes(e, vs) + rest;
        lemma_list_round_trip(e, init, tail);
        assert(all =~= list_bytes(e, init) + tail);
        assert(all.skip(list_bytes(e, init).len() as int) =~= tail);
        lemma_value_round_trip(e, last, rest);
    }
}

/// A struct's fields, encoded back to back, read back as their contents.
pub proof fn lemma_fields_round_trip(fs: Seq<Shape>, xs: Seq<Value>, rest: Seq<u8>)
    requires
        xs.len() <= fs.len(),
        fields_fit(fs, xs),
        fields_bytes(fs, xs).len() <= usize::MAX,
    ensures
        parse_fields(fs, fields_bytes(fs, xs) + rest, xs.len()) == Ok::<
            (Seq<Model>, nat),
            DecodeError,
        >((models(xs), fields_bytes(fs, xs).len())),
    decreases xs,
{
    if xs.len() > 0 {
        let init = xs.subrange(0, xs.len() - 1);
        let last = xs[xs.len() - 1];
        let tail = value_bytes(fs[xs.len() - 1], last) + rest;
        let all = fields_bytes(fs, xs) + rest;
        lemma_fields_round_trip(fs, init, tail);
        assert(all =~= fields_bytes(fs, init) + tail);
        assert(all.skip(fields_bytes(fs, init).len() as int) =~= tail);
        lemma_value_round_trip(fs[xs.len() - 1], last, rest);
    }
}

} // verus!
