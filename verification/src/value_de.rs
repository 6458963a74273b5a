//! Reading structured values: the target type says how the bytes are to be
//! read.

use vstd::prelude::*;
use vstd::utf8::{decode_utf8, encode_utf8_decode_utf8, valid_utf8};
use crate::buffer::shared_bytes;
use crate::codecs::Version;
use crate::de::{
    bool_value, element_step, key_step, lemma_value_step_shrinks, value_step, Deserializer, Step,
};
use crate::number::parse_integer;
use crate::types::Error;
use crate::value::Value;

verus! {

/// The type that bytes are to be read as.
#[derive(Debug)]
pub enum Schema {
    Unit,
    Bool,
    I8,
    I16,
    I32,
    I64,
    U8,
    U16,
    U32,
    U64,
    Char,
    Str,
    Bytes,
    /// A value that may be absent.
    Optional(Box<Schema>),
    /// A sequence of elements of one type.
    Sequence(Box<Schema>),
    /// A map from byte strings to values of one type.
    Dictionary(Box<Schema>),
    /// A list of items of one type in one value.
    List(Box<Schema>),
}

/// A structured value as the contracts see it.
pub enum ValueModel {
    Unit,
    Bool(bool),
    Int(int),
    UInt(int),
    Char(char),
    Str(Seq<char>),
    Bytes(Seq<u8>),
    Absent,
    Present(Box<ValueModel>),
    Sequence(Seq<ValueModel>),
    Record(Seq<(Seq<u8>, ValueModel)>),
    List(Seq<ValueModel>),
}

/// A value as the contracts see it.
pub open spec fn value_view(value: Value) -> ValueModel
    decreases value, 0nat,
{
    match value {
        Value::Unit => ValueModel::Unit,
        Value::Bool(b) => ValueModel::Bool(b),
        Value::Int(n) => ValueModel::Int(n as int),
        Value::UInt(n) => ValueModel::UInt(n as int),
        Value::Char(c) => ValueModel::Char(c),
        Value::Str(s) => ValueModel::Str(s@),
        Value::Bytes(b) => ValueModel::Bytes(b@),
        Value::Absent => ValueModel::Absent,
        Value::Present(inner) => ValueModel::Present(Box::new(value_view(*inner))),
        Value::Sequence(items) => ValueModel::Sequence(values_view(items, items@.len())),
        Value::Record(entries) => ValueModel::Record(entries_view(entries, entries@.len())),
        Value::List(items) => ValueModel::List(values_view(items, items@.len())),
    }
}

/// The views of the first `n` values.
pub open spec fn values_view(items: Vec<Value>, n: nat) -> Seq<ValueModel>
    decreases items, n,
{
    if n == 0 || n > items@.len() {
        Seq::empty()
    } else {
        values_view(items, (n - 1) as nat).push(value_view(items@[n - 1]))
    }
}

/// The views of the first `n` entries.
pub open spec fn entries_view(entries: Vec<(Vec<u8>, Value)>, n: nat) -> Seq<
    (Seq<u8>, ValueModel),
>
    decreases entries, n,
{
    if n == 0 || n > entries@.len() {
        Seq::empty()
    } else {
        entries_view(entries, (n - 1) as nat).push(
            (entries@[n - 1].0@, value_view(entries@[n - 1].1)),
        )
    }
}

/// What was read, as the contracts see it.
pub open spec fn read_view(res: Result<Value, Error>) -> Result<ValueModel, Error> {
    match res {
        Ok(value) => Ok(value_view(value)),
        Err(e) => Err(e),
    }
}

/// Reading an integer: on success nothing is left.
pub open spec fn integer_step(input: Seq<u8>, signed: bool, lo: int, hi: int) -> Step<ValueModel> {
    match parse_integer(input, signed, lo, hi) {
        Some(n) => (
            Ok(
                if signed {
                    ValueModel::Int(n)
                } else {
                    ValueModel::UInt(n)
                },
            ),
            Seq::empty(),
        ),
        None => (Err(Error::ExpectedInteger), input),
    }
}

/// Reading `input` as a value of the type `schema`: the value or the first
/// error, and the input that is left. A scalar takes all of the input. An
/// optional value is absent where the input is empty. Every key, value and
/// element must take up the bytes of its scope.
pub open spec fn decoding(v: Version, schema: Schema, input: Seq<u8>) -> Step<ValueModel>
    decreases schema, input.len(), 0nat,
{
    match schema {
        Schema::Unit => (Ok(ValueModel::Unit), input),
        Schema::Bool => match bool_value(input) {
            Some(b) => (Ok(ValueModel::Bool(b)), Seq::empty()),
            None => (Err(Error::ExpectedBool), input),
        },
        Schema::I8 => integer_step(input, true, i8::MIN as int, i8::MAX as int),
        Schema::I16 => integer_step(input, true, i16::MIN as int, i16::MAX as int),
        Schema::I32 => integer_step(input, true, i32::MIN as int, i32::MAX as int),
        Schema::I64 => integer_step(input, true, i64::MIN as int, i64::MAX as int),
        Schema::U8 => integer_step(input, false, 0, u8::MAX as int),
        Schema::U16 => integer_step(input, false, 0, u16::MAX as int),
        Schema::U32 => integer_step(input, false, 0, u32::MAX as int),
        Schema::U64 => integer_step(input, false, 0, u64::MAX as int),
        Schema::Char => if !valid_utf8(input) {
            (Err(Error::ExpectedUtf8), input)
        } else if decode_utf8(input).len() != 1 {
            (Err(Error::ExpectedChar), input)
        } else {
            (Ok(ValueModel::Char(decode_utf8(input)[0])), Seq::empty())
        },
        Schema::Str => if valid_utf8(input) {
            (Ok(ValueModel::Str(decode_utf8(input))), Seq::empty())
        } else {
            (Err(Error::ExpectedUtf8), input)
        },
        Schema::Bytes => (Ok(ValueModel::Bytes(input)), Seq::empty()),
        Schema::Optional(inner) => if input.len() == 0 {
            (Ok(ValueModel::Absent), input)
        } else {
            let step = decoding(v, *inner, input);
            match step.0 {
                Ok(value) => (Ok(ValueModel::Present(Box::new(value))), step.1),
                Err(e) => (Err(e), step.1),
            }
        },
        Schema::Sequence(element) => elements_decoding(v, *element, input, Seq::empty()),
        Schema::Dictionary(value) => entries_decoding(v, *value, input, Seq::empty()),
        Schema::List(item) => items_decoding(v, *item, input, Seq::empty()),
    }
}

/// Reading the elements of a sequence behind `acc`. Bytes that an element
/// leaves in its scope are reported before an error of the element itself.
pub open spec fn elements_decoding(
    v: Version,
    element: Schema,
    input: Seq<u8>,
    acc: Seq<ValueModel>,
) -> Step<ValueModel>
    decreases element, input.len(), 1nat,
{
    let step = element_step(input);
    match step.0 {
        Err(e) => (Err(e), step.1),
        Ok(None) => (Ok(ValueModel::Sequence(acc)), step.1),
        Ok(Some(scope)) => {
            let inner = decoding(v, element, scope);
            if inner.1.len() != 0 {
                (Err(Error::RemainingBytes), step.1)
            } else {
                match inner.0 {
                    Err(e) => (Err(e), step.1),
                    Ok(value) => elements_decoding(v, element, step.1, acc.push(value)),
                }
            }
        },
    }
}

/// Reading the entries of a map behind `acc`. An error of a value is
/// reported before bytes that it leaves in its scope.
pub open spec fn entries_decoding(
    v: Version,
    value: Schema,
    input: Seq<u8>,
    acc: Seq<(Seq<u8>, ValueModel)>,
) -> Step<ValueModel>
    decreases value, input.len(), 1nat,
{
    let key = key_step(input);
    match key.0 {
        Err(e) => (Err(e), key.1),
        Ok(None) => (Ok(ValueModel::Record(acc)), key.1),
        Ok(Some(k)) => {
            let step = value_step(v, key.1);
            match step.0 {
                Err(e) => (Err(e), step.1),
                Ok(scope) => {
                    proof {
                        lemma_value_step_shrinks(v, key.1);
                    }
                    let inner = decoding(v, value, scope);
                    match inner.0 {
                        Err(e) => (Err(e), step.1),
                        Ok(x) => if inner.1.len() != 0 {
                            (Err(Error::RemainingBytes), step.1)
                        } else {
                            entries_decoding(v, value, step.1, acc.push((k, x)))
                        },
                    }
                },
            }
        },
    }
}

/// Reading the items of a list behind `acc`, up to the end of the input. An
/// item that takes nothing from a non-empty input leaves bytes that no item
/// will ever take.
pub open spec fn items_decoding(v: Version, item: Schema, input: Seq<u8>, acc: Seq<ValueModel>)
    -> Step<ValueModel>
    decreases item, input.len(), 1nat,
{
    if input.len() == 0 {
        (Ok(ValueModel::List(acc)), input)
    } else {
        let inner = decoding(v, item, input);
        match inner.0 {
            Err(e) => (Err(e), inner.1),
            Ok(value) => if inner.1.len() < input.len() {
                items_decoding(v, item, inner.1, acc.push(value))
            } else {
                (Err(Error::RemainingBytes), inner.1)
            },
        }
    }
}

/// The views of the first values depend on those values alone.
proof fn lemma_values_view_same(a: Vec<Value>, b: Vec<Value>, n: nat)
    requires
        n <= a@.len(),
        n <= b@.len(),
        forall|i: int| 0 <= i < n ==> a@[i] == b@[i],
    ensures
        values_view(a, n) == values_view(b, n),
    decreases n,
{
    if n > 0 {
        lemma_values_view_same(a, b, (n - 1) as nat);
    }
}

proof fn lemma_entries_view_same(a: Vec<(Vec<u8>, Value)>, b: Vec<(Vec<u8>, Value)>, n: nat)
    requires
        n <= a@.len(),
        n <= b@.len(),
        forall|i: int| 0 <= i < n ==> a@[i] == b@[i],
    ensures
        entries_view(a, n) == entries_view(b, n),
    decreases n,
{
    if n > 0 {
        lemma_entries_view_same(a, b, (n - 1) as nat);
    }
}

fn signed_value(res: Result<i64, Error>) -> (out: Result<Value, Error>)
    ensures
        out == (match res {
            Ok(n) => Ok::<Value, Error>(Value::Int(n)),
            Err(e) => Err::<Value, Error>(e),
        }),
{
    match res {
        Ok(n) => Ok(Value::Int(n)),
        Err(e) => Err(e),
    }
}

fn unsigned_value(res: Result<u64, Error>) -> (out: Result<Value, Error>)
    ensures
        out == (match res {
            Ok(n) => Ok::<Value, Error>(Value::UInt(n)),
            Err(e) => Err::<Value, Error>(e),
        }),
{
    match res {
        Ok(n) => Ok(Value::UInt(n)),
        Err(e) => Err(e),
    }
}

/// Reads a value of the type `schema`.
pub fn deserialize_value(de: &mut Deserializer, schema: &Schema) -> (res: Result<Value, Error>)
    ensures
        final(de).version() == old(de).version(),
        (read_view(res), final(de)@) == decoding(old(de).version(), *schema, old(de)@),
    decreases *schema,
{
    let ghost v = de.version();
    match schema {
        Schema::Unit => Ok(Value::Unit),
        Schema::Bool => match de.deserialize_bool() {
            Ok(b) => Ok(Value::Bool(b)),
            Err(e) => Err(e),
        },
        Schema::I8 => match de.deserialize_i8() {
            Ok(n) => signed_value(Ok(n as i64)),
            Err(e) => Err(e),
        },
        Schema::I16 => match de.deserialize_i16() {
            Ok(n) => signed_value(Ok(n as i64)),
            Err(e) => Err(e),
        },
        Schema::I32 => match de.deserialize_i32() {
            Ok(n) => signed_value(Ok(n as i64)),
            Err(e) => Err(e),
        },
        Schema::I64 => signed_value(de.deserialize_i64()),
        Schema::U8 => match de.deserialize_u8() {
            Ok(n) => unsigned_value(Ok(n as u64)),
            Err(e) => Err(e),
        },
        Schema::U16 => match de.deserialize_u16() {
            Ok(n) => unsigned_value(Ok(n as u64)),
            Err(e) => Err(e),
        },
        Schema::U32 => match de.deserialize_u32() {
            Ok(n) => unsigned_value(Ok(n as u64)),
            Err(e) => Err(e),
        },
        Schema::U64 => unsigned_value(de.deserialize_u64()),
        Schema::Char => match de.deserialize_char() {
            Ok(c) => Ok(Value::Char(c)),
            Err(e) => Err(e),
        },
        Schema::Str => match de.deserialize_str() {
            Ok(s) => {
                proof {
                    encode_utf8_decode_utf8(s@);
                }
                Ok(Value::Str(s))
            },
            Err(e) => Err(e),
        },
        Schema::Bytes => match de.deserialize_bytes() {
            Ok(b) => Ok(Value::Bytes(b)),
            Err(e) => Err(e),
        },
        Schema::Optional(inner) => {
            if !de.deserialize_option() {
                Ok(Value::Absent)
            } else {
                match deserialize_value(de, &**inner) {
                    Ok(value) => Ok(Value::Present(Box::new(value))),
                    Err(e) => Err(e),
                }
            }
        },
        Schema::Sequence(element) => {
            let mut acc: Vec<Value> = Vec::new();
            loop
                invariant
                    v == de.version(),
                    v == old(de).version(),
                    *schema == Schema::Sequence(*element),
                    elements_decoding(v, **element, de@, values_view(acc, acc@.len() as nat))
                        == elements_decoding(v, **element, old(de)@, Seq::empty()),
                decreases de@.len(),
            {
                let ghost before = acc;
                match de.next_element() {
                    Err(e) => {
                        return Err(e);
                    },
                    Ok(None) => {
                        return Ok(Value::Sequence(acc));
                    },
                    Ok(Some(mut scope)) => {
                        let inner = deserialize_value(&mut scope, &**element);
                        if scope.remaining() != 0 {
                            return Err(Error::RemainingBytes);
                        }
                        match inner {
                            Err(e) => {
                                return Err(e);
                            },
                            Ok(value) => {
                                acc.push(value);
                                proof {
                                    lemma_values_view_same(acc, before, before@.len() as nat);
                                }
                            },
                        }
                    },
                }
            }
        },
        Schema::Dictionary(value) => {
            let mut acc: Vec<(Vec<u8>, Value)> = Vec::new();
            loop
                invariant
                    v == de.version(),
                    v == old(de).version(),
                    *schema == Schema::Dictionary(*value),
                    entries_decoding(v, **value, de@, entries_view(acc, acc@.len() as nat))
                        == entries_decoding(v, **value, old(de)@, Seq::empty()),
                decreases de@.len(),
            {
                let ghost before = acc;
                let key = match de.next_key() {
                    Err(e) => {
                        return Err(e);
                    },
                    Ok(None) => {
                        return Ok(Value::Record(acc));
                    },
                    Ok(Some(mut scope)) => match scope.deserialize_bytes() {
                        Ok(bytes) => bytes,
                        Err(e) => {
                            return Err(e);
                        },
                    },
                };
                proof {
                    lemma_value_step_shrinks(v, de@);
                }
                let mut scope = match de.next_value() {
                    Err(e) => {
                        return Err(e);
                    },
                    Ok(scope) => scope,
                };
                let item = match deserialize_value(&mut scope, &**value) {
                    Err(e) => {
                        return Err(e);
                    },
                    Ok(item) => item,
                };
                if scope.remaining() != 0 {
                    return Err(Error::RemainingBytes);
                }
                acc.push((key, item));
                proof {
                    lemma_entries_view_same(acc, before, before@.len() as nat);
                }
            }
        },
        Schema::List(item) => {
            let mut acc: Vec<Value> = Vec::new();
            loop
                invariant
                    v == de.version(),
                    v == old(de).version(),
                    *schema == Schema::List(*item),
                    decreases_to!(*schema => **item),
                    items_decoding(v, **item, de@, values_view(acc, acc@.len() as nat))
                        == items_decoding(v, **item, old(de)@, Seq::empty()),
                decreases de@.len(),
            {
                let ghost before = acc;
                let left = de.remaining();
                if left == 0 {
                    return Ok(Value::List(acc));
                }
                let value = match deserialize_value(de, &**item) {
                    Err(e) => {
                        return Err(e);
                    },
                    Ok(value) => value,
                };
                if de.remaining() >= left {
                    return Err(Error::RemainingBytes);
                }
                acc.push(value);
                proof {
                    lemma_values_view_same(acc, before, before@.len() as nat);
                }
            }
        },
    }
}

/// Reads a value of the type `schema` that takes up the whole input.
pub fn value_from_bytes(version: Version, schema: &Schema, input: bytes::Bytes) -> (res: Result<
    Value,
    Error,
>)
    ensures
        read_view(res) == (match decoding(version, *schema, shared_bytes(input)) {
            (Ok(value), rest) => if rest.len() == 0 {
                Ok::<ValueModel, Error>(value)
            } else {
                Err::<ValueModel, Error>(Error::RemainingBytes)
            },
            (Err(e), _) => Err::<ValueModel, Error>(e),
        }),
{
    let mut deserializer = Deserializer::from_bytes(input, version);
    let value = match deserialize_value(&mut deserializer, schema) {
        Ok(value) => value,
        Err(e) => {
            return Err(e);
        },
    };
    match deserializer.finish() {
        Ok(()) => Ok(value),
        Err(e) => Err(e),
    }
}

} // verus!
