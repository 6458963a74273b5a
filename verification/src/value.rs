//! Structured values and their encoding.

use vstd::prelude::*;
use vstd::utf8::encode_utf8;
use crate::buffer::be16;
use crate::codecs::{segment, value_wire, Version, AMP_KEY_LIMIT, AMP_VALUE_LIMIT, LENGTH_SIZE};
use crate::number::{decimal_text, integer_text};
use crate::ser::{
    bool_text, lemma_prefix_chain, lemma_prefix_of_sum, length_placeholder, Serializer,
};
use crate::types::Error;

verus! {

/// A structured value, as an application hands it to the serializer.
#[derive(Debug, PartialEq, Eq)]
pub enum Value {
    Unit,
    Bool(bool),
    Int(i64),
    UInt(u64),
    Char(char),
    Str(String),
    Bytes(Vec<u8>),
    /// An optional value that is absent.
    Absent,
    /// An optional value that is present.
    Present(Box<Value>),
    /// A sequence or tuple.
    Sequence(Vec<Value>),
    /// A record or a map: its entries by key, in order.
    Record(Vec<(Vec<u8>, Value)>),
    /// A list of records in one value.
    List(Vec<Value>),
}

/// The bytes of a value, or the error of the first part of it that cannot be
/// written.
pub open spec fn encoding(v: Version, value: Value) -> Result<Seq<u8>, Error>
    decreases value, 0nat,
{
    match value {
        Value::Unit => Ok(Seq::empty()),
        Value::Bool(b) => Ok(bool_text(b)),
        Value::Int(n) => Ok(integer_text(n as int)),
        Value::UInt(n) => Ok(decimal_text(n as nat)),
        Value::Char(c) => Ok(encode_utf8(seq![c])),
        Value::Str(s) => Ok(encode_utf8(s@)),
        Value::Bytes(b) => Ok(b@),
        Value::Absent => Ok(Seq::empty()),
        Value::Present(inner) => encoding(v, *inner),
        Value::Sequence(items) => elements_encoding(v, items, 0),
        Value::Record(entries) => entries_encoding(v, entries, 0),
        Value::List(items) => items_encoding(v, items, 0),
    }
}

/// The elements of a sequence from place `i` on: each behind its length.
pub open spec fn elements_encoding(v: Version, items: Vec<Value>, i: nat) -> Result<Seq<u8>, Error>
    decreases items, items@.len() - i,
{
    if i >= items@.len() {
        Ok(Seq::empty())
    } else {
        match encoding(v, items@[i as int]) {
            Err(e) => Err(e),
            Ok(bytes) => if bytes.len() > AMP_VALUE_LIMIT {
                Err(Error::ValueTooLong)
            } else {
                match elements_encoding(v, items, i + 1) {
                    Err(e) => Err(e),
                    Ok(rest) => Ok(segment(bytes) + rest),
                }
            },
        }
    }
}

/// The entries of a record from place `i` on, and the closing empty key.
pub open spec fn entries_encoding(v: Version, entries: Vec<(Vec<u8>, Value)>, i: nat) -> Result<
    Seq<u8>,
    Error,
>
    decreases entries, entries@.len() - i,
{
    if i >= entries@.len() {
        Ok(seq![0u8, 0u8])
    } else {
        let key = entries@[i as int].0@;
        if key.len() == 0 {
            Err(Error::EmptyKey)
        } else if key.len() > AMP_KEY_LIMIT {
            Err(Error::KeyTooLong)
        } else {
            match encoding(v, entries@[i as int].1) {
                Err(e) => Err(e),
                Ok(bytes) => if v == Version::V1 && bytes.len() > AMP_VALUE_LIMIT {
                    Err(Error::ValueTooLong)
                } else {
                    match entries_encoding(v, entries, i + 1) {
                        Err(e) => Err(e),
                        Ok(rest) => Ok(segment(key) + value_wire(v, bytes) + rest),
                    }
                },
            }
        }
    }
}

/// The items of a list from place `i` on, one behind the other.
pub open spec fn items_encoding(v: Version, items: Vec<Value>, i: nat) -> Result<Seq<u8>, Error>
    decreases items, items@.len() - i,
{
    if i >= items@.len() {
        Ok(Seq::empty())
    } else {
        match encoding(v, items@[i as int]) {
            Err(e) => Err(e),
            Ok(bytes) => match items_encoding(v, items, i + 1) {
                Err(e) => Err(e),
                Ok(rest) => Ok(bytes + rest),
            },
        }
    }
}

/// A result with `written` put before its bytes.
pub open spec fn behind(written: Seq<u8>, rest: Result<Seq<u8>, Error>) -> Result<Seq<u8>, Error> {
    match rest {
        Ok(bytes) => Ok(written + bytes),
        Err(e) => Err(e),
    }
}

/// Writes a value behind a length that is filled in afterwards; `key` is
/// false.
fn serialize_scoped(ser: &mut Serializer, value: &Value) -> (res: Result<(), Error>)
    ensures
        final(ser).version() == old(ser).version(),
        match encoding(old(ser).version(), *value) {
            Ok(bytes) => if bytes.len() > AMP_VALUE_LIMIT {
                res == Err::<(), Error>(Error::ValueTooLong) && old(ser)@.is_prefix_of(final(ser)@)
            } else {
                res is Ok && final(ser)@ == old(ser)@ + segment(bytes)
            },
            Err(e) => res == Err::<(), Error>(e) && old(ser)@.is_prefix_of(final(ser)@),
        },
    decreases *value, 1nat,
{
    let length_offset = ser.prep_len();
    let ghost mid = ser@;
    proof {
        lemma_prefix_of_sum(old(ser)@, length_placeholder());
    }
    match serialize_value(ser, value) {
        Ok(()) => {},
        Err(e) => {
            proof {
                lemma_prefix_chain(old(ser)@, mid, ser@);
            }
            return Err(e);
        },
    }
    let ghost bytes = encoding(ser.version(), *value)->Ok_0;
    let ghost full = ser@;
    let res = ser.write_len(length_offset, false);
    proof {
        assert(full =~= old(ser)@ + length_placeholder() + bytes);
        assert(full.take(length_offset as int) =~= old(ser)@);
        assert(full.skip(length_offset + LENGTH_SIZE) =~= bytes);
        assert(old(ser)@ + be16(bytes.len() as int) + bytes =~= old(ser)@ + segment(bytes));
        lemma_prefix_of_sum(old(ser)@, length_placeholder() + bytes);
        assert(old(ser)@ + (length_placeholder() + bytes) =~= full);
    }
    res
}

/// Writes a value: a scalar as its text, an absent value as nothing, the
/// elements of a sequence each behind its length, the entries of a record as
/// key and value with the closing empty key behind them, the items of a list
/// one behind the other. The call stops at the first part that cannot be
/// written; what was written before stays.
pub fn serialize_value(ser: &mut Serializer, value: &Value) -> (res: Result<(), Error>)
    ensures
        final(ser).version() == old(ser).version(),
        match encoding(old(ser).version(), *value) {
            Ok(bytes) => res is Ok && final(ser)@ == old(ser)@ + bytes,
            Err(e) => res == Err::<(), Error>(e) && old(ser)@.is_prefix_of(final(ser)@),
        },
    decreases *value, 0nat,
{
    let ghost v = ser.version();
    match value {
        Value::Unit => ser.serialize_unit(),
        Value::Bool(b) => ser.serialize_bool(*b),
        Value::Int(n) => ser.serialize_i64(*n),
        Value::UInt(n) => ser.serialize_u64(*n),
        Value::Char(c) => ser.serialize_char(*c),
        Value::Str(s) => ser.serialize_str(s.as_str()),
        Value::Bytes(b) => ser.serialize_bytes(b.as_slice()),
        Value::Absent => ser.serialize_none(),
        Value::Present(inner) => serialize_value(ser, &**inner),
        Value::Sequence(items) => {
            let ghost mut written = Seq::<u8>::empty();
            let mut i: usize = 0;
            proof {
                assert(ser@ + written =~= ser@);
                assert(behind(written, elements_encoding(v, *items, 0)) == elements_encoding(
                    v,
                    *items,
                    0,
                )) by {
                    match elements_encoding(v, *items, 0) {
                        Ok(bytes) => {
                            assert(written + bytes =~= bytes);
                        },
                        Err(_) => {},
                    }
                }
            }
            while i < items.len()
                invariant
                    i <= items@.len(),
                    v == ser.version(),
                    v == old(ser).version(),
                    *value == Value::Sequence(*items),
                    ser@ == old(ser)@ + written,
                    encoding(v, *value) == behind(written, elements_encoding(v, *items, i as nat)),
                decreases items@.len() - i,
            {
                let ghost before = ser@;
                proof {
                    lemma_prefix_of_sum(old(ser)@, written);
                }
                match serialize_scoped(ser, &items[i]) {
                    Ok(()) => {},
                    Err(e) => {
                        proof {
                            lemma_prefix_chain(old(ser)@, before, ser@);
                        }
                        return Err(e);
                    },
                }
                proof {
                    let bytes = encoding(v, items@[i as int])->Ok_0;
                    let next = written + segment(bytes);
                    assert(ser@ =~= old(ser)@ + next);
                    match elements_encoding(v, *items, (i + 1) as nat) {
                        Ok(rest) => {
                            assert(written + (segment(bytes) + rest) =~= next + rest);
                        },
                        Err(_) => {},
                    }
                    written = next;
                }
                i = i + 1;
            }
            proof {
                assert(written + Seq::<u8>::empty() =~= written);
            }
            Ok(())
        },
        Value::Record(entries) => {
            let ghost mut written = Seq::<u8>::empty();
            let mut i: usize = 0;
            proof {
                assert(ser@ + written =~= ser@);
                assert(behind(written, entries_encoding(v, *entries, 0)) == entries_encoding(
                    v,
                    *entries,
                    0,
                )) by {
                    match entries_encoding(v, *entries, 0) {
                        Ok(bytes) => {
                            assert(written + bytes =~= bytes);
                        },
                        Err(_) => {},
                    }
                }
            }
            while i < entries.len()
                invariant
                    i <= entries@.len(),
                    v == ser.version(),
                    v == old(ser).version(),
                    *value == Value::Record(*entries),
                    ser@ == old(ser)@ + written,
                    encoding(v, *value) == behind(written, entries_encoding(v, *entries, i as nat)),
                decreases entries@.len() - i,
            {
                let ghost before = ser@;
                let key = &entries[i].0;
                let item = &entries[i].1;
                proof {
                    lemma_prefix_of_sum(old(ser)@, written);
                }
                match ser.push_key(key.as_slice()) {
                    Ok(()) => {},
                    Err(e) => {
                        proof {
                            lemma_prefix_of_sum(before, length_placeholder() + key@);
                            assert(before + (length_placeholder() + key@) =~= ser@);
                            lemma_prefix_chain(old(ser)@, before, ser@);
                        }
                        return Err(e);
                    },
                }
                let ghost keyed = ser@;
                proof {
                    lemma_prefix_of_sum(before, segment(key@));
                    lemma_prefix_chain(old(ser)@, before, keyed);
                }
                match ser.variant() {
                    Version::V1 => {
                        match serialize_scoped(ser, item) {
                            Ok(()) => {},
                            Err(e) => {
                                proof {
                                    lemma_prefix_chain(old(ser)@, keyed, ser@);
                                }
                                return Err(e);
                            },
                        }
                    },
                    Version::V2 => {
                        let mut sub = Serializer::new(Version::V2);
                        match serialize_value(&mut sub, item) {
                            Ok(()) => {},
                            Err(e) => {
                                return Err(e);
                            },
                        }
                        let bytes = sub.into_bytes();
                        proof {
                            assert(Seq::<u8>::empty() + bytes@ =~= bytes@);
                        }
                        match ser.push_long_value(bytes.as_slice()) {
                            Ok(()) => {},
                            Err(e) => {
                                return Err(e);
                            },
                        }
                    },
                }
                proof {
                    let bytes = encoding(v, entries@[i as int].1)->Ok_0;
                    let next = written + segment(key@) + value_wire(v, bytes);
                    assert(ser@ =~= old(ser)@ + next);
                    match entries_encoding(v, *entries, (i + 1) as nat) {
                        Ok(rest) => {
                            assert(written + (segment(key@) + value_wire(v, bytes) + rest) =~= next
                                + rest);
                        },
                        Err(_) => {},
                    }
                    written = next;
                }
                i = i + 1;
            }
            ser.end_map();
            proof {
                assert(ser@ =~= old(ser)@ + (written + seq![0u8, 0u8]));
            }
            Ok(())
        },
        Value::List(items) => {
            let ghost mut written = Seq::<u8>::empty();
            let mut i: usize = 0;
            proof {
                assert(ser@ + written =~= ser@);
                assert(behind(written, items_encoding(v, *items, 0)) == items_encoding(
                    v,
                    *items,
                    0,
                )) by {
                    match items_encoding(v, *items, 0) {
                        Ok(bytes) => {
                            assert(written + bytes =~= bytes);
                        },
                        Err(_) => {},
                    }
                }
            }
            while i < items.len()
                invariant
                    i <= items@.len(),
                    v == ser.version(),
                    v == old(ser).version(),
                    *value == Value::List(*items),
                    ser@ == old(ser)@ + written,
                    encoding(v, *value) == behind(written, items_encoding(v, *items, i as nat)),
                decreases items@.len() - i,
            {
                let ghost before = ser@;
                proof {
                    lemma_prefix_of_sum(old(ser)@, written);
                }
                match serialize_value(ser, &items[i]) {
                    Ok(()) => {},
                    Err(e) => {
                        proof {
                            lemma_prefix_chain(old(ser)@, before, ser@);
                        }
                        return Err(e);
                    },
                }
                proof {
                    let bytes = encoding(v, items@[i as int])->Ok_0;
                    let next = written + bytes;
                    assert(ser@ =~= old(ser)@ + next);
                    match items_encoding(v, *items, (i + 1) as nat) {
                        Ok(rest) => {
                            assert(written + (bytes + rest) =~= next + rest);
                        },
                        Err(_) => {},
                    }
                    written = next;
                }
                i = i + 1;
            }
            proof {
                assert(written + Seq::<u8>::empty() =~= written);
            }
            Ok(())
        },
    }
}

/// The bytes of a value.
pub fn value_to_bytes(version: Version, value: &Value) -> (res: Result<Vec<u8>, Error>)
    ensures
        match encoding(version, *value) {
            Ok(bytes) => res matches Ok(out) && out@ == bytes,
            Err(e) => res == Err::<Vec<u8>, Error>(e),
        },
{
    let mut serializer = Serializer::new(version);
    match serialize_value(&mut serializer, value) {
        Ok(()) => {
            let out = serializer.into_bytes();
            proof {
                let bytes = encoding(version, *value)->Ok_0;
                assert(Seq::<u8>::empty() + bytes =~= bytes);
            }
            Ok(out)
        },
        Err(e) => Err(e),
    }
}

} // verus!
