//! What holds of structured values: a value that fits a type is read back,
//! as that type, from the bytes that it was written as.

use vstd::prelude::*;
use vstd::utf8::{encode_utf8, encode_utf8_decode_utf8, encode_utf8_valid_utf8};
use crate::codecs::{segment, value_wire, Version};
use crate::de::{ascii_lower, bool_value, same_ignoring_case, word_false, word_true};
use crate::number::{decimal_text, integer_text, lemma_parse_integer_text};
use crate::ser::bool_text;
use crate::serde_laws::{lemma_key_step_end, lemma_key_step_segment, lemma_value_step_wire};
use crate::types::Error;
use crate::value::{encoding, entries_encoding, items_encoding, Value};
use crate::value_de::{
    decoding, entries_decoding, entries_view, items_decoding, value_view, values_view, Schema,
    ValueModel,
};

verus! {

/// Whether `value` is of the type `schema`, and such that its bytes tell
/// what it is: a present optional value is not written as nothing, and the
/// items of a list are records. Sequences are left out: the end of a sequence
/// is read from a length that is not written.
pub open spec fn fits(v: Version, value: Value, schema: Schema) -> bool
    decreases value, 0nat,
{
    match (value, schema) {
        (Value::Unit, Schema::Unit) => true,
        (Value::Bool(_), Schema::Bool) => true,
        (Value::Int(n), Schema::I8) => i8::MIN <= n <= i8::MAX,
        (Value::Int(n), Schema::I16) => i16::MIN <= n <= i16::MAX,
        (Value::Int(n), Schema::I32) => i32::MIN <= n <= i32::MAX,
        (Value::Int(_), Schema::I64) => true,
        (Value::UInt(n), Schema::U8) => n <= u8::MAX,
        (Value::UInt(n), Schema::U16) => n <= u16::MAX,
        (Value::UInt(n), Schema::U32) => n <= u32::MAX,
        (Value::UInt(_), Schema::U64) => true,
        (Value::Char(_), Schema::Char) => true,
        (Value::Str(_), Schema::Str) => true,
        (Value::Bytes(_), Schema::Bytes) => true,
        (Value::Absent, Schema::Optional(_)) => true,
        (Value::Present(inner), Schema::Optional(s)) => fits(v, *inner, *s) && (encoding(
            v,
            *inner,
        ) matches Ok(bytes) ==> bytes.len() > 0),
        (Value::Record(entries), Schema::Dictionary(s)) => entries_fit(v, entries, *s, 0),
        (Value::List(items), Schema::List(s)) => *s is Dictionary && items_fit(v, items, *s, 0),
        _ => false,
    }
}

/// Whether the values of the entries from place `i` on fit.
pub open spec fn entries_fit(v: Version, entries: Vec<(Vec<u8>, Value)>, schema: Schema, i: nat)
    -> bool
    decreases entries, entries@.len() - i,
{
    i >= entries@.len() || (fits(v, entries@[i as int].1, schema) && entries_fit(
        v,
        entries,
        schema,
        i + 1,
    ))
}

/// Whether the items from place `i` on fit.
pub open spec fn items_fit(v: Version, items: Vec<Value>, schema: Schema, i: nat) -> bool
    decreases items, items@.len() - i,
{
    i >= items@.len() || (fits(v, items@[i as int], schema) && items_fit(v, items, schema, i + 1))
}

proof fn lemma_bool_read_back(b: bool)
    ensures
        bool_value(bool_text(b)) == Some(b),
{
    if b {
        assert(same_ignoring_case(bool_text(true), word_true())) by {
            assert(ascii_lower(0x54) == 0x74);
        }
    } else {
        assert(!same_ignoring_case(bool_text(false), word_true()));
        assert(same_ignoring_case(bool_text(false), word_false())) by {
            assert(ascii_lower(0x46) == 0x66);
        }
    }
}

/// A value that fits a type is read back from its bytes, which it takes up.
/// A record is read back also where other bytes follow, which it leaves.
pub proof fn lemma_value_read_back(v: Version, value: Value, schema: Schema, rest: Seq<u8>)
    requires
        fits(v, value, schema),
        encoding(v, value) is Ok,
    ensures
        decoding(v, schema, encoding(v, value)->Ok_0) == (
            Ok::<ValueModel, Error>(value_view(value)),
            Seq::<u8>::empty(),
        ),
        schema is Dictionary ==> decoding(v, schema, encoding(v, value)->Ok_0 + rest) == (
            Ok::<ValueModel, Error>(value_view(value)),
            rest,
        ),
    decreases value, 0nat,
{
    let bytes = encoding(v, value)->Ok_0;
    match (value, schema) {
        (Value::Bool(b), Schema::Bool) => {
            lemma_bool_read_back(b);
        },
        (Value::Int(n), Schema::I8) => {
            lemma_parse_integer_text(n as int, true, i8::MIN as int, i8::MAX as int);
        },
        (Value::Int(n), Schema::I16) => {
            lemma_parse_integer_text(n as int, true, i16::MIN as int, i16::MAX as int);
        },
        (Value::Int(n), Schema::I32) => {
            lemma_parse_integer_text(n as int, true, i32::MIN as int, i32::MAX as int);
        },
        (Value::Int(n), Schema::I64) => {
            lemma_parse_integer_text(n as int, true, i64::MIN as int, i64::MAX as int);
        },
        (Value::UInt(n), Schema::U8) => {
            lemma_parse_integer_text(n as int, false, 0, u8::MAX as int);
        },
        (Value::UInt(n), Schema::U16) => {
            lemma_parse_integer_text(n as int, false, 0, u16::MAX as int);
        },
        (Value::UInt(n), Schema::U32) => {
            lemma_parse_integer_text(n as int, false, 0, u32::MAX as int);
        },
        (Value::UInt(n), Schema::U64) => {
            lemma_parse_integer_text(n as int, false, 0, u64::MAX as int);
        },
        (Value::Char(c), Schema::Char) => {
            encode_utf8_valid_utf8(seq![c]);
            encode_utf8_decode_utf8(seq![c]);
        },
        (Value::Str(s), Schema::Str) => {
            encode_utf8_valid_utf8(s@);
            encode_utf8_decode_utf8(s@);
        },
        (Value::Present(inner), Schema::Optional(s)) => {
            lemma_value_read_back(v, *inner, *s, rest);
        },
        (Value::Record(entries), Schema::Dictionary(s)) => {
            lemma_entries_read_back(v, entries, *s, 0, rest);
            lemma_entries_read_back(v, entries, *s, 0, Seq::empty());
            assert(bytes + Seq::<u8>::empty() =~= bytes);
        },
        (Value::List(items), Schema::List(s)) => {
            lemma_items_read_back(v, items, *s, 0);
        },
        _ => {},
    }
}

#[verifier::rlimit(50)]
proof fn lemma_entries_read_back(
    v: Version,
    entries: Vec<(Vec<u8>, Value)>,
    schema: Schema,
    i: nat,
    rest: Seq<u8>,
)
    requires
        i <= entries@.len(),
        entries_fit(v, entries, schema, i),
        entries_encoding(v, entries, i) is Ok,
    ensures
        entries_decoding(
            v,
            schema,
            entries_encoding(v, entries, i)->Ok_0 + rest,
            entries_view(entries, i),
        ) == (
            Ok::<ValueModel, Error>(ValueModel::Record(entries_view(entries, entries@.len()))),
            rest,
        ),
    decreases entries, entries@.len() - i,
{
    if i >= entries@.len() {
        lemma_key_step_end(rest);
    } else {
        let key = entries@[i as int].0@;
        let value = entries@[i as int].1;
        let acc = entries_view(entries, i);
        assert(1 <= key.len() <= 255);
        assert(encoding(v, value) is Ok);
        let bytes = encoding(v, value)->Ok_0;
        assert(v == Version::V1 ==> bytes.len() <= 65535);
        assert(entries_encoding(v, entries, i + 1) is Ok);
        let later = entries_encoding(v, entries, i + 1)->Ok_0;
        assert(entries_encoding(v, entries, i)->Ok_0 == segment(key) + value_wire(v, bytes) + later);
        assert(fits(v, value, schema));
        assert(entries_fit(v, entries, schema, i + 1));
        let behind = later + rest;
        let keyed = value_wire(v, bytes) + behind;
        let input = entries_encoding(v, entries, i)->Ok_0 + rest;
        assert(input =~= segment(key) + keyed);
        lemma_key_step_segment(key, keyed);
        lemma_value_step_wire(v, bytes, behind);
        lemma_value_read_back(v, value, schema, Seq::empty());
        assert(entries_view(entries, i + 1) == acc.push((key, value_view(value))));
        assert(entries_decoding(v, schema, input, acc) == entries_decoding(
            v,
            schema,
            behind,
            acc.push((key, value_view(value))),
        ));
        lemma_entries_read_back(v, entries, schema, i + 1, rest);
    }
}

proof fn lemma_items_read_back(v: Version, items: Vec<Value>, schema: Schema, i: nat)
    requires
        i <= items@.len(),
        schema is Dictionary,
        items_fit(v, items, schema, i),
        items_encoding(v, items, i) is Ok,
    ensures
        items_decoding(v, schema, items_encoding(v, items, i)->Ok_0, values_view(items, i)) == (
            Ok::<ValueModel, Error>(ValueModel::List(values_view(items, items@.len()))),
            Seq::<u8>::empty(),
        ),
    decreases items, items@.len() - i,
{
    if i < items@.len() {
        let value = items@[i as int];
        let bytes = encoding(v, value)->Ok_0;
        let later = items_encoding(v, items, i + 1)->Ok_0;
        assert(fits(v, value, schema));
        assert(value is Record) by {
            if !(value is Record) {
                assert(!fits(v, value, schema));
            }
        }
        lemma_value_read_back(v, value, schema, later);
        lemma_record_closed(v, value);
        lemma_items_read_back(v, items, schema, i + 1);
    }
}

/// The bytes of a record hold at least its closing empty key.
proof fn lemma_record_closed(v: Version, value: Value)
    requires
        value is Record,
        encoding(v, value) is Ok,
    ensures
        encoding(v, value)->Ok_0.len() >= 2,
{
    lemma_entries_closed(v, value->Record_0, 0);
}

proof fn lemma_entries_closed(v: Version, entries: Vec<(Vec<u8>, Value)>, i: nat)
    requires
        entries_encoding(v, entries, i) is Ok,
    ensures
        entries_encoding(v, entries, i)->Ok_0.len() >= 2,
    decreases entries@.len() - i,
{
    if i < entries@.len() {
        lemma_entries_closed(v, entries, i + 1);
    }
}

} // verus!
