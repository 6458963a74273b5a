//! The value serializer: scalars as text, keys and values behind their
//! lengths.

use vstd::prelude::*;
use vstd::string::StringSliceAdditionalSpecFns;
use vstd::utf8::encode_utf8;
use crate::buffer::{be16, vec_put_u16};
use crate::codecs::{
    body_wire, box_view, first_faulty, frame_wire, lemma_body_wire_push, lemma_first_faulty_at,
    pair_fault, pair_wire, segment, valid_box, value_wire, BoxSpec, Version, AMP_KEY_LIMIT,
    AMP_VALUE_LIMIT, LENGTH_SIZE,
};
use crate::number::{decimal_text, integer_text, push_integer, push_number};
use crate::text::char_bytes;
use crate::types::Error;

verus! {

/// The two bytes that hold the place of a length until it is known.
pub open spec fn length_placeholder() -> Seq<u8> {
    seq![0x55u8, 0xaau8]
}

/// `True` or `False`, as Python spells them.
pub open spec fn bool_text(v: bool) -> Seq<u8> {
    if v {
        seq![0x54u8, 0x72, 0x75, 0x65]
    } else {
        seq![0x46u8, 0x61, 0x6c, 0x73, 0x65]
    }
}

/// What is wrong with a length, if anything: a key has 1 to 255 bytes, a
/// single segment of a value at most 65535.
pub open spec fn length_fault(length: int, key: bool) -> Option<Error> {
    if key && length == 0 {
        Some(Error::EmptyKey)
    } else if key && length > AMP_KEY_LIMIT {
        Some(Error::KeyTooLong)
    } else if !key && length > AMP_VALUE_LIMIT {
        Some(Error::ValueTooLong)
    } else {
        None
    }
}

/// What is wrong with a pair, if anything: the key is checked first, the
/// value only in `V1`.
pub open spec fn pair_error(v: Version, p: (Seq<u8>, Seq<u8>)) -> Option<Error> {
    match length_fault(p.0.len() as int, true) {
        Some(e) => Some(e),
        None => if v == Version::V1 {
            length_fault(p.1.len() as int, false)
        } else {
            None
        },
    }
}

/// A beginning of a beginning is a beginning.
pub proof fn lemma_prefix_chain(a: Seq<u8>, b: Seq<u8>, c: Seq<u8>)
    requires
        a.is_prefix_of(b),
        b.is_prefix_of(c),
    ensures
        a.is_prefix_of(c),
{
    assert(a =~= c.subrange(0, a.len() as int)) by {
        assert forall|i: int| 0 <= i < a.len() implies a[i] == c.subrange(0, a.len() as int)[i] by {
            assert(a[i] == b.subrange(0, a.len() as int)[i]);
            assert(b[i] == c.subrange(0, b.len() as int)[i]);
        }
    }
}

/// What is added behind leaves the beginning as it is.
pub proof fn lemma_prefix_of_sum(a: Seq<u8>, b: Seq<u8>)
    ensures
        a.is_prefix_of(a + b),
{
    assert(a =~= (a + b).subrange(0, a.len() as int));
}

/// The error of the first faulty pair of a box, if it has one.
pub open spec fn first_error(v: Version, b: BoxSpec) -> Option<Error> {
    match first_faulty(v, b) {
        Some(i) => pair_error(v, b[i]),
        None => None,
    }
}

/// The bytes written so far, and the variant that they are written in.
#[derive(Debug)]
pub struct Serializer {
    buf: Vec<u8>,
    version: Version,
}

impl View for Serializer {
    type V = Seq<u8>;

    closed spec fn view(&self) -> Seq<u8> {
        self.buf@
    }
}

impl Default for Serializer {
    fn default() -> (ser: Serializer)
        ensures
            ser@ == Seq::<u8>::empty(),
            ser.version() == Version::V1,
    {
        Serializer::new(Version::V1)
    }
}

impl Serializer {
    /// The variant that this serializer writes.
    pub closed spec fn version(&self) -> Version {
        self.version
    }

    /// An empty serializer for the given variant.
    pub fn new(version: Version) -> (ser: Serializer)
        ensures
            ser@ == Seq::<u8>::empty(),
            ser.version() == version,
    {
        Serializer { buf: Vec::new(), version }
    }

    /// The bytes written so far.
    pub fn into_bytes(self) -> (out: Vec<u8>)
        ensures
            out@ == self@,
    {
        self.buf
    }

    /// The variant that this serializer writes.
    pub fn variant(&self) -> (version: Version)
        ensures
            version == self.version(),
    {
        self.version
    }

    /// The number of bytes written so far.
    pub fn len(&self) -> (n: usize)
        ensures
            n == self@.len(),
    {
        self.buf.len()
    }

    /// Appends bytes as they are.
    pub fn push_bytes(&mut self, bytes: &[u8])
        ensures
            final(self)@ == old(self)@ + bytes@,
            final(self).version() == old(self).version(),
    {
        self.buf.extend_from_slice(bytes);
        assert(self.buf@ =~= old(self).buf@ + bytes@);
    }

    /// Leaves room for a length and returns where it is.
    pub fn prep_len(&mut self) -> (length_offset: usize)
        ensures
            length_offset == old(self)@.len(),
            final(self)@ == old(self)@ + length_placeholder(),
            final(self).version() == old(self).version(),
    {
        let length_offset = self.buf.len();
        vec_put_u16(&mut self.buf, 0x55aa);
        assert(be16(0x55aa) =~= length_placeholder());
        length_offset
    }

    /// Fills in the length of what was written behind the room left at
    /// `length_offset`, unless that length is faulty.
    pub fn write_len(&mut self, length_offset: usize, key: bool) -> (res: Result<(), Error>)
        requires
            old(self)@.len() >= length_offset + LENGTH_SIZE,
        ensures
            final(self).version() == old(self).version(),
            match length_fault(old(self)@.len() - length_offset - LENGTH_SIZE, key) {
                Some(e) => res == Err::<(), Error>(e) && final(self)@ == old(self)@,
                None => res is Ok && final(self)@ == old(self)@.take(length_offset as int) + be16(
                    old(self)@.len() - length_offset - LENGTH_SIZE,
                ) + old(self)@.skip(length_offset + LENGTH_SIZE),
            },
    {
        let length = self.buf.len() - length_offset - LENGTH_SIZE;
        if key {
            if length == 0 {
                return Err(Error::EmptyKey);
            }
            if length > AMP_KEY_LIMIT {
                return Err(Error::KeyTooLong);
            }
        } else if length > AMP_VALUE_LIMIT {
            return Err(Error::ValueTooLong);
        }
        let hi: u8 = (length / 256) as u8;
        let lo: u8 = (length % 256) as u8;
        self.buf[length_offset] = hi;
        self.buf[length_offset + 1] = lo;
        assert(self.buf@ =~= old(self).buf@.take(length_offset as int) + be16(length as int) + old(
            self,
        ).buf@.skip(length_offset + LENGTH_SIZE));
        Ok(())
    }

    /// Writes a key behind its length. A faulty key is left in the buffer
    /// behind the placeholder.
    pub fn push_key(&mut self, key: &[u8]) -> (res: Result<(), Error>)
        ensures
            final(self).version() == old(self).version(),
            match length_fault(key@.len() as int, true) {
                Some(e) => res == Err::<(), Error>(e) && final(self)@ == old(self)@
                    + length_placeholder() + key@,
                None => res is Ok && final(self)@ == old(self)@ + segment(key@),
            },
    {
        let length_offset = self.prep_len();
        self.push_bytes(key);
        let res = self.write_len(length_offset, true);
        proof {
            let mid = old(self)@ + length_placeholder() + key@;
            assert(mid.take(length_offset as int) =~= old(self)@);
            assert(mid.skip(length_offset + LENGTH_SIZE) =~= key@);
            assert(old(self)@ + be16(key@.len() as int) + key@ =~= old(self)@ + segment(key@));
        }
        res
    }

    /// Writes a value as one segment. A value that is too long is left in the
    /// buffer behind the placeholder.
    pub fn push_value(&mut self, value: &[u8]) -> (res: Result<(), Error>)
        ensures
            final(self).version() == old(self).version(),
            match length_fault(value@.len() as int, false) {
                Some(e) => res == Err::<(), Error>(e) && final(self)@ == old(self)@
                    + length_placeholder() + value@,
                None => res is Ok && final(self)@ == old(self)@ + segment(value@),
            },
    {
        let length_offset = self.prep_len();
        self.push_bytes(value);
        let res = self.write_len(length_offset, false);
        proof {
            let mid = old(self)@ + length_placeholder() + value@;
            assert(mid.take(length_offset as int) =~= old(self)@);
            assert(mid.skip(length_offset + LENGTH_SIZE) =~= value@);
            assert(old(self)@ + be16(value@.len() as int) + value@ =~= old(self)@ + segment(
                value@,
            ));
        }
        res
    }

    /// Writes the value of a key: one segment in `V1`, chained in `V2`.
    pub fn push_long_value(&mut self, value: &[u8]) -> (res: Result<(), Error>)
        ensures
            final(self).version() == old(self).version(),
            res is Ok <==> (old(self).version() == Version::V2 || value@.len() <= AMP_VALUE_LIMIT),
            res is Ok ==> final(self)@ == old(self)@ + value_wire(old(self).version(), value@),
            res matches Err(e) ==> e == Error::ValueTooLong && final(self)@ == old(self)@
                + length_placeholder() + value@,
    {
        match self.version {
            Version::V1 => self.push_value(value),
            Version::V2 => {
                let mut pos: usize = 0;
                proof {
                    assert(value@.skip(0) =~= value@);
                }
                while value.len() - pos >= AMP_VALUE_LIMIT
                    invariant
                        pos <= value@.len(),
                        self.version == Version::V2,
                        old(self).version == Version::V2,
                        self@ + value_wire(Version::V2, value@.skip(pos as int)) == old(self)@
                            + value_wire(Version::V2, value@),
                    decreases value@.len() - pos,
                {
                    let ghost before = self@;
                    let ghost rest = value@.skip(pos as int);
                    let chunk = &value[pos..pos + AMP_VALUE_LIMIT];
                    vec_put_u16(&mut self.buf, 0xffff);
                    self.push_bytes(chunk);
                    proof {
                        assert(chunk@ =~= rest.take(AMP_VALUE_LIMIT as int));
                        assert(value@.skip(pos + AMP_VALUE_LIMIT) =~= rest.skip(
                            AMP_VALUE_LIMIT as int,
                        ));
                        assert(self@ =~= before + segment(chunk@));
                        assert(before + (segment(chunk@) + value_wire(
                            Version::V2,
                            rest.skip(AMP_VALUE_LIMIT as int),
                        )) =~= (before + segment(chunk@)) + value_wire(
                            Version::V2,
                            rest.skip(AMP_VALUE_LIMIT as int),
                        ));
                    }
                    pos = pos + AMP_VALUE_LIMIT;
                }
                let ghost before = self@;
                let tail = &value[pos..value.len()];
                vec_put_u16(&mut self.buf, tail.len() as u16);
                self.push_bytes(tail);
                proof {
                    assert(tail@ =~= value@.skip(pos as int));
                    assert(self@ =~= before + segment(tail@));
                }
                Ok(())
            },
        }
    }

    /// Closes a record or a map.
    pub fn end_map(&mut self)
        ensures
            final(self)@ == old(self)@ + seq![0u8, 0u8],
            final(self).version() == old(self).version(),
    {
        vec_put_u16(&mut self.buf, 0);
        assert(be16(0) =~= seq![0u8, 0u8]);
    }

    /// Writes `True` or `False`.
    pub fn serialize_bool(&mut self, v: bool) -> (res: Result<(), Error>)
        ensures
            res is Ok,
            final(self)@ == old(self)@ + bool_text(v),
            final(self).version() == old(self).version(),
    {
        if v {
            self.buf.push(0x54);
            self.buf.push(0x72);
            self.buf.push(0x75);
            self.buf.push(0x65);
        } else {
            self.buf.push(0x46);
            self.buf.push(0x61);
            self.buf.push(0x6c);
            self.buf.push(0x73);
            self.buf.push(0x65);
        }
        assert(self.buf@ =~= old(self).buf@ + bool_text(v));
        Ok(())
    }

    /// Writes an integer in decimal.
    pub fn serialize_i8(&mut self, v: i8) -> (res: Result<(), Error>)
        ensures
            res is Ok,
            final(self)@ == old(self)@ + integer_text(v as int),
            final(self).version() == old(self).version(),
    {
        self.serialize_i64(v as i64)
    }

    /// Writes an integer in decimal.
    pub fn serialize_i16(&mut self, v: i16) -> (res: Result<(), Error>)
        ensures
            res is Ok,
            final(self)@ == old(self)@ + integer_text(v as int),
            final(self).version() == old(self).version(),
    {
        self.serialize_i64(v as i64)
    }

    /// Writes an integer in decimal.
    pub fn serialize_i32(&mut self, v: i32) -> (res: Result<(), Error>)
        ensures
            res is Ok,
            final(self)@ == old(self)@ + integer_text(v as int),
            final(self).version() == old(self).version(),
    {
        self.serialize_i64(v as i64)
    }

    /// Writes an integer in decimal, with a minus sign where it is negative.
    pub fn serialize_i64(&mut self, v: i64) -> (res: Result<(), Error>)
        ensures
            res is Ok,
            final(self)@ == old(self)@ + integer_text(v as int),
            final(self).version() == old(self).version(),
    {
        push_integer(v, &mut self.buf);
        Ok(())
    }

    /// Writes an unsigned integer in decimal.
    pub fn serialize_u8(&mut self, v: u8) -> (res: Result<(), Error>)
        ensures
            res is Ok,
            final(self)@ == old(self)@ + decimal_text(v as nat),
            final(self).version() == old(self).version(),
    {
        self.serialize_u64(v as u64)
    }

    /// Writes an unsigned integer in decimal.
    pub fn serialize_u16(&mut self, v: u16) -> (res: Result<(), Error>)
        ensures
            res is Ok,
            final(self)@ == old(self)@ + decimal_text(v as nat),
            final(self).version() == old(self).version(),
    {
        self.serialize_u64(v as u64)
    }

    /// Writes an unsigned integer in decimal.
    pub fn serialize_u32(&mut self, v: u32) -> (res: Result<(), Error>)
        ensures
            res is Ok,
            final(self)@ == old(self)@ + decimal_text(v as nat),
            final(self).version() == old(self).version(),
    {
        self.serialize_u64(v as u64)
    }

    /// Writes an unsigned integer in decimal.
    pub fn serialize_u64(&mut self, v: u64) -> (res: Result<(), Error>)
        ensures
            res is Ok,
            final(self)@ == old(self)@ + decimal_text(v as nat),
            final(self).version() == old(self).version(),
    {
        push_number(10, v, &mut self.buf);
        Ok(())
    }

    /// Writes the UTF-8 bytes of a character.
    pub fn serialize_char(&mut self, v: char) -> (res: Result<(), Error>)
        ensures
            res is Ok,
            final(self)@ == old(self)@ + encode_utf8(seq![v]),
            final(self).version() == old(self).version(),
    {
        let bytes = char_bytes(v);
        self.push_bytes(bytes.as_slice());
        Ok(())
    }

    /// Writes the UTF-8 bytes of a string.
    pub fn serialize_str(&mut self, v: &str) -> (res: Result<(), Error>)
        ensures
            res is Ok,
            final(self)@ == old(self)@ + v.spec_bytes(),
            final(self).version() == old(self).version(),
    {
        self.push_bytes(v.as_bytes());
        Ok(())
    }

    /// Writes bytes as they are.
    pub fn serialize_bytes(&mut self, value: &[u8]) -> (res: Result<(), Error>)
        ensures
            res is Ok,
            final(self)@ == old(self)@ + value@,
            final(self).version() == old(self).version(),
    {
        self.push_bytes(value);
        Ok(())
    }

    /// An absent value is written as nothing.
    pub fn serialize_none(&mut self) -> (res: Result<(), Error>)
        ensures
            res is Ok,
            final(self)@ == old(self)@,
            final(self).version() == old(self).version(),
    {
        Ok(())
    }

    /// The unit value is written as nothing.
    pub fn serialize_unit(&mut self) -> (res: Result<(), Error>)
        ensures
            res is Ok,
            final(self)@ == old(self)@,
            final(self).version() == old(self).version(),
    {
        Ok(())
    }

    /// Writes a box as a record: its pairs in order, then the closing empty
    /// key. At the first faulty pair the call stops with that pair's fault.
    pub fn serialize_box(&mut self, item: &Vec<(Vec<u8>, Vec<u8>)>) -> (res: Result<(), Error>)
        ensures
            final(self).version() == old(self).version(),
            res is Ok <==> valid_box(old(self).version(), box_view(*item)),
            res is Ok ==> final(self)@ == old(self)@ + frame_wire(
                old(self).version(),
                box_view(*item),
            ),
            res matches Err(e) ==> first_error(old(self).version(), box_view(*item)) == Some(e)
                && old(self)@.is_prefix_of(final(self)@),
    {
        let ghost b = box_view(*item);
        let ghost v = self.version;
        let mut i: usize = 0;
        proof {
            assert(b.take(0) =~= Seq::empty());
            assert(self@ + body_wire(v, b.take(0)) =~= self@);
        }
        while i < item.len()
            invariant
                i <= item@.len(),
                b == box_view(*item),
                v == self.version,
                v == old(self).version,
                valid_box(v, b.take(i as int)),
                self@ == old(self)@ + body_wire(v, b.take(i as int)),
            decreases item@.len() - i,
        {
            let key = &item[i].0;
            let value = &item[i].1;
            let ghost before = self@;
            assert(b[i as int] == (key@, value@));
            proof {
                lemma_prefix_of_sum(old(self)@, body_wire(v, b.take(i as int)));
            }
            match self.push_key(key.as_slice()) {
                Err(e) => {
                    proof {
                        lemma_first_faulty_at(v, b, i as int);
                        lemma_prefix_of_sum(before, length_placeholder() + key@);
                        assert(before + (length_placeholder() + key@) =~= self@);
                        lemma_prefix_chain(old(self)@, before, self@);
                    }
                    return Err(e);
                },
                Ok(()) => {},
            }
            let ghost keyed = self@;
            match self.push_long_value(value.as_slice()) {
                Err(e) => {
                    proof {
                        lemma_first_faulty_at(v, b, i as int);
                        lemma_prefix_of_sum(before, segment(key@));
                        lemma_prefix_chain(old(self)@, before, keyed);
                        lemma_prefix_of_sum(keyed, length_placeholder() + value@);
                        assert(keyed + (length_placeholder() + value@) =~= self@);
                        lemma_prefix_chain(old(self)@, keyed, self@);
                    }
                    return Err(e);
                },
                Ok(()) => {},
            }
            proof {
                let p = (key@, value@);
                assert(pair_fault(v, b[i as int]) is None);
                lemma_body_wire_push(v, b.take(i as int), p);
                assert(b.take(i as int).push(p) =~= b.take(i + 1));
                assert(self@ =~= old(self)@ + body_wire(v, b.take(i + 1)));
                assert forall|j: int| 0 <= j < b.take(i + 1).len() implies (#[trigger] pair_fault(
                    v,
                    b.take(i + 1)[j],
                )) is None by {
                    if j < i {
                        assert(b.take(i as int)[j] == b.take(i + 1)[j]);
                    }
                }
            }
            i = i + 1;
        }
        self.end_map();
        proof {
            assert(b.take(i as int) =~= b);
        }
        Ok(())
    }
}

/// A record, map, sequence or list that is being written.
pub struct Compound<'a> {
    pub ser: &'a mut Serializer,
}

impl<'a> Compound<'a> {
    /// What the serializer holds now.
    pub open spec fn written(&self) -> Seq<u8> {
        self.ser@
    }

    /// The variant that is written.
    pub open spec fn version(&self) -> Version {
        self.ser.version()
    }


    /// Starts a compound on `ser`, which gets all that the compound writes.
    pub fn new(ser: &'a mut Serializer) -> (compound: Compound<'a>)
        ensures
            compound.written() == old(ser)@,
            compound.version() == old(ser).version(),
            *final(compound.ser) == *final(ser),
    {
        Compound { ser }
    }

    /// Writes an element of a sequence or tuple: one segment.
    pub fn serialize_element(&mut self, value: &[u8]) -> (res: Result<(), Error>)
        ensures
            final(self).version() == old(self).version(),
            *final(final(self).ser) == *final(old(self).ser),
            match length_fault(value@.len() as int, false) {
                Some(e) => res == Err::<(), Error>(e) && final(self).written() == old(
                    self,
                ).written() + length_placeholder() + value@,
                None => res is Ok && final(self).written() == old(self).written() + segment(
                    value@,
                ),
            },
    {
        self.ser.push_value(value)
    }

    /// Writes an item of a list of records as it is, with no length before
    /// it.
    pub fn serialize_item(&mut self, item: &[u8]) -> (res: Result<(), Error>)
        ensures
            res is Ok,
            final(self).version() == old(self).version(),
            *final(final(self).ser) == *final(old(self).ser),
            final(self).written() == old(self).written() + item@,
    {
        self.ser.push_bytes(item);
        Ok(())
    }

    /// Writes the key of a map's entry.
    pub fn serialize_key(&mut self, key: &[u8]) -> (res: Result<(), Error>)
        ensures
            final(self).version() == old(self).version(),
            *final(final(self).ser) == *final(old(self).ser),
            match length_fault(key@.len() as int, true) {
                Some(e) => res == Err::<(), Error>(e) && final(self).written() == old(
                    self,
                ).written() + length_placeholder() + key@,
                None => res is Ok && final(self).written() == old(self).written() + segment(key@),
            },
    {
        self.ser.push_key(key)
    }

    /// Writes the value of a map's entry.
    pub fn serialize_value(&mut self, value: &[u8]) -> (res: Result<(), Error>)
        ensures
            final(self).version() == old(self).version(),
            *final(final(self).ser) == *final(old(self).ser),
            res is Ok <==> (old(self).version() == Version::V2 || value@.len() <= AMP_VALUE_LIMIT),
            res is Ok ==> final(self).written() == old(self).written() + value_wire(
                old(self).version(),
                value@,
            ),
            res matches Err(e) ==> e == Error::ValueTooLong && final(self).written() == old(
                self,
            ).written() + length_placeholder() + value@,
    {
        self.ser.push_long_value(value)
    }

    /// Writes a field of a record: its name as the key, then its value. A
    /// faulty name stops the call before the value is written.
    pub fn serialize_field(&mut self, key: &str, value: &[u8]) -> (res: Result<(), Error>)
        ensures
            final(self).version() == old(self).version(),
            *final(final(self).ser) == *final(old(self).ser),
            res is Ok <==> pair_error(old(self).version(), (key.spec_bytes(), value@)) is None,
            res is Ok ==> final(self).written() == old(self).written() + pair_wire(
                old(self).version(),
                (key.spec_bytes(), value@),
            ),
            res matches Err(e) ==> pair_error(old(self).version(), (key.spec_bytes(), value@))
                == Some(e),
            res is Err ==> final(self).written() == (if length_fault(
                key.spec_bytes().len() as int,
                true,
            ) is Some {
                old(self).written() + length_placeholder() + key.spec_bytes()
            } else {
                old(self).written() + segment(key.spec_bytes()) + length_placeholder() + value@
            }),
    {
        match self.ser.push_key(key.as_bytes()) {
            Err(e) => {
                return Err(e);
            },
            Ok(()) => {},
        }
        let res = self.ser.push_long_value(value);
        proof {
            assert(old(self).written() + segment(key.spec_bytes()) + value_wire(
                self.version(),
                value@,
            ) =~= old(self).written() + pair_wire(self.version(), (key.spec_bytes(), value@)));
        }
        res
    }

    /// Closes a sequence, a tuple or a list: nothing is written.
    pub fn end_seq(self)
        ensures
            final(self.ser)@ == self.written(),
    {
    }

    /// Closes a record or a map with the empty key.
    pub fn end(self)
        ensures
            final(self.ser)@ == self.written() + seq![0u8, 0u8],
    {
        self.ser.end_map();
    }
}

/// The frame of a box, where the box is valid; else the fault of its first
/// faulty pair.
pub fn to_bytes(version: Version, item: &Vec<(Vec<u8>, Vec<u8>)>) -> (res: Result<Vec<u8>, Error>)
    ensures
        res is Ok <==> valid_box(version, box_view(*item)),
        res matches Ok(bytes) ==> bytes@ == frame_wire(version, box_view(*item)),
        res matches Err(e) ==> first_error(version, box_view(*item)) == Some(e),
{
    let mut serializer = Serializer::new(version);
    match serializer.serialize_box(item) {
        Ok(()) => {
            let bytes = serializer.into_bytes();
            assert(bytes@ =~= frame_wire(version, box_view(*item)));
            Ok(bytes)
        },
        Err(e) => Err(e),
    }
}

} // verus!
