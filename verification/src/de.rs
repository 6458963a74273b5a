//! The value deserializer: scalars from text, keys, values and elements
//! from behind their lengths. Every key, value and element is handed out as a
//! deserializer of its own, scoped to those bytes.

use vstd::prelude::*;
use vstd::slice::slice_to_vec;
use vstd::string::StrSliceExecFns;
use vstd::utf8::{decode_utf8, encode_utf8, encode_utf8_decode_utf8, valid_utf8};
use bytes::Bytes;
use crate::buffer::{
    shared_advance, shared_bytes, shared_clear, shared_from_vec, shared_slice, shared_split_to,
};
use crate::codecs::{box_view, head_len, BoxSpec, Version, AMP_KEY_LIMIT, AMP_VALUE_LIMIT, LENGTH_SIZE};
use crate::number::{parse_integer, parse_signed, parse_unsigned};
use crate::text::utf8_text;
use crate::types::Error;

verus! {

/// A step's report and the input that it leaves.
pub type Step<T> = (Result<T, Error>, Seq<u8>);

/// An ASCII letter in lower case; any other byte as it is.
pub open spec fn ascii_lower(c: u8) -> u8 {
    if 0x41 <= c <= 0x5a {
        (c + 0x20) as u8
    } else {
        c
    }
}

/// Whether two byte strings are the same but for the case of ASCII letters.
pub open spec fn same_ignoring_case(a: Seq<u8>, b: Seq<u8>) -> bool {
    a.len() == b.len() && forall|i: int| 0 <= i < a.len() ==> ascii_lower(a[i]) == ascii_lower(b[i])
}

/// `true`
pub open spec fn word_true() -> Seq<u8> {
    seq![0x74u8, 0x72, 0x75, 0x65]
}

/// `false`
pub open spec fn word_false() -> Seq<u8> {
    seq![0x66u8, 0x61, 0x6c, 0x73, 0x65]
}

/// `nan`
pub open spec fn word_nan() -> Seq<u8> {
    seq![0x6eu8, 0x61, 0x6e]
}

/// `inf`
pub open spec fn word_inf() -> Seq<u8> {
    seq![0x69u8, 0x6e, 0x66]
}

/// `-inf`
pub open spec fn word_neg_inf() -> Seq<u8> {
    seq![0x2du8, 0x69, 0x6e, 0x66]
}

/// The boolean that a text spells, in any case.
pub open spec fn bool_value(input: Seq<u8>) -> Option<bool> {
    if same_ignoring_case(input, word_true()) {
        Some(true)
    } else if same_ignoring_case(input, word_false()) {
        Some(false)
    } else {
        None
    }
}

/// The floats that are spelled as words.
#[derive(Clone, Copy, Debug, PartialEq, Eq, Structural)]
pub enum FloatWord {
    Nan,
    Inf,
    NegInf,
}

/// The float word that a text spells, in any case.
pub open spec fn float_word_value(input: Seq<u8>) -> Option<FloatWord> {
    if same_ignoring_case(input, word_nan()) {
        Some(FloatWord::Nan)
    } else if same_ignoring_case(input, word_inf()) {
        Some(FloatWord::Inf)
    } else if same_ignoring_case(input, word_neg_inf()) {
        Some(FloatWord::NegInf)
    } else {
        None
    }
}

/// Reading the key of a map's entry: the empty key closes the map; a key
/// has at most 255 bytes and must be wholly there. The length is consumed even
/// where the key is refused.
pub open spec fn key_step(input: Seq<u8>) -> Step<Option<Seq<u8>>> {
    if input.len() >= LENGTH_SIZE && input[0] == 0 && input[1] == 0 {
        (Ok(None), input.skip(LENGTH_SIZE as int))
    } else if input.len() < LENGTH_SIZE {
        (Err(Error::ExpectedMapKey), input)
    } else {
        let n = head_len(input);
        let after = input.skip(LENGTH_SIZE as int);
        if n > AMP_KEY_LIMIT {
            (Err(Error::ExpectedMapKey), after)
        } else if after.len() >= n {
            (Ok(Some(after.take(n))), after.skip(n))
        } else {
            (Err(Error::ExpectedMapKey), after)
        }
    }
}

/// A value with `acc` put before it.
pub open spec fn prefixed(acc: Seq<u8>, step: Step<Seq<u8>>) -> Step<Seq<u8>> {
    match step.0 {
        Ok(value) => (Ok(acc + value), step.1),
        Err(e) => (Err(e), step.1),
    }
}

/// Reading the value of a map's entry: one segment in `V1`; in `V2` the
/// segments up to the first that is shorter than 65535 bytes, joined.
pub open spec fn value_step(v: Version, input: Seq<u8>) -> Step<Seq<u8>>
    decreases input.len(),
{
    if input.len() < LENGTH_SIZE {
        (Err(Error::ExpectedMapValue), input)
    } else {
        let n = head_len(input);
        let after = input.skip(LENGTH_SIZE as int);
        if after.len() < n {
            (Err(Error::ExpectedMapValue), after)
        } else if v == Version::V2 && n == AMP_VALUE_LIMIT {
            prefixed(after.take(n), value_step(v, after.skip(n)))
        } else {
            (Ok(after.take(n)), after.skip(n))
        }
    }
}

/// Reading an element of a sequence: a length with nothing behind it ends
/// the sequence.
pub open spec fn element_step(input: Seq<u8>) -> Step<Option<Seq<u8>>> {
    if input.len() < LENGTH_SIZE {
        (Err(Error::ExpectedSeqLength), input)
    } else {
        let n = head_len(input);
        let after = input.skip(LENGTH_SIZE as int);
        if after.len() == 0 {
            (Ok(None), after)
        } else if after.len() >= n {
            (Ok(Some(after.take(n))), after.skip(n))
        } else {
            (Err(Error::ExpectedSeqValue), after)
        }
    }
}

/// Reading a record of byte strings into `acc`, up to its closing empty key.
pub open spec fn box_step(v: Version, input: Seq<u8>, acc: BoxSpec) -> Step<BoxSpec>
    decreases input.len(),
{
    let key = key_step(input);
    match key.0 {
        Err(e) => (Err(e), key.1),
        Ok(None) => (Ok(acc), key.1),
        Ok(Some(k)) => {
            let value = value_step(v, key.1);
            match value.0 {
                Err(e) => (Err(e), value.1),
                Ok(val) => {
                    proof {
                        lemma_value_step_shrinks(v, key.1);
                    }
                    box_step(v, value.1, acc.push((k, val)))
                },
            }
        },
    }
}

/// No step adds to the input: a value and what is left behind it are
/// together shorter than what they were read from.
pub proof fn lemma_value_step_shrinks(v: Version, input: Seq<u8>)
    ensures
        value_step(v, input).1.len() <= input.len(),
        value_step(v, input).0 is Ok ==> value_step(v, input).1.len() + LENGTH_SIZE <= input.len(),
        value_step(v, input).0 matches Ok(value) ==> value.len() + value_step(v, input).1.len()
            + LENGTH_SIZE <= input.len(),
    decreases input.len(),
{
    if input.len() >= LENGTH_SIZE {
        let n = head_len(input);
        let after = input.skip(LENGTH_SIZE as int);
        if after.len() >= n && v == Version::V2 && n == AMP_VALUE_LIMIT {
            lemma_value_step_shrinks(v, after.skip(n));
        }
    }
}

/// A record that was read has taken at least its closing empty key.
pub proof fn lemma_box_step_shrinks(v: Version, input: Seq<u8>, acc: BoxSpec)
    ensures
        box_step(v, input, acc).1.len() <= input.len(),
        box_step(v, input, acc).0 is Ok ==> box_step(v, input, acc).1.len() + LENGTH_SIZE
            <= input.len(),
    decreases input.len(),
{
    let key = key_step(input);
    if let Ok(Some(k)) = key.0 {
        lemma_value_step_shrinks(v, key.1);
        let value = value_step(v, key.1);
        if let Ok(val) = value.0 {
            lemma_box_step_shrinks(v, value.1, acc.push((k, val)));
        }
    }
}

/// Reading a list of records into `acc`, up to the end of the input.
pub open spec fn list_step(v: Version, input: Seq<u8>, acc: Seq<BoxSpec>) -> Step<Seq<BoxSpec>>
    decreases input.len(),
{
    if input.len() == 0 {
        (Ok(acc), input)
    } else {
        let item = box_step(v, input, Seq::empty());
        match item.0 {
            Err(e) => (Err(e), item.1),
            Ok(b) => {
                proof {
                    lemma_box_step_shrinks(v, input, Seq::empty());
                }
                list_step(v, item.1, acc.push(b))
            },
        }
    }
}

/// Whether two byte strings are the same but for the case of ASCII letters.
pub fn eq_ignore_ascii_case(a: &[u8], b: &[u8]) -> (same: bool)
    ensures
        same == same_ignoring_case(a@, b@),
{
    if a.len() != b.len() {
        return false;
    }
    let mut i: usize = 0;
    while i < a.len()
        invariant
            i <= a@.len(),
            a@.len() == b@.len(),
            forall|j: int| 0 <= j < i ==> ascii_lower(a@[j]) == ascii_lower(b@[j]),
        decreases a@.len() - i,
    {
        let x = a[i];
        let y = b[i];
        let lx: u8 = if 0x41 <= x && x <= 0x5a {
            x + 0x20
        } else {
            x
        };
        let ly: u8 = if 0x41 <= y && y <= 0x5a {
            y + 0x20
        } else {
            y
        };
        if lx != ly {
            return false;
        }
        i = i + 1;
    }
    true
}

/// A scope of bytes that is being read.
pub struct Deserializer {
    input: Bytes,
    version: Version,
}

impl View for Deserializer {
    type V = Seq<u8>;

    closed spec fn view(&self) -> Seq<u8> {
        shared_bytes(self.input)
    }
}

/// The scope that a step handed out, as bytes.
pub open spec fn scoped_view(res: Result<Option<Deserializer>, Error>) -> Result<
    Option<Seq<u8>>,
    Error,
> {
    match res {
        Ok(Some(sub)) => Ok(Some(sub@)),
        Ok(None) => Ok(None),
        Err(e) => Err(e),
    }
}

impl Deserializer {
    /// The variant that this deserializer reads.
    pub closed spec fn version(&self) -> Version {
        self.version
    }

    /// A deserializer over `input`.
    pub fn from_bytes(input: Bytes, version: Version) -> (de: Deserializer)
        ensures
            de@ == shared_bytes(input),
            de.version() == version,
    {
        Deserializer { input, version }
    }

    /// The variant that this deserializer reads.
    pub fn variant(&self) -> (version: Version)
        ensures
            version == self.version(),
    {
        self.version
    }

    /// The number of bytes that are left.
    pub fn remaining(&self) -> (n: usize)
        ensures
            n == self@.len(),
    {
        shared_slice(&self.input).len()
    }

    /// Ends a scope: bytes that nothing has read are an error.
    pub fn finish(self) -> (res: Result<(), Error>)
        ensures
            res is Ok <==> self@.len() == 0,
            res matches Err(e) ==> e == Error::RemainingBytes,
    {
        if self.remaining() == 0 {
            Ok(())
        } else {
            Err(Error::RemainingBytes)
        }
    }

    /// Takes the length at the front of the input, which holds at least two
    /// bytes.
    fn take_length(&mut self) -> (n: usize)
        requires
            old(self)@.len() >= LENGTH_SIZE,
        ensures
            n == head_len(old(self)@),
            final(self)@ == old(self)@.skip(LENGTH_SIZE as int),
            final(self).version() == old(self).version(),
    {
        let head = shared_slice(&self.input);
        let n: usize = head[0] as usize * 256 + head[1] as usize;
        shared_advance(&mut self.input, LENGTH_SIZE);
        n
    }

    /// Reads the key of the next entry of a map, or the end of the map.
    pub fn next_key(&mut self) -> (res: Result<Option<Deserializer>, Error>)
        ensures
            final(self).version() == old(self).version(),
            (scoped_view(res), final(self)@) == key_step(old(self)@),
            res matches Ok(Some(sub)) ==> sub.version() == old(self).version(),
    {
        if self.remaining() < LENGTH_SIZE {
            return Err(Error::ExpectedMapKey);
        }
        let length = self.take_length();
        if length == 0 {
            return Ok(None);
        }
        if length > AMP_KEY_LIMIT {
            return Err(Error::ExpectedMapKey);
        }
        if self.remaining() >= length {
            let sub = shared_split_to(&mut self.input, length);
            Ok(Some(Deserializer::from_bytes(sub, self.version)))
        } else {
            Err(Error::ExpectedMapKey)
        }
    }

    /// Reads one segment of a value.
    fn read_segment(&mut self) -> (res: Result<Bytes, Error>)
        ensures
            final(self).version() == old(self).version(),
            old(self)@.len() < LENGTH_SIZE ==> res == Err::<Bytes, Error>(Error::ExpectedMapValue)
                && final(self)@ == old(self)@,
            old(self)@.len() >= LENGTH_SIZE ==> {
                let n = head_len(old(self)@);
                let after = old(self)@.skip(LENGTH_SIZE as int);
                if after.len() < n {
                    res == Err::<Bytes, Error>(Error::ExpectedMapValue) && final(self)@ == after
                } else {
                    res matches Ok(seg) && shared_bytes(seg) == after.take(n) && final(self)@
                        == after.skip(n)
                }
            },
    {
        if self.remaining() < LENGTH_SIZE {
            return Err(Error::ExpectedMapValue);
        }
        let length = self.take_length();
        if self.remaining() < length {
            return Err(Error::ExpectedMapValue);
        }
        Ok(shared_split_to(&mut self.input, length))
    }

    /// Reads the value of a map's entry.
    pub fn next_value(&mut self) -> (res: Result<Deserializer, Error>)
        ensures
            final(self).version() == old(self).version(),
            (
                match res {
                    Ok(sub) => Ok(sub@),
                    Err(e) => Err(e),
                },
                final(self)@,
            ) == value_step(old(self).version(), old(self)@),
            res matches Ok(sub) ==> sub.version() == old(self).version(),
    {
        let first = match self.read_segment() {
            Ok(seg) => seg,
            Err(e) => {
                return Err(e);
            },
        };
        let first_len = shared_slice(&first).len();
        if !(self.version == Version::V2 && first_len == AMP_VALUE_LIMIT) {
            return Ok(Deserializer::from_bytes(first, self.version));
        }
        let mut value: Vec<u8> = slice_to_vec(shared_slice(&first));
        let mut done = false;
        proof {
            assert(Seq::<u8>::empty() + value@ =~= value@);
        }
        while !done
            invariant
                self.version == Version::V2,
                old(self).version == Version::V2,
                !done ==> value_step(Version::V2, old(self)@) == prefixed(
                    value@,
                    value_step(Version::V2, self@),
                ),
                done ==> value_step(Version::V2, old(self)@) == (
                    Ok::<Seq<u8>, Error>(value@),
                    self@,
                ),
            decreases self@.len() + (if done { 0nat } else { 1nat }),
        {
            let ghost before = value@;
            let ghost input = self@;
            match self.read_segment() {
                Ok(seg) => {
                    let slice = shared_slice(&seg);
                    value.extend_from_slice(slice);
                    done = slice.len() != AMP_VALUE_LIMIT;
                    proof {
                        assert(value@ =~= before + slice@);
                        let next = value_step(Version::V2, self@);
                        if !done {
                            match next.0 {
                                Ok(more) => {
                                    assert(before + (slice@ + more) =~= value@ + more);
                                },
                                Err(_) => {},
                            }
                        }
                    }
                },
                Err(e) => {
                    return Err(e);
                },
            }
        }
        Ok(Deserializer::from_bytes(shared_from_vec(value), self.version))
    }

    /// Reads the next element of a sequence, or its end.
    pub fn next_element(&mut self) -> (res: Result<Option<Deserializer>, Error>)
        ensures
            final(self).version() == old(self).version(),
            (scoped_view(res), final(self)@) == element_step(old(self)@),
            res matches Ok(Some(sub)) ==> sub.version() == old(self).version(),
    {
        if self.remaining() < LENGTH_SIZE {
            return Err(Error::ExpectedSeqLength);
        }
        let length = self.take_length();
        let left = self.remaining();
        if left == 0 {
            Ok(None)
        } else if left >= length {
            let sub = shared_split_to(&mut self.input, length);
            Ok(Some(Deserializer::from_bytes(sub, self.version)))
        } else {
            Err(Error::ExpectedSeqValue)
        }
    }

    /// Whether a value is there at all: an absent one is written as nothing.
    pub fn deserialize_option(&self) -> (present: bool)
        ensures
            present == (self@.len() > 0),
    {
        self.remaining() > 0
    }

    /// Reads `true` or `false`, in any case.
    pub fn deserialize_bool(&mut self) -> (res: Result<bool, Error>)
        ensures
            final(self).version() == old(self).version(),
            match bool_value(old(self)@) {
                Some(b) => res == Ok::<bool, Error>(b) && final(self)@ == Seq::<u8>::empty(),
                None => res == Err::<bool, Error>(Error::ExpectedBool) && final(self)@ == old(
                    self,
                )@,
            },
    {
        let yes: [u8; 4] = [0x74, 0x72, 0x75, 0x65];
        let no: [u8; 5] = [0x66, 0x61, 0x6c, 0x73, 0x65];
        assert(yes@ =~= word_true());
        assert(no@ =~= word_false());
        if eq_ignore_ascii_case(shared_slice(&self.input), yes.as_slice()) {
            shared_clear(&mut self.input);
            Ok(true)
        } else if eq_ignore_ascii_case(shared_slice(&self.input), no.as_slice()) {
            shared_clear(&mut self.input);
            Ok(false)
        } else {
            Err(Error::ExpectedBool)
        }
    }

    /// Tells whether the input spells one of the floats that are written as
    /// words, which it then consumes.
    pub fn deserialize_float_word(&mut self) -> (res: Option<FloatWord>)
        ensures
            final(self).version() == old(self).version(),
            res == float_word_value(old(self)@),
            final(self)@ == (if res is Some {
                Seq::<u8>::empty()
            } else {
                old(self)@
            }),
    {
        let nan: [u8; 3] = [0x6e, 0x61, 0x6e];
        let inf: [u8; 3] = [0x69, 0x6e, 0x66];
        let neg_inf: [u8; 4] = [0x2d, 0x69, 0x6e, 0x66];
        assert(nan@ =~= word_nan());
        assert(inf@ =~= word_inf());
        assert(neg_inf@ =~= word_neg_inf());
        let res = if eq_ignore_ascii_case(shared_slice(&self.input), nan.as_slice()) {
            Some(FloatWord::Nan)
        } else if eq_ignore_ascii_case(shared_slice(&self.input), inf.as_slice()) {
            Some(FloatWord::Inf)
        } else if eq_ignore_ascii_case(shared_slice(&self.input), neg_inf.as_slice()) {
            Some(FloatWord::NegInf)
        } else {
            None
        };
        if res.is_some() {
            shared_clear(&mut self.input);
        }
        res
    }

    /// Reads a signed decimal integer between `lo` and `hi`.
    fn parse_int(&mut self, lo: i64, hi: i64) -> (res: Result<i64, Error>)
        ensures
            final(self).version() == old(self).version(),
            match parse_integer(old(self)@, true, lo as int, hi as int) {
                Some(n) => res matches Ok(r) && r == n && final(self)@ == Seq::<u8>::empty(),
                None => res == Err::<i64, Error>(Error::ExpectedInteger) && final(self)@ == old(
                    self,
                )@,
            },
    {
        match parse_signed(shared_slice(&self.input), lo, hi) {
            Some(n) => {
                shared_clear(&mut self.input);
                Ok(n)
            },
            None => Err(Error::ExpectedInteger),
        }
    }

    /// Reads an unsigned decimal integer of at most `hi`.
    fn parse_uint(&mut self, hi: u64) -> (res: Result<u64, Error>)
        ensures
            final(self).version() == old(self).version(),
            match parse_integer(old(self)@, false, 0, hi as int) {
                Some(n) => res matches Ok(r) && r == n && final(self)@ == Seq::<u8>::empty(),
                None => res == Err::<u64, Error>(Error::ExpectedInteger) && final(self)@ == old(
                    self,
                )@,
            },
    {
        match parse_unsigned(shared_slice(&self.input), hi) {
            Some(n) => {
                shared_clear(&mut self.input);
                Ok(n)
            },
            None => Err(Error::ExpectedInteger),
        }
    }

    /// Reads a decimal integer of 8 bits.
    pub fn deserialize_i8(&mut self) -> (res: Result<i8, Error>)
        ensures
            final(self).version() == old(self).version(),
            match parse_integer(old(self)@, true, i8::MIN as int, i8::MAX as int) {
                Some(n) => res matches Ok(r) && r == n && final(self)@ == Seq::<u8>::empty(),
                None => res == Err::<i8, Error>(Error::ExpectedInteger) && final(self)@ == old(
                    self,
                )@,
            },
    {
        match self.parse_int(-128, 127) {
            Ok(n) => Ok(n as i8),
            Err(e) => Err(e),
        }
    }

    /// Reads a decimal integer of 16 bits.
    pub fn deserialize_i16(&mut self) -> (res: Result<i16, Error>)
        ensures
            final(self).version() == old(self).version(),
            match parse_integer(old(self)@, true, i16::MIN as int, i16::MAX as int) {
                Some(n) => res matches Ok(r) && r == n && final(self)@ == Seq::<u8>::empty(),
                None => res == Err::<i16, Error>(Error::ExpectedInteger) && final(self)@ == old(
                    self,
                )@,
            },
    {
        match self.parse_int(-32768, 32767) {
            Ok(n) => Ok(n as i16),
            Err(e) => Err(e),
        }
    }

    /// Reads a decimal integer of 32 bits.
    pub fn deserialize_i32(&mut self) -> (res: Result<i32, Error>)
        ensures
            final(self).version() == old(self).version(),
            match parse_integer(old(self)@, true, i32::MIN as int, i32::MAX as int) {
                Some(n) => res matches Ok(r) && r == n && final(self)@ == Seq::<u8>::empty(),
                None => res == Err::<i32, Error>(Error::ExpectedInteger) && final(self)@ == old(
                    self,
                )@,
            },
    {
        match self.parse_int(-2147483648, 2147483647) {
            Ok(n) => Ok(n as i32),
            Err(e) => Err(e),
        }
    }

    /// Reads a decimal integer of 64 bits.
    pub fn deserialize_i64(&mut self) -> (res: Result<i64, Error>)
        ensures
            final(self).version() == old(self).version(),
            match parse_integer(old(self)@, true, i64::MIN as int, i64::MAX as int) {
                Some(n) => res matches Ok(r) && r == n && final(self)@ == Seq::<u8>::empty(),
                None => res == Err::<i64, Error>(Error::ExpectedInteger) && final(self)@ == old(
                    self,
                )@,
            },
    {
        self.parse_int(i64::MIN, i64::MAX)
    }

    /// Reads an unsigned decimal integer of 8 bits.
    pub fn deserialize_u8(&mut self) -> (res: Result<u8, Error>)
        ensures
            final(self).version() == old(self).version(),
            match parse_integer(old(self)@, false, 0, u8::MAX as int) {
                Some(n) => res matches Ok(r) && r == n && final(self)@ == Seq::<u8>::empty(),
                None => res == Err::<u8, Error>(Error::ExpectedInteger) && final(self)@ == old(
                    self,
                )@,
            },
    {
        match self.parse_uint(255) {
            Ok(n) => Ok(n as u8),
            Err(e) => Err(e),
        }
    }

    /// Reads an unsigned decimal integer of 16 bits.
    pub fn deserialize_u16(&mut self) -> (res: Result<u16, Error>)
        ensures
            final(self).version() == old(self).version(),
            match parse_integer(old(self)@, false, 0, u16::MAX as int) {
                Some(n) => res matches Ok(r) && r == n && final(self)@ == Seq::<u8>::empty(),
                None => res == Err::<u16, Error>(Error::ExpectedInteger) && final(self)@ == old(
                    self,
                )@,
            },
    {
        match self.parse_uint(65535) {
            Ok(n) => Ok(n as u16),
            Err(e) => Err(e),
        }
    }

    /// Reads an unsigned decimal integer of 32 bits.
    pub fn deserialize_u32(&mut self) -> (res: Result<u32, Error>)
        ensures
            final(self).version() == old(self).version(),
            match parse_integer(old(self)@, false, 0, u32::MAX as int) {
                Some(n) => res matches Ok(r) && r == n && final(self)@ == Seq::<u8>::empty(),
                None => res == Err::<u32, Error>(Error::ExpectedInteger) && final(self)@ == old(
                    self,
                )@,
            },
    {
        match self.parse_uint(4294967295) {
            Ok(n) => Ok(n as u32),
            Err(e) => Err(e),
        }
    }

    /// Reads an unsigned decimal integer of 64 bits.
    pub fn deserialize_u64(&mut self) -> (res: Result<u64, Error>)
        ensures
            final(self).version() == old(self).version(),
            match parse_integer(old(self)@, false, 0, u64::MAX as int) {
                Some(n) => res matches Ok(r) && r == n && final(self)@ == Seq::<u8>::empty(),
                None => res == Err::<u64, Error>(Error::ExpectedInteger) && final(self)@ == old(
                    self,
                )@,
            },
    {
        self.parse_uint(u64::MAX)
    }

    /// Reads the input as UTF-8 text.
    pub fn deserialize_str(&mut self) -> (res: Result<String, Error>)
        ensures
            final(self).version() == old(self).version(),
            res is Ok <==> valid_utf8(old(self)@),
            res matches Ok(s) ==> encode_utf8(s@) == old(self)@ && final(self)@ == Seq::<
                u8,
            >::empty(),
            res matches Err(e) ==> e == Error::ExpectedUtf8 && final(self)@ == old(self)@,
    {
        let text = match utf8_text(shared_slice(&self.input)) {
            Ok(s) => s.to_owned(),
            Err(_) => {
                return Err(Error::ExpectedUtf8);
            },
        };
        shared_clear(&mut self.input);
        Ok(text)
    }

    /// Reads the input as it is.
    pub fn deserialize_bytes(&mut self) -> (res: Result<Vec<u8>, Error>)
        ensures
            final(self).version() == old(self).version(),
            res matches Ok(bytes) && bytes@ == old(self)@,
            final(self)@ == Seq::<u8>::empty(),
    {
        let bytes = slice_to_vec(shared_slice(&self.input));
        shared_clear(&mut self.input);
        Ok(bytes)
    }

    /// Reads the input as UTF-8 text of exactly one character.
    pub fn deserialize_char(&mut self) -> (res: Result<char, Error>)
        ensures
            final(self).version() == old(self).version(),
            !valid_utf8(old(self)@) ==> res == Err::<char, Error>(Error::ExpectedUtf8),
            valid_utf8(old(self)@) && decode_utf8(old(self)@).len() != 1 ==> res == Err::<
                char,
                Error,
            >(Error::ExpectedChar),
            valid_utf8(old(self)@) && decode_utf8(old(self)@).len() == 1 ==> res == Ok::<
                char,
                Error,
            >(decode_utf8(old(self)@)[0]),
            final(self)@ == (if res is Ok {
                Seq::<u8>::empty()
            } else {
                old(self)@
            }),
    {
        let c = match utf8_text(shared_slice(&self.input)) {
            Ok(s) => {
                proof {
                    encode_utf8_decode_utf8(s@);
                }
                if s.unicode_len() != 1 {
                    return Err(Error::ExpectedChar);
                }
                s.get_char(0)
            },
            Err(_) => {
                return Err(Error::ExpectedUtf8);
            },
        };
        shared_clear(&mut self.input);
        Ok(c)
    }

    /// Reads a record of byte strings.
    pub fn deserialize_box(&mut self) -> (res: Result<Vec<(Vec<u8>, Vec<u8>)>, Error>)
        ensures
            final(self).version() == old(self).version(),
            (
                match res {
                    Ok(b) => Ok(box_view(b)),
                    Err(e) => Err(e),
                },
                final(self)@,
            ) == box_step(old(self).version(), old(self)@, Seq::empty()),
    {
        let mut acc: Vec<(Vec<u8>, Vec<u8>)> = Vec::new();
        let ghost v = self.version;
        proof {
            assert(box_view(acc) =~= Seq::empty());
        }
        loop
            invariant
                v == self.version,
                v == old(self).version,
                box_step(v, self@, box_view(acc)) == box_step(v, old(self)@, Seq::empty()),
            decreases self@.len(),
        {
            let ghost input = self@;
            let ghost before = box_view(acc);
            let key = match self.next_key() {
                Ok(Some(mut sub)) => match sub.deserialize_bytes() {
                    Ok(bytes) => bytes,
                    Err(e) => {
                        return Err(e);
                    },
                },
                Ok(None) => {
                    return Ok(acc);
                },
                Err(e) => {
                    return Err(e);
                },
            };
            proof {
                lemma_value_step_shrinks(v, self@);
            }
            let value = match self.next_value() {
                Ok(mut sub) => match sub.deserialize_bytes() {
                    Ok(bytes) => bytes,
                    Err(e) => {
                        return Err(e);
                    },
                },
                Err(e) => {
                    return Err(e);
                },
            };
            acc.push((key, value));
            proof {
                assert(box_view(acc) =~= before.push((key@, value@)));
            }
        }
    }
}

/// Reads a record of byte strings that takes up the whole input.
pub fn from_bytes(version: Version, input: Bytes) -> (res: Result<Vec<(Vec<u8>, Vec<u8>)>, Error>)
    ensures
        match box_step(version, shared_bytes(input), Seq::empty()) {
            (Ok(b), rest) => if rest.len() == 0 {
                res matches Ok(r) && box_view(r) == b
            } else {
                res == Err::<Vec<(Vec<u8>, Vec<u8>)>, Error>(Error::RemainingBytes)
            },
            (Err(e), _) => res == Err::<Vec<(Vec<u8>, Vec<u8>)>, Error>(e),
        },
{
    let mut deserializer = Deserializer::from_bytes(input, version);
    let t = match deserializer.deserialize_box() {
        Ok(t) => t,
        Err(e) => {
            return Err(e);
        },
    };
    match deserializer.finish() {
        Ok(()) => Ok(t),
        Err(e) => Err(e),
    }
}

} // verus!
