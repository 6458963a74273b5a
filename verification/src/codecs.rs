//! The AMP frame codec: length-prefixed key/value segments, closed by an
//! empty segment.

use vstd::prelude::*;
use crate::buffer::{
    be16, buffer_advance, buffer_byte, buffer_bytes, buffer_extend, buffer_len, buffer_put_u16,
    buffer_split_to,
};
use bytes::BytesMut;

verus! {

/// The most bytes that a key may have.
pub const AMP_KEY_LIMIT: usize = 0xff;
/// The most bytes that one segment may carry.
pub const AMP_VALUE_LIMIT: usize = 0xffff;
/// The bytes of a length on the wire.
pub const LENGTH_SIZE: usize = 2;

/// The wire variant: `V1` caps a value at 65535 bytes, `V2` chains segments
/// of exactly 65535 bytes to carry longer ones.
#[derive(Clone, Copy, Debug, PartialEq, Eq, Structural)]
pub enum Version {
    V1,
    V2,
}

/// What the codec refuses.
#[derive(Debug)]
pub enum CodecError {
    IO(std::io::Error),
    KeyTooLong,
    EmptyKey,
    ValueTooLong,
    /// The stream ended inside a frame.
    BadLength,
}

/// A box as the contracts see it: pairs of key and value, in order.
pub type BoxSpec = Seq<(Seq<u8>, Seq<u8>)>;

/// The pairs of a box as byte strings.
pub open spec fn box_view(b: Vec<(Vec<u8>, Vec<u8>)>) -> BoxSpec {
    Seq::new(b@.len(), |i: int| (b@[i].0@, b@[i].1@))
}

/// One segment on the wire: a 16-bit length, then that many bytes.
pub open spec fn segment(s: Seq<u8>) -> Seq<u8> {
    be16(s.len() as int) + s
}

/// A value on the wire. In `V2` a value of 65535 bytes or more goes out as
/// full segments followed by a shorter, possibly empty, last one.
pub open spec fn value_wire(v: Version, value: Seq<u8>) -> Seq<u8>
    decreases value.len(),
{
    if v == Version::V2 && value.len() >= AMP_VALUE_LIMIT {
        segment(value.take(AMP_VALUE_LIMIT as int)) + value_wire(
            v,
            value.skip(AMP_VALUE_LIMIT as int),
        )
    } else {
        segment(value)
    }
}

/// A pair on the wire: the key as one segment, then the value.
pub open spec fn pair_wire(v: Version, p: (Seq<u8>, Seq<u8>)) -> Seq<u8> {
    segment(p.0) + value_wire(v, p.1)
}

/// The pairs of a box on the wire, without the closing empty segment.
pub open spec fn body_wire(v: Version, b: BoxSpec) -> Seq<u8>
    decreases b.len(),
{
    if b.len() == 0 {
        Seq::empty()
    } else {
        pair_wire(v, b[0]) + body_wire(v, b.skip(1))
    }
}

/// A whole frame on the wire.
pub open spec fn frame_wire(v: Version, b: BoxSpec) -> Seq<u8> {
    body_wire(v, b) + seq![0u8, 0u8]
}

/// What is wrong with a pair, if anything: the key is checked first.
pub open spec fn pair_fault(v: Version, p: (Seq<u8>, Seq<u8>)) -> Option<CodecError> {
    if p.0.len() == 0 {
        Some(CodecError::EmptyKey)
    } else if p.0.len() > AMP_KEY_LIMIT {
        Some(CodecError::KeyTooLong)
    } else if v == Version::V1 && p.1.len() > AMP_VALUE_LIMIT {
        Some(CodecError::ValueTooLong)
    } else {
        None
    }
}

/// Whether no pair of the box is faulty.
pub open spec fn valid_box(v: Version, b: BoxSpec) -> bool {
    forall|i: int| 0 <= i < b.len() ==> (#[trigger] pair_fault(v, b[i])) is None
}

/// The place of the first faulty pair, if there is one.
pub open spec fn first_faulty(v: Version, b: BoxSpec) -> Option<int>
    decreases b.len(),
{
    if b.len() == 0 {
        None
    } else if pair_fault(v, b[0]) is Some {
        Some(0)
    } else {
        match first_faulty(v, b.skip(1)) {
            Some(i) => Some(i + 1),
            None => None,
        }
    }
}

/// A box is valid exactly where no pair is the first faulty one.
pub proof fn lemma_valid_no_faulty(v: Version, b: BoxSpec)
    ensures
        valid_box(v, b) <==> first_faulty(v, b) is None,
    decreases b.len(),
{
    if b.len() > 0 {
        lemma_valid_no_faulty(v, b.skip(1));
        if valid_box(v, b) {
            assert(pair_fault(v, b[0]) is None);
            assert forall|i: int| 0 <= i < b.skip(1).len() implies (#[trigger] pair_fault(
                v,
                b.skip(1)[i],
            )) is None by {
                assert(b.skip(1)[i] == b[i + 1]);
            }
        }
        if first_faulty(v, b) is None {
            assert forall|i: int| 0 <= i < b.len() implies (#[trigger] pair_fault(v, b[i])) is None by {
                if i > 0 {
                    assert(b.skip(1)[i - 1] == b[i]);
                }
            }
        }
    }
}

/// A faulty pair behind valid ones is the first faulty one.
pub proof fn lemma_first_faulty_at(v: Version, b: BoxSpec, i: int)
    requires
        0 <= i < b.len(),
        valid_box(v, b.take(i)),
        pair_fault(v, b[i]) is Some,
    ensures
        first_faulty(v, b) == Some(i),
    decreases i,
{
    if i > 0 {
        assert(b.take(i)[0] == b[0]);
        assert(pair_fault(v, b.take(i)[0]) is None);
        assert(b.skip(1).take(i - 1) =~= b.take(i).skip(1));
        assert forall|j: int| 0 <= j < b.skip(1).take(i - 1).len() implies (#[trigger] pair_fault(
            v,
            b.skip(1).take(i - 1)[j],
        )) is None by {
            assert(b.skip(1).take(i - 1)[j] == b.take(i)[j + 1]);
        }
        assert(b.skip(1)[i - 1] == b[i]);
        lemma_first_faulty_at(v, b.skip(1), i - 1);
    }
}

/// A pair added behind a box goes on the wire behind it.
pub proof fn lemma_body_wire_push(v: Version, b: BoxSpec, p: (Seq<u8>, Seq<u8>))
    ensures
        body_wire(v, b.push(p)) == body_wire(v, b) + pair_wire(v, p),
    decreases b.len(),
{
    if b.len() == 0 {
        assert(b.push(p).skip(1) =~= Seq::empty());
        assert(body_wire(v, b.push(p).skip(1)) =~= Seq::empty());
        assert(body_wire(v, b.push(p)) =~= pair_wire(v, p));
        assert(body_wire(v, b) + pair_wire(v, p) =~= pair_wire(v, p));
    } else {
        lemma_body_wire_push(v, b.skip(1), p);
        assert(b.push(p).skip(1) =~= b.skip(1).push(p));
        assert(body_wire(v, b.push(p)) =~= body_wire(v, b) + pair_wire(v, p));
    }
}

/// The frame encoder.
pub struct Enc {
    pub version: Version,
}

/// Appends one segment to `dst`.
pub(crate) fn put_segment(s: &[u8], dst: &mut BytesMut)
    requires
        s@.len() <= AMP_VALUE_LIMIT,
    ensures
        buffer_bytes(*final(dst)) == buffer_bytes(*old(dst)) + segment(s@),
{
    let n: u16 = s.len() as u16;
    buffer_put_u16(dst, n);
    buffer_extend(dst, s);
    assert(buffer_bytes(*dst) =~= buffer_bytes(*old(dst)) + segment(s@));
}

/// Appends a value to `dst`, chained where the variant chains.
pub(crate) fn put_value(v: Version, value: &[u8], dst: &mut BytesMut)
    requires
        v == Version::V1 ==> value@.len() <= AMP_VALUE_LIMIT,
    ensures
        buffer_bytes(*final(dst)) == buffer_bytes(*old(dst)) + value_wire(v, value@),
{
    let mut pos: usize = 0;
    proof {
        assert(value@.skip(0) =~= value@);
    }
    if v == Version::V2 {
        while value.len() - pos >= AMP_VALUE_LIMIT
            invariant
                pos <= value@.len(),
                v == Version::V2,
                buffer_bytes(*dst) + value_wire(v, value@.skip(pos as int)) == buffer_bytes(
                    *old(dst),
                ) + value_wire(v, value@),
            decreases value@.len() - pos,
        {
            let ghost before = buffer_bytes(*dst);
            let ghost rest = value@.skip(pos as int);
            let chunk = &value[pos..pos + AMP_VALUE_LIMIT];
            put_segment(chunk, dst);
            proof {
                assert(chunk@ =~= rest.take(AMP_VALUE_LIMIT as int));
                assert(value@.skip(pos + AMP_VALUE_LIMIT) =~= rest.skip(AMP_VALUE_LIMIT as int));
                assert(before + (segment(chunk@) + value_wire(v, rest.skip(AMP_VALUE_LIMIT as int)))
                    =~= (before + segment(chunk@)) + value_wire(
                    v,
                    rest.skip(AMP_VALUE_LIMIT as int),
                ));
            }
            pos = pos + AMP_VALUE_LIMIT;
        }
    }
    let ghost before = buffer_bytes(*dst);
    let tail = &value[pos..value.len()];
    put_segment(tail, dst);
    proof {
        assert(tail@ =~= value@.skip(pos as int));
    }
}

impl Enc {
    /// An encoder for the `V1` variant.
    pub fn new() -> (enc: Enc)
        ensures
            enc.version == Version::V1,
    {
        Enc { version: Version::V1 }
    }

    /// An encoder for the given variant.
    pub fn with_version(version: Version) -> (enc: Enc)
        ensures
            enc.version == version,
    {
        Enc { version }
    }

    /// Appends the frame of `item` to `dst`. The pairs are checked and written
    /// in order: at the first faulty pair the call stops with that pair's
    /// fault, and `dst` has grown by the pairs before it.
    pub fn encode(&self, item: &Vec<(Vec<u8>, Vec<u8>)>, dst: &mut BytesMut) -> (res: Result<
        (),
        CodecError,
    >)
        ensures
            res is Ok <==> valid_box(self.version, box_view(*item)),
            res is Ok ==> buffer_bytes(*final(dst)) == buffer_bytes(*old(dst)) + frame_wire(
                self.version,
                box_view(*item),
            ),
            res matches Err(e) ==> first_faulty(self.version, box_view(*item)) matches Some(i)
                && pair_fault(self.version, box_view(*item)[i]) == Some(e) && buffer_bytes(
                *final(dst),
            ) == buffer_bytes(*old(dst)) + body_wire(self.version, box_view(*item).take(i)),
    {
        let ghost b = box_view(*item);
        let mut i: usize = 0;
        proof {
            assert(b.take(0) =~= Seq::empty());
            assert(buffer_bytes(*dst) + body_wire(self.version, b.take(0)) =~= buffer_bytes(*dst));
        }
        while i < item.len()
            invariant
                i <= item@.len(),
                b == box_view(*item),
                valid_box(self.version, b.take(i as int)),
                buffer_bytes(*dst) == buffer_bytes(*old(dst)) + body_wire(
                    self.version,
                    b.take(i as int),
                ),
            decreases item@.len() - i,
        {
            let key = &item[i].0;
            let value = &item[i].1;
            assert(b[i as int] == (key@, value@));
            if key.len() == 0 {
                assert(pair_fault(self.version, b[i as int]) == Some(CodecError::EmptyKey));
                proof {
                    lemma_first_faulty_at(self.version, b, i as int);
                }
                return Err(CodecError::EmptyKey);
            }
            if key.len() > AMP_KEY_LIMIT {
                assert(pair_fault(self.version, b[i as int]) == Some(CodecError::KeyTooLong));
                proof {
                    lemma_first_faulty_at(self.version, b, i as int);
                }
                return Err(CodecError::KeyTooLong);
            }
            if self.version == Version::V1 && value.len() > AMP_VALUE_LIMIT {
                assert(pair_fault(self.version, b[i as int]) == Some(CodecError::ValueTooLong));
                proof {
                    lemma_first_faulty_at(self.version, b, i as int);
                }
                return Err(CodecError::ValueTooLong);
            }
            assert(pair_fault(self.version, b[i as int]) is None);
            let ghost before = buffer_bytes(*dst);
            put_segment(key.as_slice(), dst);
            put_value(self.version, value.as_slice(), dst);
            proof {
                let p = (key@, value@);
                lemma_body_wire_push(self.version, b.take(i as int), p);
                assert(b.take(i as int).push(p) =~= b.take(i + 1));
                assert(buffer_bytes(*dst) =~= buffer_bytes(*old(dst)) + body_wire(
                    self.version,
                    b.take(i + 1),
                ));
                assert forall|j: int| 0 <= j < b.take(i + 1).len() implies (#[trigger] pair_fault(
                    self.version,
                    b.take(i + 1)[j],
                )) is None by {
                    if j < i {
                        assert(b.take(i as int)[j] == b.take(i + 1)[j]);
                    }
                }
            }
            i = i + 1;
        }
        buffer_put_u16(dst, 0);
        proof {
            assert(b.take(i as int) =~= b);
            assert(be16(0) =~= seq![0u8, 0u8]);
        }
        Ok(())
    }
}

/// Where the decoder stands between two segments.
#[derive(Clone, Copy, Debug, PartialEq, Eq, Structural)]
pub enum DecState {
    Key,
    Value,
    ValueCont,
}

/// The decoder as the contracts see it.
pub struct DecModel {
    pub state: DecState,
    pub key: Seq<u8>,
    pub value: Seq<u8>,
    pub frame: BoxSpec,
}

/// What one call of the decoder reports.
pub type DecodedSpec = Result<Option<BoxSpec>, CodecError>;

/// A decoder that has seen nothing of the current frame.
pub open spec fn fresh_model() -> DecModel {
    DecModel { state: DecState::Key, key: Seq::empty(), value: Seq::empty(), frame: Seq::empty() }
}

/// The length that the first two bytes of `input` announce.
pub open spec fn head_len(input: Seq<u8>) -> int {
    input[0] as int * 256 + input[1] as int
}

/// The decoder's state machine run over `input` until a frame is complete,
/// the input is faulty, or the next segment is not wholly there. It returns the
/// state reached, the input left, and the report. A segment is taken from the
/// input only when all of it is present.
pub open spec fn run(v: Version, m: DecModel, input: Seq<u8>) -> (DecModel, Seq<u8>, DecodedSpec)
    decreases input.len(),
{
    if input.len() < LENGTH_SIZE {
        (m, input, Ok(None))
    } else {
        let n = head_len(input);
        let seg = input.subrange(LENGTH_SIZE as int, LENGTH_SIZE + n);
        let rest = input.skip(LENGTH_SIZE + n);
        match m.state {
            DecState::Key => {
                if n == 0 {
                    (DecModel { frame: Seq::empty(), ..m }, rest, Ok(Some(m.frame)))
                } else if n > AMP_KEY_LIMIT {
                    (m, input, Err(CodecError::KeyTooLong))
                } else if input.len() < LENGTH_SIZE + n {
                    (m, input, Ok(None))
                } else {
                    run(v, DecModel { state: DecState::Value, key: seg, ..m }, rest)
                }
            },
            DecState::Value => {
                if input.len() < LENGTH_SIZE + n {
                    (m, input, Ok(None))
                } else if v == Version::V2 && n == AMP_VALUE_LIMIT {
                    run(v, DecModel { state: DecState::ValueCont, value: seg, ..m }, rest)
                } else {
                    run(
                        v,
                        DecModel {
                            state: DecState::Key,
                            key: Seq::empty(),
                            value: m.value,
                            frame: m.frame.push((m.key, seg)),
                        },
                        rest,
                    )
                }
            },
            DecState::ValueCont => {
                if input.len() < LENGTH_SIZE + n {
                    (m, input, Ok(None))
                } else if n == AMP_VALUE_LIMIT {
                    run(v, DecModel { value: m.value + seg, ..m }, rest)
                } else {
                    run(
                        v,
                        DecModel {
                            state: DecState::Key,
                            key: Seq::empty(),
                            value: Seq::empty(),
                            frame: m.frame.push((m.key, m.value + seg)),
                        },
                        rest,
                    )
                }
            },
        }
    }
}

/// The decoder's last run, on the bytes that were there when the stream
/// ended. Decoding is strict: a stream that ends inside a segment or inside a
/// frame is faulty.
pub open spec fn run_at_end(v: Version, m: DecModel, input: Seq<u8>) -> (
    DecModel,
    Seq<u8>,
    DecodedSpec,
) {
    let r = run(v, m, input);
    if r.2 == DecodedSpec::Ok(None) && !(r.1.len() == 0 && r.0.state == DecState::Key
        && r.0.frame.len() == 0) {
        (r.0, r.1, Err(CodecError::BadLength))
    } else {
        r
    }
}

/// What a call of the decoder reported, as byte strings.
pub open spec fn decoded_view(res: Result<Option<Vec<(Vec<u8>, Vec<u8>)>>, CodecError>)
    -> DecodedSpec {
    match res {
        Ok(None) => Ok(None),
        Ok(Some(frame)) => Ok(Some(box_view(frame))),
        Err(e) => Err(e),
    }
}

/// The resumable frame decoder.
#[derive(Debug, PartialEq)]
pub struct Dec {
    version: Version,
    state: DecState,
    key: Vec<u8>,
    value: Vec<u8>,
    frame: Vec<(Vec<u8>, Vec<u8>)>,
}

impl View for Dec {
    type V = DecModel;

    closed spec fn view(&self) -> DecModel {
        DecModel {
            state: self.state,
            key: self.key@,
            value: self.value@,
            frame: box_view(self.frame),
        }
    }
}

impl Dec {
    /// The variant that this decoder reads.
    pub closed spec fn version(&self) -> Version {
        self.version
    }

    /// A decoder for the `V1` variant.
    pub fn new() -> (dec: Dec)
        ensures
            dec@ == fresh_model(),
            dec.version() == Version::V1,
    {
        Dec::with_version(Version::V1)
    }

    /// A decoder for the given variant.
    pub fn with_version(version: Version) -> (dec: Dec)
        ensures
            dec@ == fresh_model(),
            dec.version() == version,
    {
        let dec = Dec {
            version,
            state: DecState::Key,
            key: Vec::new(),
            value: Vec::new(),
            frame: Vec::new(),
        };
        assert(box_view(dec.frame) =~= Seq::empty());
        dec
    }

    /// Decodes what is left when the stream has ended: a frame, or nothing
    /// where the stream ended between two frames; a stream that ended inside a
    /// frame is reported as `BadLength`.
    pub fn decode_eof(&mut self, buf: &mut BytesMut) -> (res: Result<
        Option<Vec<(Vec<u8>, Vec<u8>)>>,
        CodecError,
    >)
        ensures
            final(self).version() == old(self).version(),
            (final(self)@, buffer_bytes(*final(buf)), decoded_view(res)) == run_at_end(
                old(self).version(),
                old(self)@,
                buffer_bytes(*old(buf)),
            ),
    {
        match self.decode(buf) {
            Ok(None) => {
                if buffer_len(buf) == 0 && self.state == DecState::Key && self.frame.len() == 0 {
                    Ok(None)
                } else {
                    Err(CodecError::BadLength)
                }
            },
            other => other,
        }
    }

    /// Takes segments from the front of `buf` until a frame is complete
    /// (`Ok(Some(..))`), more bytes are needed (`Ok(None)`) or a key is
    /// announced as longer than 255 bytes (`Err`). State, buffer and report
    /// are those of `run`.
    pub fn decode(&mut self, buf: &mut BytesMut) -> (res: Result<
        Option<Vec<(Vec<u8>, Vec<u8>)>>,
        CodecError,
    >)
        ensures
            final(self).version() == old(self).version(),
            (final(self)@, buffer_bytes(*final(buf)), decoded_view(res)) == run(
                old(self).version(),
                old(self)@,
                buffer_bytes(*old(buf)),
            ),
    {
        loop
            invariant
                self.version == old(self).version,
                run(self.version, self@, buffer_bytes(*buf)) == run(
                    old(self).version,
                    old(self)@,
                    buffer_bytes(*old(buf)),
                ),
            decreases buffer_bytes(*buf).len(),
        {
            let ghost input = buffer_bytes(*buf);
            let ghost m = self@;
            if buffer_len(buf) < LENGTH_SIZE {
                return Ok(None);
            }
            let hi: usize = buffer_byte(buf, 0) as usize;
            let lo: usize = buffer_byte(buf, 1) as usize;
            let n: usize = hi * 256 + lo;
            assert(n == head_len(input));
            match self.state {
                DecState::Key => {
                    if n == 0 {
                        buffer_advance(buf, LENGTH_SIZE);
                        let mut frame: Vec<(Vec<u8>, Vec<u8>)> = Vec::new();
                        std::mem::swap(&mut self.frame, &mut frame);
                        assert(box_view(self.frame) =~= Seq::empty());
                        return Ok(Some(frame));
                    }
                    if n > AMP_KEY_LIMIT {
                        return Err(CodecError::KeyTooLong);
                    }
                },
                _ => {},
            }
            if buffer_len(buf) < LENGTH_SIZE + n {
                return Ok(None);
            }
            buffer_advance(buf, LENGTH_SIZE);
            let seg = buffer_split_to(buf, n);
            proof {
                assert(seg@ =~= input.subrange(LENGTH_SIZE as int, LENGTH_SIZE + n));
                assert(buffer_bytes(*buf) =~= input.skip(LENGTH_SIZE + n));
            }
            match self.state {
                DecState::Key => {
                    self.key = seg;
                    self.state = DecState::Value;
                },
                DecState::Value => {
                    if self.version == Version::V2 && n == AMP_VALUE_LIMIT {
                        self.value = seg;
                        self.state = DecState::ValueCont;
                    } else {
                        let mut key: Vec<u8> = Vec::new();
                        std::mem::swap(&mut self.key, &mut key);
                        self.frame.push((key, seg));
                        self.state = DecState::Key;
                        assert(box_view(self.frame) =~= m.frame.push((m.key, seg@)));
                    }
                },
                DecState::ValueCont => {
                    let mut value: Vec<u8> = Vec::new();
                    std::mem::swap(&mut self.value, &mut value);
                    let mut seg = seg;
                    value.append(&mut seg);
                    if n == AMP_VALUE_LIMIT {
                        self.value = value;
                    } else {
                        let mut key: Vec<u8> = Vec::new();
                        std::mem::swap(&mut self.key, &mut key);
                        self.frame.push((key, value));
                        self.state = DecState::Key;
                        assert(box_view(self.frame) =~= m.frame.push((m.key, value@)));
                    }
                },
            }
        }
    }
}

/// A list of byte strings as the contracts see it.
pub open spec fn list_view(items: Vec<Vec<u8>>) -> Seq<Seq<u8>> {
    Seq::new(items@.len(), |i: int| items@[i]@)
}

/// A list of byte strings on the wire: one segment each, nothing closing.
pub open spec fn list_wire(items: Seq<Seq<u8>>) -> Seq<u8>
    decreases items.len(),
{
    if items.len() == 0 {
        Seq::empty()
    } else {
        list_wire(items.drop_last()) + segment(items.last())
    }
}

/// The first items of a list take no more bytes than all of them.
pub proof fn lemma_list_wire_grows(items: Seq<Seq<u8>>, i: int)
    requires
        0 <= i <= items.len(),
    ensures
        list_wire(items.take(i)).len() <= list_wire(items).len(),
    decreases items.len() - i,
{
    if i < items.len() {
        lemma_list_wire_grows(items, i + 1);
        assert(items.take(i + 1).drop_last() =~= items.take(i));
    } else {
        assert(items.take(i) =~= items);
    }
}

/// Appends the items to `output`, each behind its length, as long as the
/// whole fits a single value of 65535 bytes. At the first item that would
/// pass that size the call stops with `ValueTooLong`, and `output` has grown by
/// the items before it.
pub fn encode_list(input: &Vec<Vec<u8>>, output: &mut BytesMut) -> (res: Result<(), CodecError>)
    ensures
        res is Ok <==> list_wire(list_view(*input)).len() <= AMP_VALUE_LIMIT,
        res is Ok ==> buffer_bytes(*final(output)) == buffer_bytes(*old(output)) + list_wire(
            list_view(*input),
        ),
        res matches Err(e) ==> e == CodecError::ValueTooLong && exists|i: int|
            0 <= i < input@.len() && list_wire(list_view(*input).take(i)).len() <= AMP_VALUE_LIMIT
                && list_wire(#[trigger] list_view(*input).take(i + 1)).len() > AMP_VALUE_LIMIT
                && buffer_bytes(*final(output)) == buffer_bytes(*old(output)) + list_wire(
                list_view(*input).take(i),
            ),
{
    let ghost items = list_view(*input);
    let mut length: usize = 0;
    let mut i: usize = 0;
    proof {
        assert(items.take(0) =~= Seq::empty());
        assert(buffer_bytes(*output) + list_wire(items.take(0)) =~= buffer_bytes(*output));
    }
    while i < input.len()
        invariant
            i <= input@.len(),
            items == list_view(*input),
            length == list_wire(items.take(i as int)).len(),
            length <= AMP_VALUE_LIMIT,
            buffer_bytes(*output) == buffer_bytes(*old(output)) + list_wire(items.take(i as int)),
        decreases input@.len() - i,
    {
        let item = &input[i];
        proof {
            assert(items.take(i + 1).drop_last() =~= items.take(i as int));
            assert(items.take(i + 1).last() == item@);
            lemma_list_wire_grows(items, i + 1);
        }
        if item.len() > AMP_VALUE_LIMIT {
            return Err(CodecError::ValueTooLong);
        }
        length = length + LENGTH_SIZE + item.len();
        if length > AMP_VALUE_LIMIT {
            return Err(CodecError::ValueTooLong);
        }
        put_segment(item.as_slice(), output);
        proof {
            assert(buffer_bytes(*output) =~= buffer_bytes(*old(output)) + list_wire(
                items.take(i + 1),
            ));
        }
        i = i + 1;
    }
    proof {
        assert(items.take(i as int) =~= items);
    }
    Ok(())
}

} // verus!
