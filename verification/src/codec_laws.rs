//! What holds of the codec as a whole: decoding undoes encoding, and the
//! number of segments that a chained value takes.

use vstd::prelude::*;
use crate::buffer::be16;
use crate::codecs::{
    body_wire, fresh_model, frame_wire, head_len, pair_fault, run, segment, valid_box,
    value_wire, BoxSpec, DecModel, DecodedSpec, DecState, Version, AMP_VALUE_LIMIT, LENGTH_SIZE,
};

verus! {

/// The number of segments that a value takes on the wire.
pub open spec fn segment_count(v: Version, value: Seq<u8>) -> nat
    decreases value.len(),
{
    if v == Version::V2 && value.len() >= AMP_VALUE_LIMIT {
        1 + segment_count(v, value.skip(AMP_VALUE_LIMIT as int))
    } else {
        1
    }
}

/// A segment in front of other bytes is read back as it was written.
pub proof fn lemma_segment_front(s: Seq<u8>, rest: Seq<u8>)
    requires
        s.len() <= AMP_VALUE_LIMIT,
    ensures
        (segment(s) + rest).len() == LENGTH_SIZE + s.len() + rest.len(),
        head_len(segment(s) + rest) == s.len(),
        (segment(s) + rest).subrange(LENGTH_SIZE as int, LENGTH_SIZE + s.len()) == s,
        (segment(s) + rest).skip(LENGTH_SIZE + s.len()) == rest,
{
    let n = s.len() as int;
    let input = segment(s) + rest;
    assert(be16(n).len() == 2);
    assert(input[0] == be16(n)[0]);
    assert(input[1] == be16(n)[1]);
    assert(input.subrange(LENGTH_SIZE as int, LENGTH_SIZE + s.len()) =~= s);
    assert(input.skip(LENGTH_SIZE + s.len()) =~= rest);
}

proof fn lemma_run_continued(m: DecModel, value: Seq<u8>, rest: Seq<u8>)
    requires
        m.state == DecState::ValueCont,
    ensures
        run(Version::V2, m, value_wire(Version::V2, value) + rest) == run(
            Version::V2,
            DecModel {
                state: DecState::Key,
                key: Seq::empty(),
                value: Seq::empty(),
                frame: m.frame.push((m.key, m.value + value)),
            },
            rest,
        ),
    decreases value.len(),
{
    let v = Version::V2;
    if value.len() >= AMP_VALUE_LIMIT {
        let head = value.take(AMP_VALUE_LIMIT as int);
        let tail = value.skip(AMP_VALUE_LIMIT as int);
        let later = value_wire(v, tail) + rest;
        assert(value_wire(v, value) + rest =~= segment(head) + later);
        lemma_segment_front(head, later);
        let next = DecModel { value: m.value + head, ..m };
        lemma_run_continued(next, tail, rest);
        assert(m.value + head + tail =~= m.value + value);
    } else {
        lemma_segment_front(value, rest);
    }
}

proof fn lemma_run_value(v: Version, m: DecModel, value: Seq<u8>, rest: Seq<u8>)
    requires
        m.state == DecState::Value,
        m.value == Seq::<u8>::empty(),
        v == Version::V1 ==> value.len() <= AMP_VALUE_LIMIT,
    ensures
        run(v, m, value_wire(v, value) + rest) == run(
            v,
            DecModel {
                state: DecState::Key,
                key: Seq::empty(),
                value: Seq::empty(),
                frame: m.frame.push((m.key, value)),
            },
            rest,
        ),
{
    if v == Version::V2 && value.len() >= AMP_VALUE_LIMIT {
        let head = value.take(AMP_VALUE_LIMIT as int);
        let tail = value.skip(AMP_VALUE_LIMIT as int);
        let later = value_wire(v, tail) + rest;
        assert(value_wire(v, value) + rest =~= segment(head) + later);
        lemma_segment_front(head, later);
        let next = DecModel { state: DecState::ValueCont, value: head, ..m };
        lemma_run_continued(next, tail, rest);
        assert(head + tail =~= value);
    } else {
        lemma_segment_front(value, rest);
    }
}

proof fn lemma_run_body(v: Version, m: DecModel, b: BoxSpec, rest: Seq<u8>)
    requires
        m.state == DecState::Key,
        m.key == Seq::<u8>::empty(),
        m.value == Seq::<u8>::empty(),
        valid_box(v, b),
    ensures
        run(v, m, body_wire(v, b) + rest) == run(v, DecModel { frame: m.frame + b, ..m }, rest),
    decreases b.len(),
{
    if b.len() == 0 {
        assert(body_wire(v, b) + rest =~= rest);
        assert(m.frame + b =~= m.frame);
    } else {
        let p = b[0];
        let later = body_wire(v, b.skip(1)) + rest;
        assert(pair_fault(v, b[0]) is None);
        assert(body_wire(v, b) + rest =~= segment(p.0) + (value_wire(v, p.1) + later));
        lemma_segment_front(p.0, value_wire(v, p.1) + later);
        let keyed = DecModel { state: DecState::Value, key: p.0, ..m };
        lemma_run_value(v, keyed, p.1, later);
        let next = DecModel { frame: m.frame.push(p), ..m };
        assert forall|i: int| 0 <= i < b.skip(1).len() implies (#[trigger] pair_fault(
            v,
            b.skip(1)[i],
        )) is None by {
            assert(b.skip(1)[i] == b[i + 1]);
        }
        lemma_run_body(v, next, b.skip(1), rest);
        assert(m.frame.push(p) + b.skip(1) =~= m.frame + b);
    }
}

/// Decoding undoes encoding: a fresh decoder that is given the frame of a
/// valid box, followed by any other bytes, reports that box, leaves those bytes
/// and is fresh again.
pub proof fn lemma_decode_encode(v: Version, b: BoxSpec, rest: Seq<u8>)
    requires
        valid_box(v, b),
    ensures
        run(v, fresh_model(), frame_wire(v, b) + rest) == (
            fresh_model(),
            rest,
            DecodedSpec::Ok(Some(b)),
        ),
{
    let m = fresh_model();
    let closing = seq![0u8, 0u8] + rest;
    assert(frame_wire(v, b) + rest =~= body_wire(v, b) + closing);
    lemma_run_body(v, m, b, closing);
    assert(m.frame + b =~= b);
    assert(closing.skip(2) =~= rest);
}

/// A chained value of `L` bytes takes `L / 65535 + 1` segments: the full ones
/// and a shorter last one, which is empty where `L` is a multiple of 65535.
/// Each segment costs two bytes of length.
pub proof fn lemma_chained_segments(value: Seq<u8>)
    ensures
        segment_count(Version::V2, value) == value.len() / (AMP_VALUE_LIMIT as nat) + 1,
        value_wire(Version::V2, value).len() == value.len() + LENGTH_SIZE * segment_count(
            Version::V2,
            value,
        ),
    decreases value.len(),
{
    if value.len() >= AMP_VALUE_LIMIT {
        lemma_chained_segments(value.skip(AMP_VALUE_LIMIT as int));
    }
}

/// An unchained value takes one segment.
pub proof fn lemma_plain_segment(value: Seq<u8>)
    ensures
        segment_count(Version::V1, value) == 1,
        value_wire(Version::V1, value) == segment(value),
{
}

} // verus!
