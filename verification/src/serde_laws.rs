//! What holds of the value serializer and deserializer together: what one
//! writes, the other reads back.

use vstd::prelude::*;
use crate::codec_laws::lemma_segment_front;
use crate::codecs::{
    body_wire, frame_wire, head_len, pair_fault, segment, valid_box, value_wire, BoxSpec, Version,
    AMP_VALUE_LIMIT, LENGTH_SIZE,
};
use crate::de::{box_step, key_step, list_step, value_step};
use crate::types::{frames_wire, Error};

verus! {

/// A key of 1 to 255 bytes in front of other bytes is read back.
pub proof fn lemma_key_step_segment(key: Seq<u8>, later: Seq<u8>)
    requires
        1 <= key.len() <= 255,
    ensures
        key_step(segment(key) + later) == (Ok::<Option<Seq<u8>>, Error>(Some(key)), later),
{
    let input = segment(key) + later;
    lemma_segment_front(key, later);
    let n = head_len(input);
    assert(input.skip(LENGTH_SIZE as int).take(n) =~= input.subrange(
        LENGTH_SIZE as int,
        LENGTH_SIZE + n,
    ));
    assert(input.skip(LENGTH_SIZE as int).skip(n) =~= input.skip(LENGTH_SIZE + n));
}

/// The empty key ends a record.
pub proof fn lemma_key_step_end(later: Seq<u8>)
    ensures
        key_step(seq![0u8, 0u8] + later) == (Ok::<Option<Seq<u8>>, Error>(None), later),
{
    let input = seq![0u8, 0u8] + later;
    assert(input.skip(LENGTH_SIZE as int) =~= later);
}

/// A value in front of other bytes is read back, chained or not.
pub proof fn lemma_value_step_wire(v: Version, value: Seq<u8>, later: Seq<u8>)
    requires
        v == Version::V1 ==> value.len() <= AMP_VALUE_LIMIT,
    ensures
        value_step(v, value_wire(v, value) + later) == (Ok::<Seq<u8>, Error>(value), later),
    decreases value.len(),
{
    if v == Version::V2 && value.len() >= AMP_VALUE_LIMIT {
        let head = value.take(AMP_VALUE_LIMIT as int);
        let tail = value.skip(AMP_VALUE_LIMIT as int);
        let behind = value_wire(v, tail) + later;
        let input = segment(head) + behind;
        assert(value_wire(v, value) + later =~= input);
        lemma_segment_front(head, behind);
        let n = head_len(input);
        assert(input.skip(LENGTH_SIZE as int).take(n) =~= head);
        assert(input.skip(LENGTH_SIZE as int).skip(n) =~= behind);
        lemma_value_step_wire(v, tail, later);
        assert(head + tail =~= value);
    } else {
        let input = segment(value) + later;
        lemma_segment_front(value, later);
        let n = head_len(input);
        assert(input.skip(LENGTH_SIZE as int).take(n) =~= value);
        assert(input.skip(LENGTH_SIZE as int).skip(n) =~= later);
    }
}

#[verifier::rlimit(50)]
proof fn lemma_box_step_body(v: Version, b: BoxSpec, later: Seq<u8>, acc: BoxSpec)
    requires
        valid_box(v, b),
    ensures
        box_step(v, body_wire(v, b) + (seq![0u8, 0u8] + later), acc) == (
            Ok::<BoxSpec, Error>(acc + b),
            later,
        ),
    decreases b.len(),
{
    let closing = seq![0u8, 0u8] + later;
    if b.len() == 0 {
        assert(body_wire(v, b) + closing =~= closing);
        lemma_key_step_end(later);
        assert(acc + b =~= acc);
    } else {
        let p = b[0];
        let behind = body_wire(v, b.skip(1)) + closing;
        let keyed = value_wire(v, p.1) + behind;
        let input = body_wire(v, b) + closing;
        assert(pair_fault(v, b[0]) is None);
        assert(1 <= p.0.len() <= 255);
        assert(v == Version::V1 ==> p.1.len() <= AMP_VALUE_LIMIT);
        assert(body_wire(v, b) == segment(p.0) + value_wire(v, p.1) + body_wire(v, b.skip(1)));
        assert(input =~= segment(p.0) + keyed);
        lemma_key_step_segment(p.0, keyed);
        assert(key_step(input) == (Ok::<Option<Seq<u8>>, Error>(Some(p.0)), keyed));
        lemma_value_step_wire(v, p.1, behind);
        assert(value_step(v, keyed) == (Ok::<Seq<u8>, Error>(p.1), behind));
        assert(box_step(v, input, acc) == box_step(v, behind, acc.push(p)));
        assert forall|i: int| 0 <= i < b.skip(1).len() implies (#[trigger] pair_fault(
            v,
            b.skip(1)[i],
        )) is None by {
            assert(b.skip(1)[i] == b[i + 1]);
        }
        lemma_box_step_body(v, b.skip(1), later, acc.push(p));
        assert(acc.push(p) + b.skip(1) =~= acc + b);
    }
}

/// The deserializer reads back what the serializer wrote: the frame of a
/// valid box, followed by any other bytes, is read as that box, and those bytes
/// are left.
pub proof fn lemma_box_read_back(v: Version, b: BoxSpec, later: Seq<u8>)
    requires
        valid_box(v, b),
    ensures
        box_step(v, frame_wire(v, b) + later, Seq::empty()) == (Ok::<BoxSpec, Error>(b), later),
{
    assert(frame_wire(v, b) + later =~= body_wire(v, b) + (seq![0u8, 0u8] + later));
    lemma_box_step_body(v, b, later, Seq::empty());
    assert(Seq::<(Seq<u8>, Seq<u8>)>::empty() + b =~= b);
}

/// The frames of a list start with the frame of its first record.
pub proof fn lemma_frames_wire_front(v: Version, items: Seq<BoxSpec>)
    requires
        items.len() > 0,
    ensures
        frames_wire(v, items) == frame_wire(v, items[0]) + frames_wire(v, items.skip(1)),
    decreases items.len(),
{
    if items.len() == 1 {
        assert(items.drop_last() =~= Seq::empty());
        assert(items.skip(1) =~= Seq::empty());
        assert(items.last() == items[0]);
        assert(frames_wire(v, items.drop_last()) =~= Seq::<u8>::empty());
        assert(frames_wire(v, items.skip(1)) =~= Seq::<u8>::empty());
        assert(frames_wire(v, items) =~= frame_wire(v, items[0]));
        assert(frame_wire(v, items[0]) + frames_wire(v, items.skip(1)) =~= frame_wire(
            v,
            items[0],
        ));
    } else {
        lemma_frames_wire_front(v, items.drop_last());
        assert(items.drop_last().skip(1) =~= items.skip(1).drop_last());
        assert(items.skip(1).last() == items.last());
        assert(items.drop_last()[0] == items[0]);
        assert(frames_wire(v, items) =~= frame_wire(v, items[0]) + frames_wire(v, items.skip(1)));
    }
}

proof fn lemma_list_step_frames(v: Version, items: Seq<BoxSpec>, acc: Seq<BoxSpec>)
    requires
        forall|i: int| 0 <= i < items.len() ==> valid_box(v, #[trigger] items[i]),
    ensures
        list_step(v, frames_wire(v, items), acc) == (
            Ok::<Seq<BoxSpec>, Error>(acc + items),
            Seq::<u8>::empty(),
        ),
    decreases items.len(),
{
    if items.len() == 0 {
        assert(acc + items =~= acc);
    } else {
        let behind = frames_wire(v, items.skip(1));
        lemma_frames_wire_front(v, items);
        assert(valid_box(v, items[0]));
        lemma_box_read_back(v, items[0], behind);
        assert(frame_wire(v, items[0]).len() >= 2);
        assert forall|i: int| 0 <= i < items.skip(1).len() implies valid_box(
            v,
            #[trigger] items.skip(1)[i],
        ) by {
            assert(items.skip(1)[i] == items[i + 1]);
        }
        lemma_list_step_frames(v, items.skip(1), acc.push(items[0]));
        assert(acc.push(items[0]) + items.skip(1) =~= acc + items);
    }
}

/// A list of records is read back as it was written.
pub proof fn lemma_list_read_back(v: Version, items: Seq<BoxSpec>)
    requires
        forall|i: int| 0 <= i < items.len() ==> valid_box(v, #[trigger] items[i]),
    ensures
        list_step(v, frames_wire(v, items), Seq::empty()) == (
            Ok::<Seq<BoxSpec>, Error>(items),
            Seq::<u8>::empty(),
        ),
{
    lemma_list_step_frames(v, items, Seq::empty());
    assert(Seq::<BoxSpec>::empty() + items =~= items);
}

} // verus!
