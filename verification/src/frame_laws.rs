//! What holds of the boxes that this library builds: the classifier reads
//! each of them as what it was built to be.

use vstd::prelude::*;
use crate::codecs::BoxSpec;
use crate::error::Error;
use crate::frame::{box_get, box_without, classify, reserved_bytes, FrameModel, Reserved};
use crate::types::{error_box, ok_box, request_box};

verus! {

/// A pair in front of a box is found only where the box has none under that
/// key.
pub proof fn lemma_get_behind(p: (Seq<u8>, Seq<u8>), b: BoxSpec, key: Seq<u8>)
    ensures
        box_get(seq![p] + b, key) == (match box_get(b, key) {
            Some(value) => Some(value),
            None => if p.0 == key {
                Some(p.1)
            } else {
                None
            },
        }),
    decreases b.len(),
{
    let whole = seq![p] + b;
    if b.len() == 0 {
        assert(whole.drop_last() =~= Seq::empty());
        assert(whole.last() == p);
        assert(box_get(whole.drop_last(), key) is None);
        assert(box_get(b, key) is None);
    } else {
        assert(whole.len() > 0);
        assert(whole.last() == b.last());
        assert(whole.drop_last() =~= seq![p] + b.drop_last());
        lemma_get_behind(p, b.drop_last(), key);
    }
}

/// Taking a key out of a box with a pair in front takes it out of both.
pub proof fn lemma_without_behind(p: (Seq<u8>, Seq<u8>), b: BoxSpec, key: Seq<u8>)
    ensures
        box_without(seq![p] + b, key) == (if p.0 == key {
            box_without(b, key)
        } else {
            seq![p] + box_without(b, key)
        }),
    decreases b.len(),
{
    let whole = seq![p] + b;
    if b.len() == 0 {
        assert(whole.drop_last() =~= Seq::empty());
        assert(whole.last() == p);
        assert(box_without(whole.drop_last(), key) =~= Seq::empty());
        if p.0 != key {
            assert(box_without(whole, key) =~= seq![p] + box_without(b, key));
        }
    } else {
        assert(whole.last() == b.last());
        assert(whole.drop_last() =~= seq![p] + b.drop_last());
        lemma_without_behind(p, b.drop_last(), key);
        if b.last().0 != key {
            if p.0 == key {
            } else {
                assert((seq![p] + box_without(b.drop_last(), key)).push(b.last()) =~= seq![p]
                    + box_without(b, key));
            }
        }
    }
}

/// Taking out a key that a box does not hold leaves the box as it is.
pub proof fn lemma_without_absent(b: BoxSpec, key: Seq<u8>)
    requires
        box_get(b, key) is None,
    ensures
        box_without(b, key) == b,
    decreases b.len(),
{
    if b.len() > 0 {
        lemma_without_absent(b.drop_last(), key);
        assert(b.drop_last().push(b.last()) =~= b);
    }
}

/// The reserved keys differ from one another.
pub proof fn lemma_reserved_differ(a: Reserved, b: Reserved)
    requires
        a != b,
    ensures
        reserved_bytes(a) != reserved_bytes(b),
{
    assert(reserved_bytes(a).len() != reserved_bytes(b).len());
}

/// Whether a payload keeps clear of the keys by which a frame is classified.
pub open spec fn plain_fields(fields: BoxSpec) -> bool {
    &&& box_get(fields, reserved_bytes(Reserved::Command)) is None
    &&& box_get(fields, reserved_bytes(Reserved::Ask)) is None
    &&& box_get(fields, reserved_bytes(Reserved::Answer)) is None
    &&& box_get(fields, reserved_bytes(Reserved::Error)) is None
}

/// A request is classified as the request that it is, with its tag where
/// it has one and with its payload.
pub proof fn lemma_request_classified(tag: Option<Seq<u8>>, command: Seq<u8>, fields: BoxSpec)
    requires
        plain_fields(fields),
    ensures
        classify(request_box(tag, command, fields)) == Ok::<FrameModel, Error>(
            FrameModel::Request { command, tag, fields },
        ),
{
    let k_command = reserved_bytes(Reserved::Command);
    let k_ask = reserved_bytes(Reserved::Ask);
    let k_answer = reserved_bytes(Reserved::Answer);
    let k_error = reserved_bytes(Reserved::Error);
    lemma_reserved_differ(Reserved::Command, Reserved::Ask);
    lemma_reserved_differ(Reserved::Command, Reserved::Answer);
    lemma_reserved_differ(Reserved::Command, Reserved::Error);
    lemma_reserved_differ(Reserved::Ask, Reserved::Answer);
    lemma_reserved_differ(Reserved::Ask, Reserved::Error);
    let p = (k_command, command);
    let inner = seq![p] + fields;
    lemma_get_behind(p, fields, k_command);
    lemma_get_behind(p, fields, k_ask);
    lemma_get_behind(p, fields, k_answer);
    lemma_get_behind(p, fields, k_error);
    lemma_without_behind(p, fields, k_command);
    lemma_without_absent(fields, k_command);
    lemma_without_absent(fields, k_ask);
    match tag {
        Some(t) => {
            let q = (k_ask, t);
            lemma_get_behind(q, inner, k_command);
            lemma_get_behind(q, inner, k_ask);
            lemma_get_behind(q, inner, k_answer);
            lemma_get_behind(q, inner, k_error);
            lemma_without_behind(q, inner, k_command);
            lemma_without_behind(q, fields, k_ask);
        },
        None => {},
    }
}

/// A response is classified as the response that it is.
pub proof fn lemma_response_classified(tag: Seq<u8>, fields: BoxSpec)
    requires
        plain_fields(fields),
    ensures
        classify(ok_box(tag, fields)) == Ok::<FrameModel, Error>(
            FrameModel::OkResponse { tag, fields },
        ),
{
    let k_answer = reserved_bytes(Reserved::Answer);
    lemma_reserved_differ(Reserved::Answer, Reserved::Command);
    lemma_reserved_differ(Reserved::Answer, Reserved::Error);
    let p = (k_answer, tag);
    lemma_get_behind(p, fields, reserved_bytes(Reserved::Command));
    lemma_get_behind(p, fields, k_answer);
    lemma_get_behind(p, fields, reserved_bytes(Reserved::Error));
    lemma_without_behind(p, fields, k_answer);
    lemma_without_absent(fields, k_answer);
}

/// An error response is classified as the error response that it is.
pub proof fn lemma_error_classified(tag: Seq<u8>, code: Seq<u8>, description: Seq<u8>)
    ensures
        classify(error_box(tag, code, description)) == Ok::<FrameModel, Error>(
            FrameModel::ErrorResponse { tag, code, description },
        ),
{
    lemma_reserved_differ(Reserved::Error, Reserved::Command);
    lemma_reserved_differ(Reserved::Error, Reserved::Answer);
    lemma_reserved_differ(Reserved::Error, Reserved::ErrorCode);
    lemma_reserved_differ(Reserved::Error, Reserved::ErrorDescription);
    lemma_reserved_differ(Reserved::ErrorCode, Reserved::Command);
    lemma_reserved_differ(Reserved::ErrorCode, Reserved::Answer);
    lemma_reserved_differ(Reserved::ErrorCode, Reserved::ErrorDescription);
    lemma_reserved_differ(Reserved::ErrorDescription, Reserved::Command);
    lemma_reserved_differ(Reserved::ErrorDescription, Reserved::Answer);
    let first = (reserved_bytes(Reserved::Error), tag);
    let second = (reserved_bytes(Reserved::ErrorCode), code);
    let third = (reserved_bytes(Reserved::ErrorDescription), description);
    let none = Seq::<(Seq<u8>, Seq<u8>)>::empty();
    let last = seq![third] + none;
    let tail = seq![second] + last;
    let whole = seq![first] + tail;
    assert(whole =~= error_box(tag, code, description));
    assert forall|key: Seq<u8>|
        box_get(whole, key) == (if key == third.0 {
            Some(third.1)
        } else if key == second.0 {
            Some(second.1)
        } else if key == first.0 {
            Some(first.1)
        } else {
            None
        }) by {
        lemma_get_behind(third, none, key);
        lemma_get_behind(second, last, key);
        lemma_get_behind(first, tail, key);
    }
}

} // verus!
