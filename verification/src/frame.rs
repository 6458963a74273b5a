//! Boxes as received, and their classification into requests and responses
//! by the reserved keys.

use vstd::prelude::*;
use crate::codecs::{box_view, BoxSpec};
use crate::error::Error;

verus! {

/// A box: its pairs in the order in which they were decoded. Where a key
/// occurs more than once, its last value counts.
pub type RawFrame = Vec<(Vec<u8>, Vec<u8>)>;

/// The reserved keys.
#[derive(Clone, Copy, Debug, PartialEq, Eq, Structural)]
pub enum Reserved {
    Command,
    Ask,
    Answer,
    Error,
    ErrorCode,
    ErrorDescription,
}

/// The bytes of a reserved key: its ASCII name, with the leading underscore.
pub open spec fn reserved_bytes(r: Reserved) -> Seq<u8> {
    match r {
        // _command
        Reserved::Command => seq![0x5fu8, 0x63, 0x6f, 0x6d, 0x6d, 0x61, 0x6e, 0x64],
        // _ask
        Reserved::Ask => seq![0x5fu8, 0x61, 0x73, 0x6b],
        // _answer
        Reserved::Answer => seq![0x5fu8, 0x61, 0x6e, 0x73, 0x77, 0x65, 0x72],
        // _error
        Reserved::Error => seq![0x5fu8, 0x65, 0x72, 0x72, 0x6f, 0x72],
        // _error_code
        Reserved::ErrorCode => seq![
            0x5fu8,
            0x65,
            0x72,
            0x72,
            0x6f,
            0x72,
            0x5f,
            0x63,
            0x6f,
            0x64,
            0x65,
        ],
        // _error_description
        Reserved::ErrorDescription => seq![
            0x5fu8,
            0x65,
            0x72,
            0x72,
            0x6f,
            0x72,
            0x5f,
            0x64,
            0x65,
            0x73,
            0x63,
            0x72,
            0x69,
            0x70,
            0x74,
            0x69,
            0x6f,
            0x6e,
        ],
    }
}

/// The bytes of a reserved key.
pub fn reserved_key(r: Reserved) -> (key: Vec<u8>)
    ensures
        key@ == reserved_bytes(r),
{
    let key: Vec<u8> = match r {
        Reserved::Command => vec![0x5fu8, 0x63, 0x6f, 0x6d, 0x6d, 0x61, 0x6e, 0x64],
        Reserved::Ask => vec![0x5fu8, 0x61, 0x73, 0x6b],
        Reserved::Answer => vec![0x5fu8, 0x61, 0x6e, 0x73, 0x77, 0x65, 0x72],
        Reserved::Error => vec![0x5fu8, 0x65, 0x72, 0x72, 0x6f, 0x72],
        Reserved::ErrorCode => vec![
            0x5fu8,
            0x65,
            0x72,
            0x72,
            0x6f,
            0x72,
            0x5f,
            0x63,
            0x6f,
            0x64,
            0x65,
        ],
        Reserved::ErrorDescription => vec![
            0x5fu8,
            0x65,
            0x72,
            0x72,
            0x6f,
            0x72,
            0x5f,
            0x64,
            0x65,
            0x73,
            0x63,
            0x72,
            0x69,
            0x70,
            0x74,
            0x69,
            0x6f,
            0x6e,
        ],
    };
    assert(key@ =~= reserved_bytes(r));
    key
}

/// Whether two byte strings are the same.
pub fn bytes_eq(a: &[u8], b: &[u8]) -> (same: bool)
    ensures
        same == (a@ == b@),
{
    if a.len() != b.len() {
        return false;
    }
    let mut i: usize = 0;
    while i < a.len()
        invariant
            i <= a@.len(),
            a@.len() == b@.len(),
            a@.take(i as int) == b@.take(i as int),
        decreases a@.len() - i,
    {
        if a[i] != b[i] {
            return false;
        }
        assert(a@.take(i + 1) =~= a@.take(i as int).push(a@[i as int]));
        assert(b@.take(i + 1) =~= b@.take(i as int).push(b@[i as int]));
        i = i + 1;
    }
    assert(a@.take(i as int) =~= a@);
    assert(b@.take(i as int) =~= b@);
    true
}

/// The value under `key`: that of the last pair with this key.
pub open spec fn box_get(b: BoxSpec, key: Seq<u8>) -> Option<Seq<u8>>
    decreases b.len(),
{
    if b.len() == 0 {
        None
    } else if b.last().0 == key {
        Some(b.last().1)
    } else {
        box_get(b.drop_last(), key)
    }
}

/// The box without the pairs under `key`, the others in their order.
pub open spec fn box_without(b: BoxSpec, key: Seq<u8>) -> BoxSpec
    decreases b.len(),
{
    if b.len() == 0 {
        Seq::empty()
    } else if b.last().0 == key {
        box_without(b.drop_last(), key)
    } else {
        box_without(b.drop_last(), key).push(b.last())
    }
}

/// Removing one key leaves what is found under another.
pub proof fn lemma_get_without(b: BoxSpec, gone: Seq<u8>, key: Seq<u8>)
    requires
        gone != key,
    ensures
        box_get(box_without(b, gone), key) == box_get(b, key),
    decreases b.len(),
{
    if b.len() > 0 {
        lemma_get_without(b.drop_last(), gone, key);
        if b.last().0 != gone {
            let w = box_without(b.drop_last(), gone).push(b.last());
            assert(w.drop_last() =~= box_without(b.drop_last(), gone));
        }
    }
}

/// A removed key is no longer found.
pub proof fn lemma_without_removes(b: BoxSpec, key: Seq<u8>)
    ensures
        box_get(box_without(b, key), key) is None,
    decreases b.len(),
{
    if b.len() > 0 {
        lemma_without_removes(b.drop_last(), key);
        if b.last().0 != key {
            let w = box_without(b.drop_last(), key).push(b.last());
            assert(w.drop_last() =~= box_without(b.drop_last(), key));
        }
    }
}

/// Takes the value under `key` out of the box: the value, if there is one,
/// and the box without that key.
pub fn remove_key(frame: &RawFrame, key: &[u8]) -> (res: (Option<Vec<u8>>, RawFrame))
    ensures
        (match res.0 {
            Some(v) => Some(v@),
            None => None,
        }) == box_get(box_view(*frame), key@),
        box_view(res.1) == box_without(box_view(*frame), key@),
{
    let ghost b = box_view(*frame);
    let mut found: Option<Vec<u8>> = None;
    let mut rest: RawFrame = Vec::new();
    let mut i: usize = 0;
    proof {
        assert(b.take(0) =~= Seq::empty());
        assert(box_view(rest) =~= Seq::empty());
    }
    while i < frame.len()
        invariant
            i <= frame@.len(),
            b == box_view(*frame),
            (match found {
                Some(v) => Some(v@),
                None => None,
            }) == box_get(b.take(i as int), key@),
            box_view(rest) == box_without(b.take(i as int), key@),
        decreases frame@.len() - i,
    {
        let pair = &frame[i];
        proof {
            assert(b.take(i + 1).drop_last() =~= b.take(i as int));
            assert(b.take(i + 1).last() == (pair.0@, pair.1@));
        }
        if bytes_eq(pair.0.as_slice(), key) {
            found = Some(pair.1.clone());
        } else {
            let ghost before = box_view(rest);
            rest.push((pair.0.clone(), pair.1.clone()));
            assert(box_view(rest) =~= before.push((pair.0@, pair.1@)));
        }
        i = i + 1;
    }
    proof {
        assert(b.take(i as int) =~= b);
    }
    (found, rest)
}

/// Whether the box holds a pair under `key`.
pub fn has_key(frame: &RawFrame, key: &[u8]) -> (found: bool)
    ensures
        found == box_get(box_view(*frame), key@) is Some,
{
    let ghost b = box_view(*frame);
    let mut found = false;
    let mut i: usize = 0;
    proof {
        assert(b.take(0) =~= Seq::empty());
    }
    while i < frame.len()
        invariant
            i <= frame@.len(),
            b == box_view(*frame),
            found == box_get(b.take(i as int), key@) is Some,
        decreases frame@.len() - i,
    {
        proof {
            assert(b.take(i + 1).drop_last() =~= b.take(i as int));
            assert(b.take(i + 1).last() == (frame[i as int].0@, frame[i as int].1@));
        }
        if bytes_eq(frame[i].0.as_slice(), key) {
            found = true;
        }
        i = i + 1;
    }
    proof {
        assert(b.take(i as int) =~= b);
    }
    found
}

/// A classified frame.
#[allow(inconsistent_fields)]
#[derive(Clone, Debug, PartialEq, Eq)]
pub enum Frame {
    Request { command: Vec<u8>, tag: Option<Vec<u8>>, fields: RawFrame },
    OkResponse { tag: Vec<u8>, fields: RawFrame },
    ErrorResponse { tag: Vec<u8>, code: Vec<u8>, description: Vec<u8> },
}

/// A classified frame as the contracts see it.
#[allow(inconsistent_fields)]
pub enum FrameModel {
    Request { command: Seq<u8>, tag: Option<Seq<u8>>, fields: BoxSpec },
    OkResponse { tag: Seq<u8>, fields: BoxSpec },
    ErrorResponse { tag: Seq<u8>, code: Seq<u8>, description: Seq<u8> },
}

impl View for Frame {
    type V = FrameModel;

    open spec fn view(&self) -> FrameModel {
        match *self {
            Frame::Request { command, tag, fields } => FrameModel::Request {
                command: command@,
                tag: match tag {
                    Some(t) => Some(t@),
                    None => None,
                },
                fields: box_view(fields),
            },
            Frame::OkResponse { tag, fields } => FrameModel::OkResponse {
                tag: tag@,
                fields: box_view(fields),
            },
            Frame::ErrorResponse { tag, code, description } => FrameModel::ErrorResponse {
                tag: tag@,
                code: code@,
                description: description@,
            },
        }
    }
}

/// What a box is, by its reserved keys. A box with `_command` and neither
/// `_answer` nor `_error` is a request, tagged by `_ask` where it has one; one
/// with `_answer` alone of the three is a response; one with `_error` alone of
/// the three is an error response, which must carry both `_error_code` and
/// `_error_description`. Everything else is a confused frame. The fields of a
/// request or response are the box without the keys that were read.
pub open spec fn classify(b: BoxSpec) -> Result<FrameModel, Error> {
    let command = box_get(b, reserved_bytes(Reserved::Command));
    let answer = box_get(b, reserved_bytes(Reserved::Answer));
    let error = box_get(b, reserved_bytes(Reserved::Error));
    if command is Some {
        if answer is Some || error is Some {
            Err(Error::ConfusedFrame)
        } else {
            Ok(
                FrameModel::Request {
                    command: command->0,
                    tag: box_get(b, reserved_bytes(Reserved::Ask)),
                    fields: box_without(
                        box_without(b, reserved_bytes(Reserved::Command)),
                        reserved_bytes(Reserved::Ask),
                    ),
                },
            )
        }
    } else if answer is Some {
        if error is Some {
            Err(Error::ConfusedFrame)
        } else {
            Ok(
                FrameModel::OkResponse {
                    tag: answer->0,
                    fields: box_without(b, reserved_bytes(Reserved::Answer)),
                },
            )
        }
    } else if error is Some {
        let code = box_get(b, reserved_bytes(Reserved::ErrorCode));
        let description = box_get(b, reserved_bytes(Reserved::ErrorDescription));
        if code is Some && description is Some {
            Ok(FrameModel::ErrorResponse { tag: error->0, code: code->0, description: description->0 })
        } else {
            Err(Error::IncompleteErrorFrame)
        }
    } else {
        Err(Error::ConfusedFrame)
    }
}

/// What the classifier returned, as byte strings.
pub open spec fn classified_view(res: Result<Frame, Error>) -> Result<FrameModel, Error> {
    match res {
        Ok(frame) => Ok(frame@),
        Err(e) => Err(e),
    }
}

/// Classification never fails in any other way than these two.
pub proof fn lemma_classify_total(b: BoxSpec)
    ensures
        classify(b) is Ok || classify(b) == Err::<FrameModel, Error>(Error::ConfusedFrame)
            || classify(b) == Err::<FrameModel, Error>(Error::IncompleteErrorFrame),
{
}

impl Frame {
    /// Classifies a decoded box.
    pub fn try_from(frame: RawFrame) -> (res: Result<Frame, Error>)
        ensures
            classified_view(res) == classify(box_view(frame)),
    {
        let ghost b = box_view(frame);
        let command_key = reserved_key(Reserved::Command);
        let ask_key = reserved_key(Reserved::Ask);
        let answer_key = reserved_key(Reserved::Answer);
        let error_key = reserved_key(Reserved::Error);
        let has_command = has_key(&frame, command_key.as_slice());
        let has_answer = has_key(&frame, answer_key.as_slice());
        let has_error = has_key(&frame, error_key.as_slice());
        if has_command {
            if has_answer || has_error {
                return Err(Error::ConfusedFrame);
            }
            let (command, rest) = remove_key(&frame, command_key.as_slice());
            let (tag, fields) = remove_key(&rest, ask_key.as_slice());
            proof {
                lemma_get_without(b, command_key@, ask_key@);
            }
            match command {
                Some(command) => Ok(Frame::Request { command, tag, fields }),
                None => Err(Error::ConfusedFrame),
            }
        } else if has_answer {
            if has_error {
                return Err(Error::ConfusedFrame);
            }
            let (tag, fields) = remove_key(&frame, answer_key.as_slice());
            match tag {
                Some(tag) => Ok(Frame::OkResponse { tag, fields }),
                None => Err(Error::ConfusedFrame),
            }
        } else if has_error {
            let code_key = reserved_key(Reserved::ErrorCode);
            let description_key = reserved_key(Reserved::ErrorDescription);
            let (tag, _) = remove_key(&frame, error_key.as_slice());
            let (code, _) = remove_key(&frame, code_key.as_slice());
            let (description, _) = remove_key(&frame, description_key.as_slice());
            match (tag, code, description) {
                (Some(tag), Some(code), Some(description)) => Ok(
                    Frame::ErrorResponse { tag, code, description },
                ),
                _ => Err(Error::IncompleteErrorFrame),
            }
        } else {
            Err(Error::ConfusedFrame)
        }
    }
}

} // verus!
