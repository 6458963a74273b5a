//! The errors of the value serializer and the records that every
//! connection exchanges.

use vstd::prelude::*;
use vstd::string::StrSliceExecFns;
use vstd::utf8::encode_utf8;
use crate::codecs::{box_view, frame_wire, valid_box, BoxSpec, Version};
use crate::de::{lemma_box_step_shrinks, list_step, Deserializer};
use crate::frame::{reserved_bytes, reserved_key, RawFrame, Reserved};
use crate::ser::{first_error, lemma_prefix_chain, lemma_prefix_of_sum, to_bytes, Serializer};

verus! {

/// What the value serializer and deserializer refuse.
#[derive(Debug)]
pub enum Error {
    // Serialization errors
    IO(std::io::Error),
    KeyTooLong,
    EmptyKey,
    ValueTooLong,
    // Deserialization errors
    ExpectedBool,
    RemainingBytes,
    ExpectedInteger,
    ExpectedFloat,
    ExpectedUtf8,
    ExpectedChar,
    ExpectedMapKey,
    ExpectedMapValue,
    ExpectedSeqLength,
    ExpectedSeqValue,
    Custom(String),
    Unsupported,
}

/// The box of a request: `_ask` where a reply is wanted, `_command`, then
/// the fields.
pub open spec fn request_box(tag: Option<Seq<u8>>, command: Seq<u8>, fields: BoxSpec) -> BoxSpec {
    let head = seq![(reserved_bytes(Reserved::Command), command)] + fields;
    match tag {
        Some(t) => seq![(reserved_bytes(Reserved::Ask), t)] + head,
        None => head,
    }
}

/// The box of a response: `_answer`, then the fields.
pub open spec fn ok_box(tag: Seq<u8>, fields: BoxSpec) -> BoxSpec {
    seq![(reserved_bytes(Reserved::Answer), tag)] + fields
}

/// The box of an error response: `_error`, `_error_code`,
/// `_error_description`.
pub open spec fn error_box(tag: Seq<u8>, code: Seq<u8>, description: Seq<u8>) -> BoxSpec {
    seq![
        (reserved_bytes(Reserved::Error), tag),
        (reserved_bytes(Reserved::ErrorCode), code),
        (reserved_bytes(Reserved::ErrorDescription), description),
    ]
}

/// A request: a command with its payload, tagged where an answer is wanted.
#[derive(Clone, Debug, PartialEq, Eq)]
pub struct Request {
    pub tag: Option<Vec<u8>>,
    pub command: String,
    pub fields: RawFrame,
}

impl Request {
    /// The box that goes on the wire, as byte strings.
    pub open spec fn spec_box(&self) -> BoxSpec {
        request_box(
            match self.tag {
                Some(t) => Some(t@),
                None => None,
            },
            encode_utf8(self.command@),
            box_view(self.fields),
        )
    }

    /// The box that goes on the wire.
    pub fn into_box(self) -> (b: RawFrame)
        ensures
            box_view(b) == self.spec_box(),
    {
        let mut b: RawFrame = Vec::new();
        if let Some(tag) = self.tag {
            b.push((reserved_key(Reserved::Ask), tag));
        }
        b.push((reserved_key(Reserved::Command), self.command.as_str().as_bytes_vec()));
        let mut fields = self.fields;
        b.append(&mut fields);
        assert(box_view(b) =~= self.spec_box());
        b
    }

    /// The frame that goes on the wire.
    pub fn into_bytes(self, version: Version) -> (res: Result<Vec<u8>, Error>)
        ensures
            res is Ok <==> valid_box(version, self.spec_box()),
            res matches Ok(bytes) ==> bytes@ == frame_wire(version, self.spec_box()),
            res matches Err(e) ==> first_error(version, self.spec_box()) == Some(e),
    {
        let b = self.into_box();
        to_bytes(version, &b)
    }
}

/// The answer to the request with this tag.
#[derive(Clone, Debug, PartialEq, Eq)]
pub struct OkResponse {
    pub tag: Vec<u8>,
    pub fields: RawFrame,
}

impl OkResponse {
    /// The box that goes on the wire, as byte strings.
    pub open spec fn spec_box(&self) -> BoxSpec {
        ok_box(self.tag@, box_view(self.fields))
    }

    /// The box that goes on the wire.
    pub fn into_box(self) -> (b: RawFrame)
        ensures
            box_view(b) == self.spec_box(),
    {
        let mut b: RawFrame = Vec::new();
        b.push((reserved_key(Reserved::Answer), self.tag));
        let mut fields = self.fields;
        b.append(&mut fields);
        assert(box_view(b) =~= self.spec_box());
        b
    }

    /// The frame that goes on the wire.
    pub fn into_bytes(self, version: Version) -> (res: Result<Vec<u8>, Error>)
        ensures
            res is Ok <==> valid_box(version, self.spec_box()),
            res matches Ok(bytes) ==> bytes@ == frame_wire(version, self.spec_box()),
            res matches Err(e) ==> first_error(version, self.spec_box()) == Some(e),
    {
        let b = self.into_box();
        to_bytes(version, &b)
    }
}

/// The refusal of the request with this tag.
#[derive(Clone, Debug, PartialEq, Eq)]
pub struct ErrorResponse {
    pub tag: Vec<u8>,
    pub code: String,
    pub description: String,
}

impl ErrorResponse {
    /// An error response to the request tagged `tag`; a missing code reads
    /// `UNKNOWN`, a missing description `Unknown Error`.
    pub fn new(tag: Vec<u8>, code: Option<String>, description: Option<String>) -> (response:
        ErrorResponse)
        ensures
            response.tag == tag,
            response.code@ == (match code {
                Some(c) => c@,
                None => "UNKNOWN"@,
            }),
            response.description@ == (match description {
                Some(d) => d@,
                None => "Unknown Error"@,
            }),
    {
        let code = match code {
            Some(c) => c,
            None => "UNKNOWN".to_owned(),
        };
        let description = match description {
            Some(d) => d,
            None => "Unknown Error".to_owned(),
        };
        ErrorResponse { tag, code, description }
    }

    /// The box that goes on the wire, as byte strings.
    pub open spec fn spec_box(&self) -> BoxSpec {
        error_box(
            self.tag@,
            encode_utf8(self.code@),
            encode_utf8(self.description@),
        )
    }

    /// The box that goes on the wire.
    pub fn into_box(self) -> (b: RawFrame)
        ensures
            box_view(b) == self.spec_box(),
    {
        let mut b: RawFrame = Vec::new();
        b.push((reserved_key(Reserved::Error), self.tag));
        b.push((reserved_key(Reserved::ErrorCode), self.code.as_str().as_bytes_vec()));
        b.push(
            (reserved_key(Reserved::ErrorDescription), self.description.as_str().as_bytes_vec()),
        );
        assert(box_view(b) =~= self.spec_box());
        b
    }

    /// The frame that goes on the wire.
    pub fn into_bytes(self, version: Version) -> (res: Result<Vec<u8>, Error>)
        ensures
            res is Ok <==> valid_box(version, self.spec_box()),
            res matches Ok(bytes) ==> bytes@ == frame_wire(version, self.spec_box()),
            res matches Err(e) ==> first_error(version, self.spec_box()) == Some(e),
    {
        let b = self.into_box();
        to_bytes(version, &b)
    }
}

/// What a request may be answered with.
#[derive(Clone, Debug, PartialEq, Eq)]
pub enum Response {
    Success(OkResponse),
    Failure(ErrorResponse),
}

impl Response {
    /// The response as a `Result`.
    pub fn into_result(self) -> (res: Result<OkResponse, ErrorResponse>)
        ensures
            res == (match self {
                Response::Success(v) => Ok::<OkResponse, ErrorResponse>(v),
                Response::Failure(e) => Err::<OkResponse, ErrorResponse>(e),
            }),
    {
        match self {
            Response::Success(v) => Ok(v),
            Response::Failure(e) => Err(e),
        }
    }

    /// The response that a `Result` stands for.
    pub fn from_result(value: Result<OkResponse, ErrorResponse>) -> (res: Response)
        ensures
            res == (match value {
                Ok(v) => Response::Success(v),
                Err(e) => Response::Failure(e),
            }),
    {
        match value {
            Ok(v) => Response::Success(v),
            Err(e) => Response::Failure(e),
        }
    }
}

/// A list of records in one value: the frames of the records, one behind
/// the other.
#[derive(Clone, Debug, PartialEq, Eq)]
pub struct AmpList(pub Vec<RawFrame>);

/// The records of a list as boxes of byte strings.
pub open spec fn list_box_view(items: Vec<RawFrame>) -> Seq<BoxSpec> {
    Seq::new(items@.len(), |i: int| box_view(items@[i]))
}

/// The frames of the records of a list, joined.
pub open spec fn frames_wire(v: Version, items: Seq<BoxSpec>) -> Seq<u8>
    decreases items.len(),
{
    if items.len() == 0 {
        Seq::empty()
    } else {
        frames_wire(v, items.drop_last()) + frame_wire(v, items.last())
    }
}

impl AmpList {
    /// Writes the records one behind the other, with nothing between them.
    /// The call stops at the first record that holds a faulty pair, with that
    /// pair's fault.
    pub fn serialize(&self, serializer: &mut Serializer) -> (res: Result<(), Error>)
        ensures
            final(serializer).version() == old(serializer).version(),
            res is Ok <==> forall|i: int|
                0 <= i < self.0@.len() ==> valid_box(
                    old(serializer).version(),
                    #[trigger] list_box_view(self.0)[i],
                ),
            res is Ok ==> final(serializer)@ == old(serializer)@ + frames_wire(
                old(serializer).version(),
                list_box_view(self.0),
            ),
            res is Err ==> old(serializer)@.is_prefix_of(final(serializer)@),
            res matches Err(e) ==> exists|i: int|
                0 <= i < self.0@.len() && first_error(
                    old(serializer).version(),
                    #[trigger] list_box_view(self.0)[i],
                ) == Some(e) && forall|j: int|
                    0 <= j < i ==> valid_box(
                        old(serializer).version(),
                        #[trigger] list_box_view(self.0)[j],
                    ),
    {
        let ghost items = list_box_view(self.0);
        let ghost v = serializer.version();
        let mut i: usize = 0;
        proof {
            assert(items.take(0) =~= Seq::empty());
            assert(serializer@ + frames_wire(v, items.take(0)) =~= serializer@);
        }
        while i < self.0.len()
            invariant
                i <= self.0@.len(),
                items == list_box_view(self.0),
                v == serializer.version(),
                v == old(serializer).version(),
                forall|j: int| 0 <= j < i ==> valid_box(v, #[trigger] items[j]),
                serializer@ == old(serializer)@ + frames_wire(v, items.take(i as int)),
            decreases self.0@.len() - i,
        {
            let ghost before = serializer@;
            match serializer.serialize_box(&self.0[i]) {
                Ok(()) => {},
                Err(e) => {
                    assert(first_error(v, items[i as int]) == Some(e));
                    proof {
                        lemma_prefix_of_sum(old(serializer)@, frames_wire(v, items.take(i as int)));
                        lemma_prefix_chain(old(serializer)@, before, serializer@);
                    }
                    return Err(e);
                },
            }
            proof {
                assert(items.take(i + 1).drop_last() =~= items.take(i as int));
                assert(items.take(i + 1).last() == items[i as int]);
                assert(serializer@ =~= old(serializer)@ + frames_wire(v, items.take(i + 1)));
            }
            i = i + 1;
        }
        proof {
            assert(items.take(i as int) =~= items);
        }
        Ok(())
    }

    /// Reads records until the input ends.
    pub fn deserialize(deserializer: &mut Deserializer) -> (res: Result<AmpList, Error>)
        ensures
            final(deserializer).version() == old(deserializer).version(),
            (
                match res {
                    Ok(list) => Ok(list_box_view(list.0)),
                    Err(e) => Err(e),
                },
                final(deserializer)@,
            ) == list_step(old(deserializer).version(), old(deserializer)@, Seq::empty()),
    {
        let mut out: Vec<RawFrame> = Vec::new();
        let ghost v = deserializer.version();
        proof {
            assert(list_box_view(out) =~= Seq::empty());
        }
        while deserializer.remaining() > 0
            invariant
                v == deserializer.version(),
                v == old(deserializer).version(),
                list_step(v, deserializer@, list_box_view(out)) == list_step(
                    v,
                    old(deserializer)@,
                    Seq::empty(),
                ),
            decreases deserializer@.len(),
        {
            let ghost before = list_box_view(out);
            proof {
                lemma_box_step_shrinks(v, deserializer@, Seq::empty());
            }
            match deserializer.deserialize_box() {
                Ok(item) => {
                    out.push(item);
                    proof {
                        assert(list_box_view(out) =~= before.push(box_view(item)));
                    }
                },
                Err(e) => {
                    return Err(e);
                },
            }
        }
        Ok(AmpList(out))
    }
}

} // verus!
