//! The decisions of the connection engine. The loops that read and write
//! the stream live outside this library; each hands what happened to one of the
//! functions here and carries out what it is told.

use std::collections::HashMap;
use vstd::prelude::*;
use vstd::std_specs::hash::group_hash_axioms;
use vstd::utf8::{encode_utf8, valid_utf8};
use crate::codecs::{box_view, frame_wire, BoxSpec, Version};
use crate::error::{Error, RemoteError};
use crate::frame::{classify, Frame, FrameModel, RawFrame};
use crate::number::{format_tag, hex_text, parse_hex, parse_tag};
use crate::ser::first_error;
use crate::text::utf8_text;
use crate::types::{error_box, ok_box, request_box, ErrorResponse, OkResponse, Request};

verus! {

/// The depth of every queue between the loops.
pub const QUEUE_DEPTH: usize = 32;

/// Where a connection stands.
#[derive(Copy, Clone, Debug, PartialEq, Eq, Structural)]
pub enum State {
    Connected,
    Closing,
    Closed,
}

/// Which of the two loops have ended.
#[derive(Copy, Clone, Debug, PartialEq, Eq, Structural)]
pub struct LoopState {
    pub read_done: bool,
    pub write_done: bool,
}

/// A connection is closed when both loops have ended, closing when one
/// has, connected when neither has.
pub open spec fn connection_state(loops: LoopState) -> State {
    if loops.read_done && loops.write_done {
        State::Closed
    } else if loops.read_done || loops.write_done {
        State::Closing
    } else {
        State::Connected
    }
}

/// How far a connection has come.
pub open spec fn state_rank(s: State) -> nat {
    match s {
        State::Connected => 0,
        State::Closing => 1,
        State::Closed => 2,
    }
}

impl LoopState {
    /// Both loops are running.
    pub fn new() -> (loops: LoopState)
        ensures
            !loops.read_done && !loops.write_done,
            connection_state(loops) == State::Connected,
    {
        LoopState { read_done: false, write_done: false }
    }

    /// Records that the read loop has ended.
    pub fn read_finished(&mut self)
        ensures
            final(self).read_done,
            final(self).write_done == old(self).write_done,
            state_rank(connection_state(*old(self))) <= state_rank(connection_state(*final(self))),
    {
        self.read_done = true;
    }

    /// Records that the write loop has ended.
    pub fn write_finished(&mut self)
        ensures
            final(self).write_done,
            final(self).read_done == old(self).read_done,
            state_rank(connection_state(*old(self))) <= state_rank(connection_state(*final(self))),
    {
        self.write_done = true;
    }

    /// Where the connection stands.
    pub fn state(&self) -> (s: State)
        ensures
            s == connection_state(*self),
    {
        if self.read_done && self.write_done {
            State::Closed
        } else if self.read_done || self.write_done {
            State::Closing
        } else {
            State::Connected
        }
    }
}

/// A connection never goes back: while loops only end, its state only
/// advances, and it is closed once both have ended.
pub proof fn lemma_state_advances(before: LoopState, after: LoopState)
    requires
        before.read_done ==> after.read_done,
        before.write_done ==> after.write_done,
    ensures
        state_rank(connection_state(before)) <= state_rank(connection_state(after)),
        after.read_done && after.write_done ==> connection_state(after) == State::Closed,
        after.read_done != after.write_done ==> connection_state(after) == State::Closing,
{
}

/// The handlers of an application's commands.
pub trait Dispatcher {
    /// Handles a request that wants a reply.
    fn dispatch(&self, command: &str, frame: RawFrame) -> Result<RawFrame, RemoteError>;

    /// Handles a request that wants none.
    fn dispatch_noreply(&self, command: &str, frame: RawFrame);
}

/// A dispatcher that handles no command.
pub struct NoopDispatcher;

impl Dispatcher for NoopDispatcher {
    /// Answers every command as unhandled.
    fn dispatch(&self, command: &str, frame: RawFrame) -> (res: Result<RawFrame, RemoteError>)
        ensures
            res matches Err(e) && e.code@ == "UNHANDLED"@ && e.description@ == ""@,
    {
        Err(RemoteError::new(Some("UNHANDLED"), None))
    }

    fn dispatch_noreply(&self, command: &str, frame: RawFrame) {
    }
}

/// How a connection is to be set up.
pub struct Builder<D> {
    pub dispatcher: D,
    pub version: Version,
}

impl Default for Builder<NoopDispatcher> {
    fn default() -> (builder: Builder<NoopDispatcher>)
        ensures
            builder.version == Version::V1,
    {
        Builder { dispatcher: NoopDispatcher, version: Version::V1 }
    }
}

impl<D> Builder<D> {
    /// The same setup, for the `V2` variant.
    pub fn version2(self) -> (builder: Builder<D>)
        ensures
            builder.version == Version::V2,
            builder.dispatcher == self.dispatcher,
    {
        Builder { dispatcher: self.dispatcher, version: Version::V2 }
    }

    /// The same setup, with another dispatcher.
    pub fn dispatcher<E>(self, dispatcher: E) -> (builder: Builder<E>)
        ensures
            builder.version == self.version,
            builder.dispatcher == dispatcher,
    {
        Builder { dispatcher, version: self.version }
    }
}

/// The frame of a box, or the serializer's error as the transport reports
/// it.
pub open spec fn framed(v: Version, b: BoxSpec) -> Result<Seq<u8>, Error> {
    match first_error(v, b) {
        Some(e) => Err(Error::Serde(e)),
        None => Ok(frame_wire(v, b)),
    }
}

/// A frame that was made, as bytes.
pub open spec fn framed_view(res: Result<Vec<u8>, Error>) -> Result<Seq<u8>, Error> {
    match res {
        Ok(bytes) => Ok(bytes@),
        Err(e) => Err(e),
    }
}

/// `UNKNOWN`, the code of an error that names none.
pub open spec fn unknown_code() -> Seq<char> {
    "UNKNOWN"@
}

/// The description of the error that answers a request whose ticket was
/// let go.
pub open spec fn dropped_description() -> Seq<char> {
    "Request dropped without reply"@
}

/// The frame that answers the request of `ticket` with what its handler
/// returned: a response with the handler's fields, or an error response with
/// the handler's code and description.
pub open spec fn answer_frame(ticket: ReplyTicket, result: Result<RawFrame, RemoteError>) -> Result<
    Seq<u8>,
    Error,
> {
    match result {
        Ok(reply) => framed(ticket.version, ok_box(ticket.tag@, box_view(reply))),
        Err(e) => framed(
            ticket.version,
            error_box(ticket.tag@, encode_utf8(e.code@), encode_utf8(e.description@)),
        ),
    }
}

/// The one reply that an inbound request is owed. Each way of answering
/// takes the ticket.
#[derive(Debug, PartialEq, Eq)]
pub struct ReplyTicket {
    pub tag: Vec<u8>,
    pub version: Version,
}

impl ReplyTicket {
    /// The frame of the response that carries `reply`.
    pub fn ok(self, reply: RawFrame) -> (res: Result<Vec<u8>, Error>)
        ensures
            framed_view(res) == framed(self.version, ok_box(self.tag@, box_view(reply))),
    {
        let version = self.version;
        let response = OkResponse { tag: self.tag, fields: reply };
        proof {
            crate::codecs::lemma_valid_no_faulty(version, response.spec_box());
        }
        match response.into_bytes(version) {
            Ok(bytes) => Ok(bytes),
            Err(e) => Err(Error::Serde(e)),
        }
    }

    /// The frame of the error response with the given code and description;
    /// a missing code reads `UNKNOWN`, a missing description is empty.
    pub fn error(self, code: Option<String>, description: Option<String>) -> (res: Result<
        Vec<u8>,
        Error,
    >)
        ensures
            framed_view(res) == framed(
                self.version,
                error_box(
                    self.tag@,
                    encode_utf8(
                        match code {
                            Some(c) => c@,
                            None => unknown_code(),
                        },
                    ),
                    encode_utf8(
                        match description {
                            Some(d) => d@,
                            None => ""@,
                        },
                    ),
                ),
            ),
    {
        let version = self.version;
        let code = match code {
            Some(c) => c,
            None => "UNKNOWN".to_owned(),
        };
        let description = match description {
            Some(d) => d,
            None => "".to_owned(),
        };
        let response = ErrorResponse { tag: self.tag, code, description };
        proof {
            crate::codecs::lemma_valid_no_faulty(version, response.spec_box());
        }
        match response.into_bytes(version) {
            Ok(bytes) => Ok(bytes),
            Err(e) => Err(Error::Serde(e)),
        }
    }

    /// The frame that answers a request whose ticket was let go: an error
    /// response with code `UNKNOWN`.
    pub fn dropped(self) -> (res: Result<Vec<u8>, Error>)
        ensures
            framed_view(res) == framed(
                self.version,
                error_box(
                    self.tag@,
                    encode_utf8(unknown_code()),
                    encode_utf8(dropped_description()),
                ),
            ),
    {
        self.error(None, Some("Request dropped without reply".to_owned()))
    }

    /// The frame that answers a request with what its handler returned.
    pub fn answer(self, result: Result<RawFrame, RemoteError>) -> (res: Result<Vec<u8>, Error>)
        ensures
            framed_view(res) == answer_frame(self, result),
    {
        match result {
            Ok(reply) => self.ok(reply),
            Err(e) => self.error(Some(e.code), Some(e.description)),
        }
    }
}

/// Hands an inbound request to its handler. A request without ticket is
/// handled and nothing is sent. A request with a ticket is handled, and the
/// frame to send is the answer to whatever the handler returned.
pub fn handle_request<D: Dispatcher>(
    dispatcher: &D,
    command: &str,
    fields: RawFrame,
    ticket: Option<ReplyTicket>,
) -> (res: Result<Option<Vec<u8>>, Error>)
    ensures
        match ticket {
            None => res matches Ok(None),
            Some(t) => match res {
                Ok(Some(frame)) => exists|result: Result<RawFrame, RemoteError>|
                    #[trigger] answer_frame(t, result) == Ok::<Seq<u8>, Error>(frame@),
                Ok(None) => false,
                Err(e) => exists|result: Result<RawFrame, RemoteError>|
                    #[trigger] answer_frame(t, result) == Err::<Seq<u8>, Error>(e),
            },
        },
{
    match ticket {
        None => {
            dispatcher.dispatch_noreply(command, fields);
            Ok(None)
        },
        Some(ticket) => {
            let result = dispatcher.dispatch(command, fields);
            let ghost t = ticket;
            let ghost witness = result;
            match ticket.answer(result) {
                Ok(frame) => {
                    assert(answer_frame(t, witness) == Ok::<Seq<u8>, Error>(frame@));
                    Ok(Some(frame))
                },
                Err(e) => {
                    assert(answer_frame(t, witness) == Err::<Seq<u8>, Error>(e));
                    Err(e)
                },
            }
        },
    }
}

/// What the write loop is asked to do.
#[derive(Debug)]
pub enum WriteCmd {
    /// Put a finished frame on the wire.
    Reply(Vec<u8>),
    /// Send a request; `reply` says whether an answer is awaited.
    Request { command: String, fields: RawFrame, reply: bool },
    /// End the loop.
    Exit,
}

/// What the write loop is to do next. Where `expect` holds a tag, the read
/// loop must have that tag in its reply map before anything else is done.
#[derive(Debug)]
pub enum WriteAction {
    Emit { expect: Option<u64>, frame: Vec<u8> },
    Fail { expect: Option<u64>, error: Error },
    Stop,
}

/// A write action as the contracts see it.
pub enum WriteActionModel {
    Emit { expect: Option<u64>, frame: Seq<u8> },
    Fail { expect: Option<u64>, error: Error },
    Stop,
}

impl View for WriteAction {
    type V = WriteActionModel;

    open spec fn view(&self) -> WriteActionModel {
        match *self {
            WriteAction::Emit { expect, frame } => WriteActionModel::Emit {
                expect,
                frame: frame@,
            },
            WriteAction::Fail { expect, error } => WriteActionModel::Fail { expect, error },
            WriteAction::Stop => WriteActionModel::Stop,
        }
    }
}

/// The number that a request increases the counter by.
pub open spec fn tags_taken(cmd: WriteCmd) -> nat {
    match cmd {
        WriteCmd::Request { reply, .. } => if reply {
            1
        } else {
            0
        },
        _ => 0,
    }
}

/// One step of the write loop, from the counter `seqno`: the new counter and
/// what to do. A request that awaits an answer takes the next number, which
/// becomes its tag in lowercase hexadecimal; one that awaits none is sent
/// without tag and leaves the counter as it is.
pub open spec fn write_step(v: Version, seqno: nat, cmd: WriteCmd) -> (nat, WriteActionModel) {
    match cmd {
        WriteCmd::Reply(frame) => (seqno, WriteActionModel::Emit { expect: None, frame: frame@ }),
        WriteCmd::Request { command, fields, reply } => {
            let next = seqno + tags_taken(cmd);
            let expect = if reply {
                Some(next as u64)
            } else {
                None
            };
            let tag = if reply {
                Some(hex_text(next))
            } else {
                None
            };
            match framed(v, request_box(tag, encode_utf8(command@), box_view(fields))) {
                Ok(frame) => (next, WriteActionModel::Emit { expect, frame }),
                Err(error) => (next, WriteActionModel::Fail { expect, error }),
            }
        },
        WriteCmd::Exit => (seqno, WriteActionModel::Stop),
    }
}

/// The state of the write loop: the number of the last tag that it gave
/// out.
#[derive(Debug)]
pub struct WriteLoop {
    seqno: u64,
    version: Version,
}

impl WriteLoop {
    /// The number of the last tag given out.
    pub closed spec fn seqno(&self) -> u64 {
        self.seqno
    }

    /// The variant of the connection.
    pub closed spec fn version(&self) -> Version {
        self.version
    }

    /// A write loop that has given out no tag.
    pub fn new(version: Version) -> (state: WriteLoop)
        ensures
            state.seqno() == 0,
            state.version() == version,
    {
        WriteLoop { seqno: 0, version }
    }

    /// Whether a tag is left to give out.
    pub fn tags_left(&self) -> (left: bool)
        ensures
            left == (self.seqno() < u64::MAX),
    {
        self.seqno < u64::MAX
    }

    /// Decides what to do about `cmd`.
    pub fn step(&mut self, cmd: WriteCmd) -> (action: WriteAction)
        requires
            old(self).seqno() + tags_taken(cmd) <= u64::MAX,
        ensures
            final(self).version() == old(self).version(),
            (final(self).seqno() as nat, action@) == write_step(
                old(self).version(),
                old(self).seqno() as nat,
                cmd,
            ),
    {
        match cmd {
            WriteCmd::Reply(frame) => WriteAction::Emit { expect: None, frame },
            WriteCmd::Request { command, fields, reply } => {
                let (expect, tag) = if reply {
                    self.seqno = self.seqno + 1;
                    (Some(self.seqno), Some(format_tag(self.seqno)))
                } else {
                    (None, None)
                };
                let request = Request { tag, command, fields };
                proof {
                    crate::codecs::lemma_valid_no_faulty(self.version, request.spec_box());
                }
                match request.into_bytes(self.version) {
                    Ok(frame) => WriteAction::Emit { expect, frame },
                    Err(e) => WriteAction::Fail { expect, error: Error::Serde(e) },
                }
            },
            WriteCmd::Exit => WriteAction::Stop,
        }
    }
}

/// What the read loop is to do about a frame.
#[derive(Debug)]
pub enum ReadAction<S> {
    /// Hand an inbound request to the application, with its ticket where it
    /// wants a reply.
    Dispatch { command: String, fields: RawFrame, ticket: Option<ReplyTicket> },
    /// Hand a response to the slot that awaits it.
    Deliver { slot: S, response: Result<RawFrame, RemoteError> },
}

/// The number of the awaited reply that a response's tag names, if it names
/// one.
pub open spec fn awaited<S>(map: Map<u64, S>, tag: Seq<u8>) -> Option<u64> {
    match parse_hex(tag) {
        Some(n) => if map.contains_key(n) {
            Some(n)
        } else {
            None
        },
        None => None,
    }
}

/// What `dispatch_frame` owes for a frame: `res` and the reply map `after`,
/// from the reply map `before`.
pub open spec fn dispatched<S>(
    v: Version,
    before: Map<u64, S>,
    frame: RawFrame,
    res: Result<ReadAction<S>, Error>,
    after: Map<u64, S>,
) -> bool {
    match classify(box_view(frame)) {
        Err(e) => res matches Err(r) && r == e,
        Ok(FrameModel::Request { command, tag, fields }) => after == before && if valid_utf8(
            command,
        ) {
            res matches Ok(ReadAction::Dispatch { command: c, fields: f, ticket }) && encode_utf8(
                c@,
            ) == command && box_view(f) == fields && (match ticket {
                Some(t) => tag == Some(t.tag@) && t.version == v,
                None => tag is None,
            })
        } else {
            res matches Err(Error::InvalidUtf8(_))
        },
        Ok(FrameModel::OkResponse { tag, fields }) => match awaited(before, tag) {
            Some(n) => res matches Ok(ReadAction::Deliver { slot, response: Ok(f) }) && slot
                == before[n] && box_view(f) == fields && after == before.remove(n),
            None => res matches Err(Error::UnmatchedReply),
        },
        Ok(FrameModel::ErrorResponse { tag, code, description }) => match awaited(before, tag) {
            Some(n) => if valid_utf8(code) && valid_utf8(description) {
                res matches Ok(ReadAction::Deliver { slot, response: Err(e) }) && slot
                    == before[n] && encode_utf8(e.code@) == code && encode_utf8(e.description@)
                    == description && after == before.remove(n)
            } else {
                res matches Err(Error::InvalidUtf8(_))
            },
            None => res matches Err(Error::UnmatchedReply),
        },
    }
}

/// The state of the read loop: the slots of the requests that await a
/// reply, by the number of their tag.
pub struct ReadLoop<S> {
    reply_map: HashMap<u64, S>,
    version: Version,
}

impl<S> View for ReadLoop<S> {
    type V = Map<u64, S>;

    closed spec fn view(&self) -> Map<u64, S> {
        self.reply_map@
    }
}

impl<S> ReadLoop<S> {
    /// The variant of the connection.
    pub closed spec fn version(&self) -> Version {
        self.version
    }

    /// A read loop that awaits no reply.
    pub fn new(version: Version) -> (state: ReadLoop<S>)
        ensures
            state@ == Map::<u64, S>::empty(),
            state.version() == version,
    {
        ReadLoop { reply_map: HashMap::new(), version }
    }

    /// Installs the slot of a request that the write loop is about to send.
    /// The write loop may be told to go on once this has returned.
    pub fn expect(&mut self, tag: u64, slot: S)
        ensures
            final(self)@ == old(self)@.insert(tag, slot),
            final(self).version() == old(self).version(),
    {
        broadcast use group_hash_axioms;

        self.reply_map.insert(tag, slot);
    }

    /// Whether a reply with this number is awaited.
    pub fn awaits(&self, tag: u64) -> (found: bool)
        ensures
            found == self@.contains_key(tag),
    {
        broadcast use group_hash_axioms;

        self.reply_map.contains_key(&tag)
    }

    /// Takes the slot that a response's tag names out of the reply map.
    fn take_slot(&mut self, tag: &[u8]) -> (res: Result<S, Error>)
        ensures
            final(self).version() == old(self).version(),
            match awaited(old(self)@, tag@) {
                Some(n) => res == Ok::<S, Error>(old(self)@[n]) && final(self)@ == old(
                    self,
                )@.remove(n),
                None => res == Err::<S, Error>(Error::UnmatchedReply) && final(self)@ == old(
                    self,
                )@,
            },
    {
        broadcast use group_hash_axioms;

        let n = match parse_tag(tag) {
            Some(n) => n,
            None => {
                return Err(Error::UnmatchedReply);
            },
        };
        match self.reply_map.remove(&n) {
            Some(slot) => Ok(slot),
            None => {
                assert(self@ =~= old(self)@);
                Err(Error::UnmatchedReply)
            },
        }
    }

    /// Decides what to do about a decoded frame. A request goes to the
    /// application, with a ticket where it is tagged. A response goes to the
    /// slot that its tag names, which leaves the reply map; where the tag names
    /// none, the frame is an unmatched reply. A command, an error code or an
    /// error description that is not UTF-8 is an error, and so is a frame that
    /// cannot be classified; an error leaves the reply map as it was.
    pub fn dispatch_frame(&mut self, frame: RawFrame) -> (res: Result<ReadAction<S>, Error>)
        ensures
            final(self).version() == old(self).version(),
            res is Err ==> final(self)@ == old(self)@,
            dispatched(old(self).version(), old(self)@, frame, res, final(self)@),
    {
        broadcast use group_hash_axioms;

        let classified = match Frame::try_from(frame) {
            Ok(f) => f,
            Err(e) => {
                return Err(e);
            },
        };
        match classified {
            Frame::Request { command, tag, fields } => {
                let command = match utf8_text(command.as_slice()) {
                    Ok(s) => s.to_owned(),
                    Err(e) => {
                        return Err(Error::InvalidUtf8(e));
                    },
                };
                let ticket = match tag {
                    Some(tag) => Some(ReplyTicket { tag, version: self.version }),
                    None => None,
                };
                Ok(ReadAction::Dispatch { command, fields, ticket })
            },
            Frame::OkResponse { tag, fields } => {
                match self.take_slot(tag.as_slice()) {
                    Ok(slot) => Ok(ReadAction::Deliver { slot, response: Ok(fields) }),
                    Err(e) => Err(e),
                }
            },
            Frame::ErrorResponse { tag, code, description } => {
                let known = match parse_tag(tag.as_slice()) {
                    Some(n) => self.reply_map.contains_key(&n),
                    None => false,
                };
                if !known {
                    return Err(Error::UnmatchedReply);
                }
                let code = match utf8_text(code.as_slice()) {
                    Ok(s) => s.to_owned(),
                    Err(e) => {
                        return Err(Error::InvalidUtf8(e));
                    },
                };
                let description = match utf8_text(description.as_slice()) {
                    Ok(s) => s.to_owned(),
                    Err(e) => {
                        return Err(Error::InvalidUtf8(e));
                    },
                };
                match self.take_slot(tag.as_slice()) {
                    Ok(slot) => Ok(
                        ReadAction::Deliver { slot, response: Err(RemoteError { code, description }) },
                    ),
                    Err(e) => Err(e),
                }
            },
        }
    }
}

/// What the read loop may be woken by.
#[derive(Debug)]
pub enum ReadEvent<S> {
    /// The stream delivered a frame.
    Frame(RawFrame),
    /// The stream has ended.
    EndOfInput,
    /// The write loop is about to send a request that awaits an answer.
    Expect { tag: u64, slot: S },
    /// The write loop is gone.
    ExpectClosed,
    /// The handler of an inbound request has returned.
    Handled(Result<(), Error>),
    /// The connection is to be shut down.
    Shutdown,
}

/// What the read loop is to do about an event.
#[derive(Debug)]
pub enum ReadOutcome<S> {
    /// Carry out the action and go on.
    Act(ReadAction<S>),
    /// Tell the write loop that the slot is installed and go on.
    Confirm,
    /// Go on.
    Continue,
    /// Tell the write loop to exit, then end.
    Finish,
    /// End.
    End,
    /// End with this error.
    Abort(Error),
}

/// Whether the read loop ends with this outcome.
pub open spec fn ends_loop<S>(outcome: ReadOutcome<S>) -> bool {
    outcome is Finish || outcome is End || outcome is Abort
}

impl<S> ReadLoop<S> {
    /// Lets go of every slot that still awaits a reply: their requests will
    /// get none.
    pub fn release(&mut self)
        ensures
            final(self)@ == Map::<u64, S>::empty(),
            final(self).version() == old(self).version(),
    {
        self.reply_map.clear();
    }

    /// Decides what to do about an event. A frame is dealt with as
    /// `dispatch_frame` says, and its error ends the loop. A registration is
    /// installed and confirmed. The end of the input and a shutdown both end the
    /// loop after the write loop was told to exit; where the write loop is gone
    /// the loop just ends. A handler's error ends the loop with that error.
    /// Whenever the loop ends, every slot that still awaits a reply is let go.
    pub fn on_event(&mut self, event: ReadEvent<S>) -> (outcome: ReadOutcome<S>)
        ensures
            final(self).version() == old(self).version(),
            ends_loop(outcome) ==> final(self)@ == Map::<u64, S>::empty(),
            match event {
                ReadEvent::Frame(frame) => match outcome {
                    ReadOutcome::Act(action) => dispatched(
                        old(self).version(),
                        old(self)@,
                        frame,
                        Ok(action),
                        final(self)@,
                    ),
                    ReadOutcome::Abort(e) => dispatched(
                        old(self).version(),
                        old(self)@,
                        frame,
                        Err(e),
                        old(self)@,
                    ),
                    _ => false,
                },
                ReadEvent::EndOfInput => outcome is Finish,
                ReadEvent::Shutdown => outcome is Finish,
                ReadEvent::Expect { tag, slot } => outcome is Confirm && final(self)@ == old(
                    self,
                )@.insert(tag, slot),
                ReadEvent::ExpectClosed => outcome is End,
                ReadEvent::Handled(Ok(())) => outcome is Continue && final(self)@ == old(self)@,
                ReadEvent::Handled(Err(e)) => outcome matches ReadOutcome::Abort(r) && r == e,
            },
    {
        let outcome = match event {
            ReadEvent::Frame(frame) => match self.dispatch_frame(frame) {
                Ok(action) => ReadOutcome::Act(action),
                Err(e) => ReadOutcome::Abort(e),
            },
            ReadEvent::EndOfInput => ReadOutcome::Finish,
            ReadEvent::Shutdown => ReadOutcome::Finish,
            ReadEvent::Expect { tag, slot } => {
                self.expect(tag, slot);
                ReadOutcome::Confirm
            },
            ReadEvent::ExpectClosed => ReadOutcome::End,
            ReadEvent::Handled(Ok(())) => ReadOutcome::Continue,
            ReadEvent::Handled(Err(e)) => ReadOutcome::Abort(e),
        };
        let ends = match &outcome {
            ReadOutcome::Finish => true,
            ReadOutcome::End => true,
            ReadOutcome::Abort(_) => true,
            _ => false,
        };
        if ends {
            self.release();
        }
        outcome
    }
}

/// What the caller of a request gets for the response that reached its
/// slot: the fields, or the error that the peer reported.
pub fn remote_result(response: Result<RawFrame, RemoteError>) -> (res: Result<RawFrame, Error>)
    ensures
        res == (match response {
            Ok(fields) => Ok::<RawFrame, Error>(fields),
            Err(e) => Err::<RawFrame, Error>(Error::Remote(e)),
        }),
{
    match response {
        Ok(fields) => Ok(fields),
        Err(e) => Err(Error::Remote(e)),
    }
}

} // verus!
