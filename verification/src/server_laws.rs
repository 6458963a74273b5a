//! What holds of the connection engine over whole runs: tags never repeat,
//! the wire keeps the order of the commands, a registered reply is always
//! matched, and a request that awaits no answer leaves no trace.

use vstd::prelude::*;
use vstd::utf8::encode_utf8;
use crate::codecs::{box_view, frame_wire, Version};
use crate::frame_laws::lemma_get_behind;
use crate::frame::{box_get, reserved_bytes, RawFrame, Reserved};
use crate::number::{hex_text, lemma_parse_format, lemma_tags_differ};
use crate::server::{awaited, framed, write_step, WriteActionModel, WriteCmd};
use crate::types::request_box;

verus! {

/// What a run of the write loop has come to.
pub struct WriteTrace {
    /// The number of the last tag given out.
    pub seqno: nat,
    /// What the loop was told to do, command by command.
    pub actions: Seq<WriteActionModel>,
    /// Whether the loop is still going: it ends at the first command that
    /// fails or asks it to stop.
    pub running: bool,
}

/// The write loop run over `cmds` in order, from the counter `seqno`.
pub open spec fn write_run(v: Version, seqno: nat, cmds: Seq<WriteCmd>) -> WriteTrace
    decreases cmds.len(),
{
    if cmds.len() == 0 {
        WriteTrace { seqno, actions: Seq::empty(), running: true }
    } else {
        let before = write_run(v, seqno, cmds.drop_last());
        if before.running {
            let step = write_step(v, before.seqno, cmds.last());
            WriteTrace {
                seqno: step.0,
                actions: before.actions.push(step.1),
                running: step.1 is Emit,
            }
        } else {
            before
        }
    }
}

/// The bytes that an action puts on the wire.
pub open spec fn emitted(action: WriteActionModel) -> Seq<u8> {
    match action {
        WriteActionModel::Emit { frame, .. } => frame,
        _ => Seq::empty(),
    }
}

/// The bytes that a run puts on the wire.
pub open spec fn wire_bytes(actions: Seq<WriteActionModel>) -> Seq<u8>
    decreases actions.len(),
{
    if actions.len() == 0 {
        Seq::empty()
    } else {
        wire_bytes(actions.drop_last()) + emitted(actions.last())
    }
}

/// Whether a command is a request that awaits an answer.
pub open spec fn awaits_answer(cmd: WriteCmd) -> bool {
    cmd matches WriteCmd::Request { reply, .. } && reply
}

/// A run that is still going was going after each of its commands, and has
/// acted on every one of them.
pub proof fn lemma_run_prefix(v: Version, seqno: nat, cmds: Seq<WriteCmd>, i: int)
    requires
        0 <= i <= cmds.len(),
        write_run(v, seqno, cmds).running,
    ensures
        write_run(v, seqno, cmds.take(i)).running,
        write_run(v, seqno, cmds.take(i)).actions.len() == i,
        write_run(v, seqno, cmds.take(i)).actions == write_run(v, seqno, cmds).actions.take(i),
    decreases cmds.len(),
{
    if cmds.len() == 0 {
        assert(cmds.take(i) =~= cmds);
        assert(write_run(v, seqno, cmds).actions.take(i) =~= write_run(v, seqno, cmds).actions);
    } else {
        let front = cmds.drop_last();
        if i == cmds.len() {
            assert(cmds.take(i) =~= cmds);
            lemma_run_prefix(v, seqno, front, i - 1);
            assert(front.take(i - 1) =~= front);
            assert(write_run(v, seqno, cmds).actions.take(i) =~= write_run(v, seqno, cmds).actions);
        } else {
            lemma_run_prefix(v, seqno, front, i);
            lemma_run_prefix(v, seqno, front, front.len() as int);
            assert(front.take(front.len() as int) =~= front);
            assert(front.take(i) =~= cmds.take(i));
            assert(write_run(v, seqno, front).actions.take(i) =~= write_run(
                v,
                seqno,
                cmds,
            ).actions.take(i));
        }
    }
}

/// The wire keeps the order of the commands: what a run has written stays
/// in front, and a later command only adds behind it.
pub proof fn lemma_wire_order(v: Version, seqno: nat, cmds: Seq<WriteCmd>, later: WriteCmd)
    requires
        write_run(v, seqno, cmds).running,
    ensures
        wire_bytes(write_run(v, seqno, cmds.push(later)).actions) == wire_bytes(
            write_run(v, seqno, cmds).actions,
        ) + emitted(write_step(v, write_run(v, seqno, cmds).seqno, later).1),
{
    let before = write_run(v, seqno, cmds);
    let after = write_run(v, seqno, cmds.push(later));
    assert(cmds.push(later).drop_last() =~= cmds);
    assert(after.actions.drop_last() =~= before.actions);
}

/// Each action of a run that is still going is that of the command in the
/// same place.
pub proof fn lemma_action_of_command(v: Version, seqno: nat, cmds: Seq<WriteCmd>, i: int)
    requires
        0 <= i < cmds.len(),
        write_run(v, seqno, cmds).running,
    ensures
        write_run(v, seqno, cmds).actions.len() == cmds.len(),
        write_run(v, seqno, cmds).actions[i] == write_step(
            v,
            write_run(v, seqno, cmds.take(i)).seqno,
            cmds[i],
        ).1,
{
    lemma_run_prefix(v, seqno, cmds, i + 1);
    lemma_run_prefix(v, seqno, cmds, i);
    lemma_run_prefix(v, seqno, cmds, cmds.len() as int);
    assert(cmds.take(cmds.len() as int) =~= cmds);
    assert(cmds.take(i + 1).drop_last() =~= cmds.take(i));
    assert(cmds.take(i + 1).last() == cmds[i]);
}

/// The counter after a run of requests that all await an answer has gone up
/// by one for each.
pub proof fn lemma_counter_counts(v: Version, seqno: nat, cmds: Seq<WriteCmd>)
    requires
        forall|k: int| 0 <= k < cmds.len() ==> awaits_answer(#[trigger] cmds[k]),
        write_run(v, seqno, cmds).running,
    ensures
        write_run(v, seqno, cmds).seqno == seqno + cmds.len(),
    decreases cmds.len(),
{
    if cmds.len() > 0 {
        let front = cmds.drop_last();
        assert forall|k: int| 0 <= k < front.len() implies awaits_answer(#[trigger] front[k]) by {
            assert(front[k] == cmds[k]);
        }
        lemma_counter_counts(v, seqno, front);
        assert(awaits_answer(cmds[cmds.len() - 1]));
    }
}

/// Sequential requests that await an answer are tagged `1`, `2`, `3` and so
/// on, in hexadecimal: the request in place `i` of a fresh write loop goes out
/// with the tag of `i + 1`, after the read loop was told to expect that number.
pub proof fn lemma_sequential_tags(v: Version, cmds: Seq<WriteCmd>, i: int)
    requires
        forall|k: int| 0 <= k < cmds.len() ==> awaits_answer(#[trigger] cmds[k]),
        write_run(v, 0, cmds).running,
        cmds.len() <= u64::MAX,
        0 <= i < cmds.len(),
    ensures
        cmds[i] matches WriteCmd::Request { command, fields, .. } && write_run(
            v,
            0,
            cmds,
        ).actions[i] == (WriteActionModel::Emit {
            expect: Some((i + 1) as u64),
            frame: frame_wire(
                v,
                request_box(Some(hex_text((i + 1) as nat)), encode_utf8(command@), box_view(fields)),
            ),
        }),
{
    lemma_action_of_command(v, 0, cmds, i);
    lemma_run_prefix(v, 0, cmds, i);
    lemma_run_prefix(v, 0, cmds, i + 1);
    let front = cmds.take(i);
    assert forall|k: int| 0 <= k < front.len() implies awaits_answer(#[trigger] front[k]) by {
        assert(front[k] == cmds[k]);
    }
    lemma_counter_counts(v, 0, front);
    assert(awaits_answer(cmds[i]));
    assert(cmds.take(i + 1).drop_last() =~= front);
    assert(cmds.take(i + 1).last() == cmds[i]);
}

/// No two requests of one connection share a tag.
pub proof fn lemma_tags_unique(i: u64, j: u64)
    requires
        i != j,
    ensures
        hex_text(i as nat) != hex_text(j as nat),
{
    lemma_tags_differ(i, j);
}

/// A reply is matched whenever its request was registered before it went
/// out: once the read loop expects the number `n`, a response that echoes the
/// tag of `n` finds its slot, whatever else the reply map holds.
pub proof fn lemma_registered_reply_matches<S>(map: Map<u64, S>, n: u64, slot: S)
    ensures
        awaited(map.insert(n, slot), hex_text(n as nat)) == Some(n),
        map.insert(n, slot)[n] == slot,
{
    lemma_parse_format(n);
}

/// The number that the read loop is told to expect is the number that the
/// request's tag spells: a request that awaits an answer goes out tagged with
/// the hexadecimal text of the number in `expect`, and once that number is in
/// the reply map, a response that echoes the tag finds the slot.
pub proof fn lemma_reply_finds_its_slot<S>(
    v: Version,
    seqno: nat,
    command: String,
    fields: RawFrame,
    map: Map<u64, S>,
    slot: S,
)
    requires
        seqno < u64::MAX,
    ensures
        ({
            let cmd = WriteCmd::Request { command, fields, reply: true };
            let n = (seqno + 1) as u64;
            let b = request_box(Some(hex_text(n as nat)), encode_utf8(command@), box_view(fields));
            &&& write_step(v, seqno, cmd).0 == n
            &&& write_step(v, seqno, cmd).1 == (match framed(v, b) {
                Ok(frame) => WriteActionModel::Emit { expect: Some(n), frame },
                Err(error) => WriteActionModel::Fail { expect: Some(n), error },
            })
            &&& awaited(map.insert(n, slot), hex_text(n as nat)) == Some(n)
        }),
{
    lemma_parse_format((seqno + 1) as u64);
}

/// The reply map and the counter agree where every awaited number is one
/// that the counter has given out.
pub open spec fn in_step<S>(seqno: nat, map: Map<u64, S>) -> bool {
    forall|n: u64| map.contains_key(n) ==> 1 <= n <= seqno
}

/// A fresh connection is in step.
pub proof fn lemma_fresh_in_step<S>()
    ensures
        in_step(0, Map::<u64, S>::empty()),
{
}

/// Every request that awaits an answer holds one entry of its own: the number
/// that the write loop gives out next is not awaited yet, so that installing its
/// slot replaces no other, and the two loops stay in step.
pub proof fn lemma_registration_in_step<S>(seqno: nat, map: Map<u64, S>, slot: S)
    requires
        in_step(seqno, map),
        seqno < u64::MAX,
    ensures
        !map.contains_key((seqno + 1) as u64),
        in_step(seqno + 1, map.insert((seqno + 1) as u64, slot)),
        map.insert((seqno + 1) as u64, slot).remove((seqno + 1) as u64) == map,
{
    assert(map.insert((seqno + 1) as u64, slot).remove((seqno + 1) as u64) =~= map);
}

/// A delivered response takes its entry with it and leaves the others: the
/// loops stay in step, and the same response is not matched again.
pub proof fn lemma_delivery_in_step<S>(seqno: nat, map: Map<u64, S>, tag: Seq<u8>)
    requires
        in_step(seqno, map),
        awaited(map, tag) is Some,
    ensures
        in_step(seqno, map.remove(awaited(map, tag)->0)),
        awaited(map.remove(awaited(map, tag)->0), tag) is None,
{
}

/// A request that awaits no answer leaves the counter as it was, tells the
/// read loop to expect nothing, and goes out without a tag of its own: `_ask` is
/// in its box only where the payload put it.
pub proof fn lemma_fire_and_forget(v: Version, seqno: nat, command: String, fields: RawFrame)
    ensures
        ({
            let cmd = WriteCmd::Request { command, fields, reply: false };
            let b = request_box(None, encode_utf8(command@), box_view(fields));
            &&& write_step(v, seqno, cmd).0 == seqno
            &&& write_step(v, seqno, cmd).1 == (match framed(v, b) {
                Ok(frame) => WriteActionModel::Emit { expect: None, frame },
                Err(error) => WriteActionModel::Fail { expect: None, error },
            })
            &&& box_get(b, reserved_bytes(Reserved::Ask)) == box_get(
                box_view(fields),
                reserved_bytes(Reserved::Ask),
            )
        }),
{
    let b = request_box(None, encode_utf8(command@), box_view(fields));
    lemma_get_behind(
        (reserved_bytes(Reserved::Command), encode_utf8(command@)),
        box_view(fields),
        reserved_bytes(Reserved::Ask),
    );
    assert(reserved_bytes(Reserved::Command) != reserved_bytes(Reserved::Ask)) by {
        assert(reserved_bytes(Reserved::Command).len() != reserved_bytes(Reserved::Ask).len());
    }
}

} // verus!
