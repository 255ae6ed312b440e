//! What holds of the adapter in every state and over any run of calls.

use crate::frame::{
    frame, frame_len, len_prefix, lemma_len_roundtrip, lemma_prefix_roundtrip, splice, Fault,
    ReadEvent, Step, WriteEvent, MAX_NOISE_PKG_LEN, MAX_WRITE_BUF_LEN,
};
use crate::io::NoiseOutput;
use crate::model::{
    flush_step, least, paired, read_copied, read_inv, read_opened, read_partial, read_step,
    read_verdict, read_wf, write_buffered, write_inv, write_offered, write_sealed, write_step,
    write_verdict, write_wf, write_wire_step, ReadSide, WriteSide,
};
use crate::state::{ReadState, WriteState};
use crate::wire::{
    bodies, complete, concat, framable, framable_but_last, lemma_bodies_append, lemma_bodies_fit,
    lemma_bodies_of_frame, lemma_bodies_of_open_wire_part, lemma_bodies_of_wire,
    lemma_concat_prefix, lemma_concat_push, lemma_wire_push, tail, wire,
};
use vstd::prelude::*;

verus! {

/// Handing out plaintext keeps the record in agreement with the state.
proof fn lemma_copied_keeps_inv(
    pre: ReadSide,
    len: int,
    off: int,
    dst: Seq<u8>,
    post: ReadSide,
    dst2: Seq<u8>,
    op: Step<usize>,
)
    requires
        read_wf(ReadSide { state: ReadState::Init, ..pre }),
        bodies(pre.pulled) == pre.opened,
        tail(pre.pulled) == Seq::<u8>::empty(),
        pre.opened.len() == pre.revealed.len(),
        0 <= off <= len <= MAX_NOISE_PKG_LEN,
        pre.revealed.len() > 0,
        pre.revealed.last() == pre.plain.subrange(0, len),
        pre.delivered == concat(pre.revealed.drop_last()) + pre.plain.subrange(0, off),
        read_copied(pre, len, off, dst, post, dst2, op),
    ensures
        read_inv(post),
{
    let n = least(len - off, dst.len() as int);
    assert(pre.plain.subrange(0, off) + pre.plain.subrange(off, off + n) =~= pre.plain.subrange(
        0,
        off + n,
    ));
    let before = concat(pre.revealed.drop_last());
    assert(post.delivered =~= before + pre.plain.subrange(0, off + n));
    if off + n == len {
        assert(post.state == ReadState::fresh());
        assert(read_partial(post) =~= Seq::<u8>::empty());
        assert(concat(post.revealed) == before + post.revealed.last());
    }
}

/// A step of a read keeps the record in agreement with the state.
pub proof fn lemma_read_step_keeps_inv(
    pre: ReadSide,
    event: ReadEvent<'_>,
    dst: Seq<u8>,
    post: ReadSide,
    dst2: Seq<u8>,
    op: Step<usize>,
)
    requires
        read_inv(pre),
        pre.state is ReadLen || pre.state is ReadData ==> event.data().len() <= pre.state.wants(),
        read_step(pre, event, dst, post, dst2, op),
    ensures
        read_inv(post),
{
    match pre.state {
        ReadState::Init => {
            assert(read_partial(post) =~= Seq::<u8>::empty());
        },
        ReadState::ReadLen { buf, off } => {
            match event {
                ReadEvent::Data(d) => {
                    let got = off + d@.len();
                    let prefix = splice(buf@, off as int, d@);
                    if d@.len() == 0 {
                    } else {
                        lemma_bodies_append(pre.pulled, d@);
                        let part = buf@.subrange(0, off as int) + d@;
                        assert(part =~= prefix.subrange(0, got));
                        if got < 2 {
                            assert(!complete(part));
                            assert(pre.opened + bodies(part) =~= pre.opened);
                        } else {
                            assert(part =~= prefix);
                            assert(frame_len(part) == frame_len(prefix));
                            lemma_len_roundtrip(prefix);
                            if frame_len(prefix) == 0 {
                                assert(part =~= frame(Seq::<u8>::empty()));
                                lemma_bodies_of_frame(Seq::<u8>::empty());
                                assert(pre.opened + bodies(part) =~= pre.opened);
                                assert(read_partial(post) =~= Seq::<u8>::empty());
                            } else {
                                assert(!complete(part));
                                assert(pre.opened + bodies(part) =~= pre.opened);
                                assert(read_partial(post) =~= prefix);
                            }
                        }
                    }
                },
                _ => {},
            }
        },
        ReadState::ReadData { len, off } => {
            match event {
                ReadEvent::Data(d) => {
                    let got = off + d@.len();
                    let staged = splice(pre.cipher, off as int, d@);
                    if d@.len() == 0 {
                    } else {
                        lemma_bodies_append(pre.pulled, d@);
                        lemma_prefix_roundtrip(len as int);
                        let part = len_prefix(len as int) + pre.cipher.subrange(0, off as int) + d@;
                        assert(part =~= len_prefix(len as int) + staged.subrange(0, got));
                        assert(part[0] == len_prefix(len as int)[0]);
                        assert(part[1] == len_prefix(len as int)[1]);
                        assert(frame_len(part) == len);
                        if got < len {
                            assert(!complete(part));
                            assert(pre.opened + bodies(part) =~= pre.opened);
                        } else {
                            let body = staged.subrange(0, len as int);
                            assert(part =~= frame(body));
                            lemma_bodies_of_frame(body);
                            assert(pre.opened + seq![body] =~= pre.opened.push(body));
                            let mid = ReadSide {
                                cipher: staged,
                                pulled: pre.pulled + d@,
                                opened: pre.opened.push(body),
                                ..pre
                            };
                            assert(read_opened(mid, dst, post, dst2, op));
                            if post.state is DecErr && post.revealed == mid.revealed {
                            } else {
                                let k = post.revealed.last().len() as int;
                                let shown = ReadSide {
                                    plain: post.plain,
                                    revealed: mid.revealed.push(post.plain.subrange(0, k)),
                                    ..mid
                                };
                                assert(read_copied(shown, k, 0, dst, post, dst2, op));
                                assert(shown.revealed.drop_last() =~= pre.revealed);
                                assert(shown.delivered =~= concat(shown.revealed.drop_last())
                                    + shown.plain.subrange(0, 0));
                                lemma_copied_keeps_inv(shown, k, 0, dst, post, dst2, op);
                            }
                        }
                    }
                },
                _ => {},
            }
        },
        ReadState::CopyData { len, off } => {
            lemma_copied_keeps_inv(pre, len as int, off as int, dst, post, dst2, op);
        },
        _ => {},
    }
}

/// The record of a writer with `off` bytes staged and no frame on its way
/// out, whatever its state says.
spec fn write_idle(s: WriteSide, off: int) -> bool {
    &&& s.plain.len() == MAX_WRITE_BUF_LEN
    &&& s.cipher.len() == 2 * MAX_WRITE_BUF_LEN
    &&& 0 <= off <= MAX_WRITE_BUF_LEN
    &&& s.sealed.len() == s.frames.len()
    &&& forall|i: int|
        0 <= i < s.frames.len() ==> 0 < (#[trigger] s.frames[i]).len() <= 2 * MAX_WRITE_BUF_LEN
    &&& forall|i: int|
        0 <= i < s.sealed.len() ==> (#[trigger] s.sealed[i]).len() <= MAX_WRITE_BUF_LEN
    &&& s.accepted == concat(s.sealed) + s.plain.subrange(0, off)
    &&& s.pushed == wire(s.frames)
}

/// Encrypting what is staged keeps the record in agreement with the state.
proof fn lemma_sealed_keeps_inv(pre: WriteSide, len: int, post: WriteSide)
    requires
        write_idle(pre, len),
        write_sealed(pre, len, post),
    ensures
        write_inv(post),
{
    let body = pre.plain.subrange(0, len);
    lemma_concat_push(pre.sealed, body);
    if post.state is EncErr {
        assert(post.accepted =~= concat(post.sealed) + post.plain.subrange(0, 0));
    } else {
        assert(post.frames.drop_last() =~= pre.frames);
        assert(post.accepted =~= concat(post.sealed) + post.plain.subrange(0, 0));
        match post.state {
            WriteState::WriteLen { len: n, buf, off } => {
                assert(post.pushed =~= wire(post.frames.drop_last()) + buf@.subrange(0, 0));
            },
            _ => {},
        }
    }
}

/// Taking plaintext keeps the record in agreement with the state.
proof fn lemma_buffered_keeps_inv(
    pre: WriteSide,
    off: int,
    src: Seq<u8>,
    post: WriteSide,
    op: Step<usize>,
)
    requires
        write_idle(pre, off),
        off < MAX_WRITE_BUF_LEN,
        write_buffered(pre, off, src, post, op),
    ensures
        write_inv(post),
{
    let n = least(MAX_WRITE_BUF_LEN - off, src.len() as int);
    let bytes = src.subrange(0, n);
    let taken = WriteSide {
        plain: splice(pre.plain, off, bytes),
        accepted: pre.accepted + bytes,
        ..pre
    };
    assert(taken.plain.subrange(0, off + n) =~= pre.plain.subrange(0, off) + bytes);
    assert(taken.accepted =~= concat(taken.sealed) + taken.plain.subrange(0, off + n));
    if off + n < MAX_WRITE_BUF_LEN {
    } else {
        lemma_sealed_keeps_inv(taken, MAX_WRITE_BUF_LEN as int, post);
    }
}

/// Driving a frame out keeps the record in agreement with the state, and
/// with the frame's last byte out the writer is idle.
proof fn lemma_wire_step_keeps_inv(pre: WriteSide, event: WriteEvent)
    requires
        write_inv(pre),
        pre.state is WriteLen || pre.state is WriteData,
        event.wrote() <= pre.state.offers(),
    ensures
        write_inv(write_wire_step(pre, event).0),
        write_wire_step(pre, event).1 is Ready ==> write_idle(write_wire_step(pre, event).0, 0),
{
    let (post, op) = write_wire_step(pre, event);
    let done = wire(pre.frames.drop_last());
    let last = pre.frames.last();
    assert(pre.frames.drop_last().push(last) =~= pre.frames);
    lemma_wire_push(pre.frames.drop_last(), last);
    assert(wire(pre.frames) == done + frame(last));
    match pre.state {
        WriteState::WriteLen { len, buf, off } => {
            assert(last.len() == len);
            match event {
                WriteEvent::Wrote(k) => {
                    if k == 0 {
                        assert(pre.pushed.is_prefix_of(wire(pre.frames))) by {
                            assert(buf@.subrange(0, off as int) =~= frame(last).subrange(
                                0,
                                off as int,
                            ));
                            assert(pre.pushed =~= wire(pre.frames).subrange(
                                0,
                                pre.pushed.len() as int,
                            ));
                        }
                    } else {
                        assert(buf@.subrange(0, off as int) + write_offered(pre).subrange(
                            0,
                            k as int,
                        ) =~= buf@.subrange(0, off + k));
                        assert(post.pushed =~= done + buf@.subrange(0, off + k));
                        if off + k == 2 {
                            assert(buf@.subrange(0, 2) =~= len_prefix(len as int));
                            assert(post.pushed =~= done + len_prefix(len as int)
                                + post.cipher.subrange(0, 0));
                        }
                    }
                },
                _ => {},
            }
        },
        WriteState::WriteData { len, off } => {
            assert(last.len() == len);
            match event {
                WriteEvent::Wrote(k) => {
                    if k == 0 {
                        assert(pre.pushed.is_prefix_of(wire(pre.frames))) by {
                            assert(len_prefix(len as int) + pre.cipher.subrange(0, off as int)
                                =~= frame(last).subrange(0, 2 + off));
                            assert(pre.pushed =~= wire(pre.frames).subrange(
                                0,
                                pre.pushed.len() as int,
                            ));
                        }
                    } else {
                        assert(pre.cipher.subrange(0, off as int) + write_offered(pre).subrange(
                            0,
                            k as int,
                        ) =~= pre.cipher.subrange(0, off + k));
                        assert(post.pushed =~= done + len_prefix(len as int)
                            + pre.cipher.subrange(0, off + k));
                        if off + k == len {
                            assert(post.pushed =~= done + frame(last));
                        }
                    }
                },
                _ => {},
            }
        },
        _ => {},
    }
}

/// A step of a write keeps the record in agreement with the state.
pub proof fn lemma_write_step_keeps_inv(
    pre: WriteSide,
    event: WriteEvent,
    src: Seq<u8>,
    post: WriteSide,
    op: Step<usize>,
)
    requires
        write_inv(pre),
        pre.state is WriteLen || pre.state is WriteData ==> event.wrote() <= pre.state.offers(),
        write_step(pre, event, src, post, op),
    ensures
        write_inv(post),
{
    match pre.state {
        WriteState::Init => {
            lemma_buffered_keeps_inv(pre, 0, src, post, op);
        },
        WriteState::BufferData { off } => {
            lemma_buffered_keeps_inv(pre, off as int, src, post, op);
        },
        WriteState::WriteLen { .. } | WriteState::WriteData { .. } => {
            lemma_wire_step_keeps_inv(pre, event);
            let (mid, wire_op) = write_wire_step(pre, event);
            if wire_op is Ready {
                lemma_buffered_keeps_inv(mid, 0, src, post, op);
            }
        },
        _ => {},
    }
}

/// A step of a flush keeps the record in agreement with the state.
pub proof fn lemma_flush_step_keeps_inv(
    pre: WriteSide,
    event: WriteEvent,
    post: WriteSide,
    op: Step<()>,
)
    requires
        write_inv(pre),
        pre.state is WriteLen || pre.state is WriteData ==> event.wrote() <= pre.state.offers(),
        flush_step(pre, event, post, op),
    ensures
        write_inv(post),
{
    match pre.state {
        WriteState::BufferData { off } => {
            lemma_sealed_keeps_inv(pre, off as int, post);
        },
        WriteState::WriteLen { .. } | WriteState::WriteData { .. } => {
            lemma_wire_step_keeps_inv(pre, event);
        },
        _ => {},
    }
}

/// The wire carries frames and nothing else. Whatever has been written so
/// far, the bytes that the transport has taken begin the run of the frames
/// of the ciphertexts that the session returned, in order; no ciphertext is
/// longer than a frame can carry, and each is that of a plaintext of at most
/// `MAX_WRITE_BUF_LEN` bytes. Every plaintext handed to the session has its
/// ciphertext, but for one that the session refused, which is the last.
pub proof fn lemma_wire_is_frames(w: WriteSide)
    requires
        write_inv(w),
    ensures
        w.pushed.is_prefix_of(wire(w.frames)),
        w.frames.len() <= w.sealed.len() <= w.frames.len() + 1,
        forall|i: int|
            0 <= i < w.frames.len() ==> (#[trigger] w.frames[i]).len() <= MAX_NOISE_PKG_LEN,
        forall|i: int|
            0 <= i < w.sealed.len() ==> (#[trigger] w.sealed[i]).len() <= MAX_WRITE_BUF_LEN,
{
    match w.state {
        WriteState::WriteLen { len, buf, off } => {
            let last = w.frames.last();
            assert(w.frames.drop_last().push(last) =~= w.frames);
            lemma_wire_push(w.frames.drop_last(), last);
            assert(buf@.subrange(0, off as int) =~= frame(last).subrange(0, off as int));
            assert(w.pushed =~= wire(w.frames).subrange(0, w.pushed.len() as int));
        },
        WriteState::WriteData { len, off } => {
            let last = w.frames.last();
            assert(w.frames.drop_last().push(last) =~= w.frames);
            lemma_wire_push(w.frames.drop_last(), last);
            assert(len_prefix(len as int) + w.cipher.subrange(0, off as int) =~= frame(
                last,
            ).subrange(0, 2 + off));
            assert(w.pushed =~= wire(w.frames).subrange(0, w.pushed.len() as int));
        },
        _ => {},
    }
}

/// The session is handed frames and nothing else. Whatever has been read so
/// far, each ciphertext that the session was asked to decrypt is the body of
/// one frame in the bytes taken from the transport, each frame's body was
/// handed over once, in order, and none is longer than a frame can carry.
pub proof fn lemma_opened_are_frames(r: ReadSide)
    requires
        read_inv(r),
    ensures
        r.opened == bodies(r.pulled),
        framable(r.opened),
{
    lemma_bodies_fit(r.pulled);
}

/// The caller is handed plaintext and nothing else. Whatever has been read
/// so far, the bytes handed to the caller begin the run of the plaintexts
/// that the session returned, in order.
pub proof fn lemma_delivered_is_plaintext(r: ReadSide)
    requires
        read_inv(r),
    ensures
        r.delivered.is_prefix_of(concat(r.revealed)),
{
    match r.state {
        ReadState::CopyData { len, off } => {
            let before = concat(r.revealed.drop_last());
            assert(concat(r.revealed) == before + r.revealed.last());
            assert(r.plain.subrange(0, off as int) =~= r.revealed.last().subrange(0, off as int));
            assert(r.delivered =~= concat(r.revealed).subrange(0, r.delivered.len() as int));
        },
        _ => {},
    }
}

/// Round trip. Take a writer and a reader whose sessions are paired, and let
/// the reader have been fed some beginning of the bytes that the writer gave
/// to its transport. Then the reader's session was handed the writer's
/// ciphertexts, in order, and what the reader has handed out is a beginning
/// of what the writer has taken: in order, nothing inserted. And once the
/// writer is flushed, the reader has been fed all of it and is not in the
/// middle of handing out, the two are the same: nothing is missing. How the
/// bytes were split over calls of `poll_write`, where flushes fell, and how
/// the transport cut them up, makes no difference.
pub proof fn lemma_round_trip(w: WriteSide, r: ReadSide)
    requires
        write_inv(w),
        read_inv(r),
        paired(w, r),
        r.pulled.is_prefix_of(w.pushed),
    ensures
        r.opened.is_prefix_of(w.frames),
        r.delivered.is_prefix_of(w.accepted),
        r.pulled == w.pushed && w.state is Init && (r.state is Init || r.state is ReadLen)
            ==> r.delivered == w.accepted,
{
    lemma_wire_is_frames(w);
    assert(framable_but_last(w.frames));
    assert(r.pulled.is_prefix_of(wire(w.frames)));
    lemma_bodies_of_open_wire_part(r.pulled, w.frames);
    assert(r.revealed.len() <= r.opened.len());
    assert(r.revealed.is_prefix_of(w.sealed)) by {
        assert forall|i: int| 0 <= i < r.revealed.len() implies r.revealed[i] == w.sealed[i] by {
            assert(r.opened[i] == w.frames.subrange(0, r.opened.len() as int)[i]);
        }
        assert(r.revealed =~= w.sealed.subrange(0, r.revealed.len() as int));
    }
    lemma_concat_prefix(r.revealed, w.sealed);
    lemma_delivered_is_plaintext(r);
    let shown = concat(r.revealed);
    let taken = concat(w.sealed);
    assert(taken =~= w.accepted.subrange(0, taken.len() as int));
    assert(r.delivered.is_prefix_of(w.accepted)) by {
        assert(r.delivered =~= shown.subrange(0, r.delivered.len() as int));
        assert(shown =~= taken.subrange(0, shown.len() as int));
        assert(r.delivered =~= w.accepted.subrange(0, r.delivered.len() as int));
    }
    if r.pulled == w.pushed && w.state is Init && (r.state is Init || r.state is ReadLen) {
        assert(framable(w.frames));
        lemma_bodies_of_wire(w.frames);
        assert(r.revealed =~= w.sealed);
        assert(w.accepted =~= taken);
    }
}

/// Round trip, of two adapters: see `lemma_round_trip`.
pub proof fn lemma_adapters_round_trip(writer: &NoiseOutput, reader: &NoiseOutput)
    requires
        writer.wf(),
        reader.wf(),
        paired(writer.write_side(), reader.read_side()),
        reader.read_side().pulled.is_prefix_of(writer.write_side().pushed),
    ensures
        reader.read_side().delivered.is_prefix_of(writer.write_side().accepted),
        reader.read_side().pulled == writer.write_side().pushed && writer.write_side().state is Init
            && (reader.read_side().state is Init || reader.read_side().state is ReadLen)
            ==> reader.read_side().delivered == writer.write_side().accepted,
{
    lemma_round_trip(writer.write_side(), reader.read_side());
}

/// A frame that does not decrypt stays hidden. The step on which the session
/// refuses a frame hands nothing to the caller and ends reading; the record
/// of plaintexts does not grow, and what the caller has been handed is made
/// of the plaintexts of earlier frames alone.
pub proof fn lemma_failed_frame_stays_hidden(
    pre: ReadSide,
    event: ReadEvent<'_>,
    dst: Seq<u8>,
    post: ReadSide,
    dst2: Seq<u8>,
    op: Step<usize>,
)
    requires
        read_inv(pre),
        pre.state is ReadLen || pre.state is ReadData ==> event.data().len() <= pre.state.wants(),
        read_step(pre, event, dst, post, dst2, op),
        post.state is DecErr,
    ensures
        op == Step::<usize>::Failed(Fault::InvalidData),
        dst2 == dst,
        post.revealed == pre.revealed,
        post.delivered == pre.delivered,
        post.delivered == concat(post.revealed),
{
    lemma_read_step_keeps_inv(pre, event, dst, post, dst2, op);
}

/// Once reading is over it stays over: whatever a call is handed, it changes
/// nothing and answers as the call before it did.
pub proof fn lemma_read_end_is_final(
    pre: ReadSide,
    event: ReadEvent<'_>,
    dst: Seq<u8>,
    post: ReadSide,
    dst2: Seq<u8>,
    op: Step<usize>,
)
    requires
        pre.state.is_terminal(),
        read_step(pre, event, dst, post, dst2, op),
    ensures
        post == pre,
        dst2 == dst,
        op == read_verdict(pre.state),
{
}

/// Once writing is over it stays over: whatever a call of `poll_write` is
/// handed, it changes nothing and fails as the call before it did.
pub proof fn lemma_write_end_is_final(
    pre: WriteSide,
    event: WriteEvent,
    src: Seq<u8>,
    post: WriteSide,
    op: Step<usize>,
)
    requires
        pre.state.is_terminal(),
        write_step(pre, event, src, post, op),
    ensures
        post == pre,
        op == Step::<usize>::Failed(write_verdict(pre.state)),
{
}

/// Once writing is over it stays over: whatever a call of `poll_flush` is
/// handed, it changes nothing and fails as a call of `poll_write` does.
pub proof fn lemma_flush_end_is_final(pre: WriteSide, event: WriteEvent, post: WriteSide, op: Step<()>)
    requires
        pre.state.is_terminal(),
        flush_step(pre, event, post, op),
    ensures
        post == pre,
        op == Step::<()>::Failed(write_verdict(pre.state)),
{
}

/// A read that the transport holds up or fails loses nothing. While the
/// reader waits for the transport, a step with `Pending` or `Failed` changes
/// nothing, and the call that comes next asks the transport for the same
/// bytes from the same state: it goes on as if the transport had answered
/// at once.
pub proof fn lemma_read_resumes(
    pre: ReadSide,
    event: ReadEvent<'_>,
    dst: Seq<u8>,
    mid: ReadSide,
    dst1: Seq<u8>,
    op1: Step<usize>,
    post: ReadSide,
    dst2: Seq<u8>,
    op2: Step<usize>,
)
    requires
        pre.state is ReadLen || pre.state is ReadData,
        event is Pending || event is Failed,
        read_step(pre, event, dst, mid, dst1, op1),
        read_step(mid, ReadEvent::Enter, dst1, post, dst2, op2),
    ensures
        op1 == if event is Pending {
            Step::<usize>::Pending
        } else {
            Step::<usize>::Failed(Fault::Transport)
        },
        mid == pre,
        post == pre,
        dst2 == dst,
        op2 == Step::<usize>::Io(pre.state.wants() as usize),
{
}

/// A write that the transport holds up or fails loses nothing. While a frame
/// is on its way out, a step with `Pending` or `Failed` changes nothing, and
/// the call that comes next offers the transport the same bytes from the
/// same state.
pub proof fn lemma_write_resumes(
    pre: WriteSide,
    event: WriteEvent,
    src: Seq<u8>,
    mid: WriteSide,
    op1: Step<usize>,
    post: WriteSide,
    op2: Step<usize>,
)
    requires
        pre.state is WriteLen || pre.state is WriteData,
        event is Pending || event is Failed,
        write_step(pre, event, src, mid, op1),
        write_step(mid, WriteEvent::Enter, src, post, op2),
    ensures
        op1 == if event is Pending {
            Step::<usize>::Pending
        } else {
            Step::<usize>::Failed(Fault::Transport)
        },
        mid == pre,
        post == pre,
        write_offered(post) == write_offered(pre),
        op2 == Step::<usize>::Io(pre.state.offers() as usize),
{
}

/// A flush that the transport holds up or fails loses nothing: as
/// `lemma_write_resumes`.
pub proof fn lemma_flush_resumes(
    pre: WriteSide,
    event: WriteEvent,
    mid: WriteSide,
    op1: Step<()>,
    post: WriteSide,
    op2: Step<()>,
)
    requires
        pre.state is WriteLen || pre.state is WriteData,
        event is Pending || event is Failed,
        flush_step(pre, event, mid, op1),
        flush_step(mid, WriteEvent::Enter, post, op2),
    ensures
        op1 == if event is Pending {
            Step::<()>::Pending
        } else {
            Step::<()>::Failed(Fault::Transport)
        },
        mid == pre,
        post == pre,
        op2 == Step::<()>::Io(pre.state.offers() as usize),
{
}

/// A write takes the front of what it is offered. When a step of a write
/// answers `Ready(n)`, it has taken the first `n` bytes of `src` and no
/// others; what is left to offer next is `src` from `n` on.
pub proof fn lemma_write_takes_front(
    pre: WriteSide,
    event: WriteEvent,
    src: Seq<u8>,
    post: WriteSide,
    op: Step<usize>,
)
    requires
        write_wf(pre),
        write_step(pre, event, src, post, op),
        op is Ready,
    ensures
        op->Ready_0 <= src.len(),
        post.accepted == pre.accepted + src.subrange(0, op->Ready_0 as int),
{
}

/// A flush with nothing staged is complete at once and changes nothing:
/// nothing is encrypted, and nothing is offered to the transport.
pub proof fn lemma_empty_flush(pre: WriteSide, event: WriteEvent, post: WriteSide, op: Step<()>)
    requires
        pre.state is Init,
        flush_step(pre, event, post, op),
    ensures
        op == Step::Ready(()),
        post == pre,
        write_offered(post) == Seq::<u8>::empty(),
{
}

/// A full accumulator is one frame. A write of exactly `MAX_WRITE_BUF_LEN`
/// bytes with nothing staged takes all of them and has them encrypted at
/// once, as one plaintext, with no flush; the frame's prefix is then next to
/// go out. Of a longer `src` the same call takes the first
/// `MAX_WRITE_BUF_LEN` bytes and no more.
pub proof fn lemma_full_write_is_one_frame(
    pre: WriteSide,
    event: WriteEvent,
    src: Seq<u8>,
    post: WriteSide,
    op: Step<usize>,
)
    requires
        write_wf(pre),
        pre.state is Init,
        src.len() >= MAX_WRITE_BUF_LEN,
        write_step(pre, event, src, post, op),
        !(post.state is EncErr),
    ensures
        op == Step::Ready(MAX_WRITE_BUF_LEN),
        post.sealed == pre.sealed.push(src.subrange(0, MAX_WRITE_BUF_LEN as int)),
        post.frames.len() == pre.frames.len() + 1,
        post.state is WriteLen,
        post.state.offers() == 2,
{
    let bytes = src.subrange(0, MAX_WRITE_BUF_LEN as int);
    assert(splice(pre.plain, 0, bytes).subrange(0, MAX_WRITE_BUF_LEN as int) =~= bytes);
}

/// A frame of no plaintext is passed over. When the session decrypts a
/// frame to nothing, the step hands the caller no bytes and the reader
/// awaits the next frame.
pub proof fn lemma_empty_plaintext_is_passed_over(
    pre: ReadSide,
    event: ReadEvent<'_>,
    dst: Seq<u8>,
    post: ReadSide,
    dst2: Seq<u8>,
    op: Step<usize>,
)
    requires
        read_inv(pre),
        pre.state is ReadLen || pre.state is ReadData ==> event.data().len() <= pre.state.wants(),
        read_step(pre, event, dst, post, dst2, op),
        post.revealed.len() == pre.revealed.len() + 1,
        post.revealed.last().len() == 0,
    ensures
        op == Step::Ready(0usize),
        dst2 == dst,
        post.delivered == pre.delivered,
        post.state == ReadState::fresh(),
{
    assert(dst2 =~= dst);
    assert(post.delivered =~= pre.delivered);
}

/// A read asks for what its state wants. When a step of a read answers
/// `Io(n)`, the reader waits for the transport, `n` is the number of bytes
/// that its state wants, and that is at least one.
pub proof fn lemma_read_asks_what_it_wants(
    pre: ReadSide,
    event: ReadEvent<'_>,
    dst: Seq<u8>,
    post: ReadSide,
    dst2: Seq<u8>,
    op: Step<usize>,
)
    requires
        read_wf(pre),
        pre.state is ReadLen || pre.state is ReadData ==> event.data().len() <= pre.state.wants(),
        read_step(pre, event, dst, post, dst2, op),
        op is Io,
    ensures
        post.state is ReadLen || post.state is ReadData,
        op->Io_0 == post.state.wants(),
        op->Io_0 >= 1,
{
    match pre.state {
        ReadState::ReadLen { buf, off } => {
            match event {
                ReadEvent::Data(d) => {
                    if d@.len() != 0 && off + d@.len() == 2 {
                        lemma_len_roundtrip(splice(buf@, off as int, d@));
                    }
                },
                _ => {},
            }
        },
        _ => {},
    }
}

/// A write offers what its state holds. When a step of a write answers
/// `Io(n)`, a frame is on its way out and `n` is the number of bytes on
/// offer.
pub proof fn lemma_write_offers_what_it_holds(
    pre: WriteSide,
    event: WriteEvent,
    src: Seq<u8>,
    post: WriteSide,
    op: Step<usize>,
)
    requires
        write_wf(pre),
        pre.state is WriteLen || pre.state is WriteData ==> event.wrote() <= pre.state.offers(),
        write_step(pre, event, src, post, op),
        op is Io,
    ensures
        post.state is WriteLen || post.state is WriteData,
        op->Io_0 == post.state.offers(),
        op->Io_0 == write_offered(post).len(),
{
}

/// A flush offers what its state holds: as `lemma_write_offers_what_it_holds`.
pub proof fn lemma_flush_offers_what_it_holds(
    pre: WriteSide,
    event: WriteEvent,
    post: WriteSide,
    op: Step<()>,
)
    requires
        write_wf(pre),
        pre.state is WriteLen || pre.state is WriteData ==> event.wrote() <= pre.state.offers(),
        flush_step(pre, event, post, op),
        op is Io,
    ensures
        post.state is WriteLen || post.state is WriteData,
        op->Io_0 == post.state.offers(),
        op->Io_0 == write_offered(post).len(),
{
}

/// A complete flush leaves nothing behind. When a step of a flush answers
/// `Ready`, nothing is staged and no frame is on its way out: every byte
/// taken from the caller has been encrypted, and the transport has taken the
/// frames of all the ciphertexts, whole. The step itself encrypted nothing.
pub proof fn lemma_flush_ready_means_on_the_wire(
    pre: WriteSide,
    event: WriteEvent,
    post: WriteSide,
    op: Step<()>,
)
    requires
        write_inv(pre),
        pre.state is WriteLen || pre.state is WriteData ==> event.wrote() <= pre.state.offers(),
        flush_step(pre, event, post, op),
        op is Ready,
    ensures
        post.state is Init,
        post.sealed == pre.sealed,
        post.frames == pre.frames,
        post.accepted == concat(post.sealed),
        post.pushed == wire(post.frames),
{
    lemma_flush_step_keeps_inv(pre, event, post, op);
    assert(post.accepted =~= concat(post.sealed));
}

/// A read fills the front of what it is offered. When a step of a read
/// answers `Ready(n)`, the first `n` bytes of `dst` are the next `n` bytes
/// of plaintext, and the rest of `dst` is as it was.
pub proof fn lemma_read_fills_front(
    pre: ReadSide,
    event: ReadEvent<'_>,
    dst: Seq<u8>,
    post: ReadSide,
    dst2: Seq<u8>,
    op: Step<usize>,
)
    requires
        read_inv(pre),
        pre.state is ReadLen || pre.state is ReadData ==> event.data().len() <= pre.state.wants(),
        read_step(pre, event, dst, post, dst2, op),
        op is Ready,
    ensures
        op->Ready_0 <= dst.len(),
        dst2.len() == dst.len(),
        post.delivered == pre.delivered + dst2.subrange(0, op->Ready_0 as int),
        dst2.subrange(op->Ready_0 as int, dst.len() as int) == dst.subrange(
            op->Ready_0 as int,
            dst.len() as int,
        ),
{
    let n = op->Ready_0 as int;
    lemma_read_step_keeps_inv(pre, event, dst, post, dst2, op);
    match pre.state {
        ReadState::CopyData { len, off } => {
            let bytes = pre.plain.subrange(off as int, off + n);
            assert(dst2.subrange(0, n) =~= bytes);
            assert(dst2.subrange(n, dst.len() as int) =~= dst.subrange(n, dst.len() as int));
        },
        ReadState::ReadData { len, off } => {
            let bytes = post.plain.subrange(0, n);
            assert(dst2.subrange(0, n) =~= bytes);
            assert(dst2.subrange(n, dst.len() as int) =~= dst.subrange(n, dst.len() as int));
        },
        _ => {
            assert(pre.delivered + dst2.subrange(0, 0) =~= pre.delivered);
        },
    }
}

} // verus!
