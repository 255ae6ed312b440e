//! What the two directions do, as relations between the state before a call
//! and the state after it.
//!
//! Each direction is modelled by its state, by the two regions of the arena
//! that it owns, and by a record of everything that has crossed its borders:
//! the bytes exchanged with the transport, the buffers handed to the session
//! and what the session gave back, and the bytes exchanged with the caller.

use crate::frame::{
    frame_len, len_prefix, splice, Fault, ReadEvent, Step, WriteEvent, MAX_NOISE_PKG_LEN,
    MAX_WRITE_BUF_LEN,
};
use crate::state::{ReadState, WriteState};
use crate::wire::{bodies, concat, tail, wire};
use vstd::prelude::*;

verus! {

/// The reading direction.
pub struct ReadSide {
    /// Where the state machine stands.
    pub state: ReadState,
    /// The region that stages one frame of ciphertext.
    pub cipher: Seq<u8>,
    /// The region that holds the plaintext of that frame.
    pub plain: Seq<u8>,
    /// Every byte taken from the transport, in order.
    pub pulled: Seq<u8>,
    /// Every ciphertext handed to the session for decryption, in order.
    pub opened: Seq<Seq<u8>>,
    /// The plaintext of every ciphertext that did decrypt, in order.
    pub revealed: Seq<Seq<u8>>,
    /// Every byte handed to the caller, in order.
    pub delivered: Seq<u8>,
}

/// The writing direction.
pub struct WriteSide {
    /// Where the state machine stands.
    pub state: WriteState,
    /// The region that accumulates plaintext.
    pub plain: Seq<u8>,
    /// The region that stages one frame of ciphertext.
    pub cipher: Seq<u8>,
    /// Every byte taken from the caller, in order.
    pub accepted: Seq<u8>,
    /// Every plaintext handed to the session for encryption, in order.
    pub sealed: Seq<Seq<u8>>,
    /// The ciphertext of every plaintext that did encrypt, in order.
    pub frames: Seq<Seq<u8>>,
    /// Every byte that the transport took, in order.
    pub pushed: Seq<u8>,
}

/// What has crossed the borders of the reading direction.
pub struct ReadLog {
    /// Every byte taken from the transport, in order.
    pub pulled: Seq<u8>,
    /// Every ciphertext handed to the session for decryption, in order.
    pub opened: Seq<Seq<u8>>,
    /// The plaintext of every ciphertext that did decrypt, in order.
    pub revealed: Seq<Seq<u8>>,
    /// Every byte handed to the caller, in order.
    pub delivered: Seq<u8>,
}

/// What has crossed the borders of the writing direction.
pub struct WriteLog {
    /// Every byte taken from the caller, in order.
    pub accepted: Seq<u8>,
    /// Every plaintext handed to the session for encryption, in order.
    pub sealed: Seq<Seq<u8>>,
    /// The ciphertext of every plaintext that did encrypt, in order.
    pub frames: Seq<Seq<u8>>,
    /// Every byte that the transport took, in order.
    pub pushed: Seq<u8>,
}

/// The smaller of two numbers.
pub open spec fn least(a: int, b: int) -> int {
    if a <= b {
        a
    } else {
        b
    }
}

/// Handing out plaintext: of the `len` bytes in the plaintext region, `off`
/// have been delivered and `dst` is offered for more. As many bytes go out
/// as are left and fit, to the front of `dst`; the call is then complete,
/// whether or not `dst` is full. With the last byte out, the next frame is
/// awaited.
pub open spec fn read_copied(
    pre: ReadSide,
    len: int,
    off: int,
    dst: Seq<u8>,
    post: ReadSide,
    dst2: Seq<u8>,
    op: Step<usize>,
) -> bool {
    let n = least(len - off, dst.len() as int);
    let bytes = pre.plain.subrange(off, off + n);
    &&& op == Step::Ready(n as usize)
    &&& dst2 == splice(dst, 0, bytes)
    &&& post == (ReadSide {
        state: if off + n == len {
            ReadState::fresh()
        } else {
            ReadState::CopyData { len: len as usize, off: (off + n) as usize }
        },
        delivered: pre.delivered + bytes,
        ..pre
    })
}

/// Taking the transport's answer while the length prefix is read.
pub open spec fn read_len_step(
    pre: ReadSide,
    buf: [u8; 2],
    off: int,
    event: ReadEvent<'_>,
    post: ReadSide,
    op: Step<usize>,
) -> bool {
    match event {
        ReadEvent::Enter => post == pre && op == Step::<usize>::Io((2 - off) as usize),
        ReadEvent::Pending => post == pre && op == Step::<usize>::Pending,
        ReadEvent::Failed => post == pre && op == Step::<usize>::Failed(Fault::Transport),
        ReadEvent::Data(d) => {
            let got = off + d@.len();
            let prefix = splice(buf@, off, d@);
            if d@.len() == 0 {
                // end of stream: clean between two frames, unexpected within a prefix
                if off == 0 {
                    &&& post == (ReadSide { state: ReadState::Eof(Ok(())), ..pre })
                    &&& op == Step::Ready(0usize)
                } else {
                    &&& post == (ReadSide { state: ReadState::Eof(Err(())), ..pre })
                    &&& op == Step::<usize>::Failed(Fault::UnexpectedEof)
                }
            } else if got < 2 {
                &&& post == (ReadSide { state: post.state, pulled: pre.pulled + d@, ..pre })
                &&& post.state matches ReadState::ReadLen { buf: b, off: o }
                &&& b@ == prefix
                &&& o == got
                &&& op == Step::<usize>::Io((2 - got) as usize)
            } else if frame_len(prefix) == 0 {
                // an empty frame is absorbed
                &&& post == (ReadSide { state: ReadState::fresh(), pulled: pre.pulled + d@, ..pre })
                &&& op == Step::<usize>::Io(2)
            } else {
                &&& post == (ReadSide {
                    state: ReadState::ReadData { len: frame_len(prefix) as usize, off: 0 },
                    pulled: pre.pulled + d@,
                    ..pre
                })
                &&& op == Step::<usize>::Io(frame_len(prefix) as usize)
            }
        },
    }
}

/// Taking the transport's answer while a frame's ciphertext is read. With
/// the last byte of the frame in, the session is asked once to decrypt it,
/// and the plaintext starts to go out to `dst` in the same call.
pub open spec fn read_data_step(
    pre: ReadSide,
    len: int,
    off: int,
    event: ReadEvent<'_>,
    dst: Seq<u8>,
    post: ReadSide,
    dst2: Seq<u8>,
    op: Step<usize>,
) -> bool {
    match event {
        ReadEvent::Enter => post == pre && dst2 == dst && op == Step::<usize>::Io(
            (len - off) as usize,
        ),
        ReadEvent::Pending => post == pre && dst2 == dst && op == Step::<usize>::Pending,
        ReadEvent::Failed => post == pre && dst2 == dst && op == Step::<usize>::Failed(
            Fault::Transport,
        ),
        ReadEvent::Data(d) => {
            let got = off + d@.len();
            let staged = splice(pre.cipher, off, d@);
            if d@.len() == 0 {
                &&& post == (ReadSide { state: ReadState::Eof(Err(())), ..pre })
                &&& dst2 == dst
                &&& op == Step::<usize>::Failed(Fault::UnexpectedEof)
            } else if got < len {
                &&& post == (ReadSide {
                    state: ReadState::ReadData { len: len as usize, off: got as usize },
                    cipher: staged,
                    pulled: pre.pulled + d@,
                    ..pre
                })
                &&& dst2 == dst
                &&& op == Step::<usize>::Io((len - got) as usize)
            } else {
                let mid = ReadSide {
                    cipher: staged,
                    pulled: pre.pulled + d@,
                    opened: pre.opened.push(staged.subrange(0, len)),
                    ..pre
                };
                read_opened(mid, dst, post, dst2, op)
            }
        },
    }
}

/// What may follow the one attempt to decrypt a frame, whatever the session
/// answers. Either it refuses: reading is over, and nothing reaches `dst`.
/// Or it leaves some plaintext at the front of the plaintext region: that
/// plaintext is recorded and starts to go out.
pub open spec fn read_opened(
    mid: ReadSide,
    dst: Seq<u8>,
    post: ReadSide,
    dst2: Seq<u8>,
    op: Step<usize>,
) -> bool {
    ||| {
        &&& post == (ReadSide { state: ReadState::DecErr, plain: post.plain, ..mid })
        &&& post.plain.len() == mid.plain.len()
        &&& dst2 == dst
        &&& op == Step::<usize>::Failed(Fault::InvalidData)
    }
    ||| {
        &&& post.revealed.len() == mid.revealed.len() + 1
        &&& post.plain.len() == mid.plain.len()
        &&& post.revealed.last().len() <= post.plain.len()
        &&& read_copied(
            ReadSide {
                plain: post.plain,
                revealed: mid.revealed.push(
                    post.plain.subrange(0, post.revealed.last().len() as int),
                ),
                ..mid
            },
            post.revealed.last().len() as int,
            0,
            dst,
            post,
            dst2,
            op,
        )
    }
}

/// One call of `poll_read`: from `pre`, with the transport's answer `event`
/// and the caller's buffer `dst`, to `post`, with `dst2` in the caller's
/// buffer and `op` returned.
///
/// The answer of the transport counts only in the two states that asked the
/// transport for bytes.
pub open spec fn read_step(
    pre: ReadSide,
    event: ReadEvent<'_>,
    dst: Seq<u8>,
    post: ReadSide,
    dst2: Seq<u8>,
    op: Step<usize>,
) -> bool {
    match pre.state {
        ReadState::Init => {
            &&& post == (ReadSide { state: ReadState::fresh(), ..pre })
            &&& dst2 == dst
            &&& op == Step::<usize>::Io(2)
        },
        ReadState::ReadLen { buf, off } => {
            &&& read_len_step(pre, buf, off as int, event, post, op)
            &&& dst2 == dst
        },
        ReadState::ReadData { len, off } => read_data_step(
            pre,
            len as int,
            off as int,
            event,
            dst,
            post,
            dst2,
            op,
        ),
        ReadState::CopyData { len, off } => read_copied(
            pre,
            len as int,
            off as int,
            dst,
            post,
            dst2,
            op,
        ),
        ReadState::Eof(Ok(())) => post == pre && dst2 == dst && op == Step::Ready(0usize),
        ReadState::Eof(Err(())) => post == pre && dst2 == dst && op == Step::<usize>::Failed(
            Fault::UnexpectedEof,
        ),
        ReadState::DecErr => post == pre && dst2 == dst && op == Step::<usize>::Failed(
            Fault::InvalidData,
        ),
    }
}

/// What follows the one attempt to encrypt the first `len` staged bytes,
/// whatever the session answers. That plaintext is recorded as handed to the
/// session. Then either the session refuses: writing is over. Or it leaves a
/// ciphertext at the front of the ciphertext region: the ciphertext is
/// recorded, and the frame's prefix is next to be written. Which of the two
/// it is follows the session's answer as `after_seal` says.
pub open spec fn write_sealed(pre: WriteSide, len: int, post: WriteSide) -> bool {
    let handed = pre.sealed.push(pre.plain.subrange(0, len));
    ||| {
        &&& post == (WriteSide {
            state: WriteState::EncErr,
            cipher: post.cipher,
            sealed: handed,
            ..pre
        })
        &&& post.cipher.len() == pre.cipher.len()
    }
    ||| {
        &&& post.state matches WriteState::WriteLen { len: n, buf, off }
        &&& n <= post.cipher.len()
        &&& n <= MAX_NOISE_PKG_LEN
        &&& buf@ == len_prefix(n as int)
        &&& off == 0
        &&& post.cipher.len() == pre.cipher.len()
        &&& post == (WriteSide {
            state: post.state,
            cipher: post.cipher,
            sealed: handed,
            frames: pre.frames.push(post.cipher.subrange(0, n as int)),
            ..pre
        })
    }
}

/// Taking plaintext: `off` bytes are staged and `src` is offered. As many
/// bytes are taken as fit, from the front of `src`, and the caller is told
/// how many. When that fills the accumulator, the session is asked once to
/// encrypt all of it.
pub open spec fn write_buffered(
    pre: WriteSide,
    off: int,
    src: Seq<u8>,
    post: WriteSide,
    op: Step<usize>,
) -> bool {
    let n = least(MAX_WRITE_BUF_LEN - off, src.len() as int);
    let bytes = src.subrange(0, n);
    let taken = WriteSide {
        plain: splice(pre.plain, off, bytes),
        accepted: pre.accepted + bytes,
        ..pre
    };
    if off + n < MAX_WRITE_BUF_LEN {
        &&& post == (WriteSide { state: WriteState::BufferData { off: (off + n) as usize }, ..taken })
        &&& op == Step::Ready(n as usize)
    } else {
        &&& write_sealed(taken, MAX_WRITE_BUF_LEN as int, post)
        &&& op == if post.state is EncErr {
            Step::<usize>::Failed(Fault::InvalidData)
        } else {
            Step::Ready(n as usize)
        }
    }
}

/// The bytes on offer to the transport: the unwritten part of the prefix,
/// or the unwritten part of the ciphertext.
pub open spec fn write_offered(s: WriteSide) -> Seq<u8> {
    match s.state {
        WriteState::WriteLen { len, buf, off } => buf@.subrange(off as int, 2),
        WriteState::WriteData { len, off } => s.cipher.subrange(off as int, len as int),
        _ => Seq::empty(),
    }
}

/// Taking the transport's answer while a frame is written: the state after
/// it, and what the frame's progress amounts to. `Ready` says that the last
/// byte of the frame is out; nothing is staged then.
///
/// Of the bytes on offer the transport takes some from the front.
pub open spec fn write_wire_step(pre: WriteSide, event: WriteEvent) -> (WriteSide, Step<()>) {
    match pre.state {
        WriteState::WriteLen { len, buf, off } => match event {
            WriteEvent::Enter => (pre, Step::Io((2 - off) as usize)),
            WriteEvent::Pending => (pre, Step::Pending),
            WriteEvent::Failed => (pre, Step::Failed(Fault::Transport)),
            WriteEvent::Wrote(k) => if k == 0 {
                (WriteSide { state: WriteState::Eof, ..pre }, Step::Failed(Fault::WriteZero))
            } else if off + k < 2 {
                (
                    WriteSide {
                        state: WriteState::WriteLen { len, buf, off: (off + k) as usize },
                        pushed: pre.pushed + write_offered(pre).subrange(0, k as int),
                        ..pre
                    },
                    Step::Io((2 - off - k) as usize),
                )
            } else {
                (
                    WriteSide {
                        state: WriteState::WriteData { len, off: 0 },
                        pushed: pre.pushed + write_offered(pre).subrange(0, k as int),
                        ..pre
                    },
                    Step::Io(len),
                )
            },
        },
        WriteState::WriteData { len, off } => match event {
            WriteEvent::Enter => (pre, Step::Io((len - off) as usize)),
            WriteEvent::Pending => (pre, Step::Pending),
            WriteEvent::Failed => (pre, Step::Failed(Fault::Transport)),
            WriteEvent::Wrote(k) => if k == 0 {
                (WriteSide { state: WriteState::Eof, ..pre }, Step::Failed(Fault::WriteZero))
            } else if off + k < len {
                (
                    WriteSide {
                        state: WriteState::WriteData { len, off: (off + k) as usize },
                        pushed: pre.pushed + write_offered(pre).subrange(0, k as int),
                        ..pre
                    },
                    Step::Io((len - off - k) as usize),
                )
            } else {
                (
                    WriteSide {
                        state: WriteState::Init,
                        pushed: pre.pushed + write_offered(pre).subrange(0, k as int),
                        ..pre
                    },
                    Step::Ready(()),
                )
            },
        },
        _ => (pre, Step::Ready(())),
    }
}

/// One call of `poll_write`: from `pre`, with the transport's answer `event`
/// and the caller's bytes `src`, to `post`, with `op` returned.
///
/// While a frame is on its way out, the call drives that frame; only with
/// its last byte out does it turn to `src`. The answer of the transport
/// counts only in the two states that offered the transport bytes.
pub open spec fn write_step(
    pre: WriteSide,
    event: WriteEvent,
    src: Seq<u8>,
    post: WriteSide,
    op: Step<usize>,
) -> bool {
    match pre.state {
        WriteState::Init => write_buffered(pre, 0, src, post, op),
        WriteState::BufferData { off } => write_buffered(pre, off as int, src, post, op),
        WriteState::WriteLen { .. } | WriteState::WriteData { .. } => {
            let (mid, wire) = write_wire_step(pre, event);
            match wire {
                Step::Ready(_) => write_buffered(mid, 0, src, post, op),
                Step::Io(n) => post == mid && op == Step::<usize>::Io(n),
                Step::Pending => post == mid && op == Step::<usize>::Pending,
                Step::Failed(fault) => post == mid && op == Step::<usize>::Failed(fault),
            }
        },
        WriteState::Eof => post == pre && op == Step::<usize>::Failed(Fault::WriteZero),
        WriteState::EncErr => post == pre && op == Step::<usize>::Failed(Fault::InvalidData),
    }
}

/// One call of `poll_flush`: from `pre`, with the transport's answer
/// `event`, to `post`, with `op` returned.
///
/// With nothing staged there is nothing to do. Staged plaintext, of whatever
/// length, is encrypted once and becomes a frame. A frame on its way out is
/// driven on; with its last byte out the flush is complete.
pub open spec fn flush_step(pre: WriteSide, event: WriteEvent, post: WriteSide, op: Step<()>) -> bool {
    match pre.state {
        WriteState::Init => post == pre && op == Step::Ready(()),
        WriteState::BufferData { off } => {
            &&& write_sealed(pre, off as int, post)
            &&& op == if post.state is EncErr {
                Step::<()>::Failed(Fault::InvalidData)
            } else {
                Step::<()>::Io(2)
            }
        },
        WriteState::WriteLen { .. } | WriteState::WriteData { .. } => (post, op) == write_wire_step(
            pre,
            event,
        ),
        WriteState::Eof => post == pre && op == Step::<()>::Failed(Fault::WriteZero),
        WriteState::EncErr => post == pre && op == Step::<()>::Failed(Fault::InvalidData),
    }
}

/// The regions have their sizes and the state its offsets.
pub open spec fn read_wf(s: ReadSide) -> bool {
    &&& s.state.wf()
    &&& s.cipher.len() == MAX_NOISE_PKG_LEN
    &&& s.plain.len() == MAX_NOISE_PKG_LEN
}

/// The regions have their sizes and the state its offsets.
pub open spec fn write_wf(s: WriteSide) -> bool {
    &&& s.state.wf()
    &&& s.plain.len() == MAX_WRITE_BUF_LEN
    &&& s.cipher.len() == 2 * MAX_WRITE_BUF_LEN
}

/// The beginning of a frame that the reader holds: the part of the prefix,
/// or the prefix and the part of the ciphertext, that it has taken so far.
pub open spec fn read_partial(s: ReadSide) -> Seq<u8> {
    match s.state {
        ReadState::ReadLen { buf, off } => buf@.subrange(0, off as int),
        ReadState::ReadData { len, off } => len_prefix(len as int) + s.cipher.subrange(
            0,
            off as int,
        ),
        _ => Seq::empty(),
    }
}

/// The record of the reading direction agrees with its state.
///
/// The session has been handed exactly the frames that the bytes taken from
/// the transport hold, each once and in order, and the reader holds what is
/// left over. But for a frame that did not decrypt, which is the last, there
/// is a plaintext for every ciphertext. The caller has been handed those
/// plaintexts in order, up to the point that the state marks in the last.
pub open spec fn read_inv(s: ReadSide) -> bool {
    &&& read_wf(s)
    &&& bodies(s.pulled) == s.opened
    &&& !s.state.is_terminal() ==> tail(s.pulled) == read_partial(s)
    &&& s.opened.len() == s.revealed.len() + if s.state is DecErr {
        1int
    } else {
        0int
    }
    &&& match s.state {
        ReadState::CopyData { len, off } => {
            &&& s.revealed.len() > 0
            &&& s.revealed.last() == s.plain.subrange(0, len as int)
            &&& s.delivered == concat(s.revealed.drop_last()) + s.plain.subrange(0, off as int)
        },
        _ => s.delivered == concat(s.revealed),
    }
}

/// The number of ciphertexts on record that may be empty: the one that is
/// on its way out, or was when the sink closed. A ciphertext that has gone
/// out whole is not empty, since a sink takes no bytes of an empty one.
pub open spec fn write_open_frames(state: WriteState) -> int {
    match state {
        WriteState::WriteLen { .. } | WriteState::WriteData { .. } | WriteState::Eof => 1,
        _ => 0,
    }
}

/// The record of the writing direction agrees with its state.
///
/// But for a plaintext that the session refused, which is the last, every
/// plaintext that was handed to the session has its ciphertext, neither too
/// long for a frame. The bytes taken from the caller are those plaintexts in
/// order, then what is staged. The transport has taken the frames of those
/// ciphertexts in order, up to the point that the state marks in the last.
pub open spec fn write_inv(s: WriteSide) -> bool {
    &&& write_wf(s)
    &&& s.sealed.len() == s.frames.len() + if s.state is EncErr {
        1int
    } else {
        0int
    }
    &&& forall|i: int|
        0 <= i < s.frames.len() ==> (#[trigger] s.frames[i]).len() <= 2 * MAX_WRITE_BUF_LEN
    &&& forall|i: int|
        0 <= i < s.frames.len() - write_open_frames(s.state) ==> (#[trigger] s.frames[i]).len() > 0
    &&& forall|i: int|
        0 <= i < s.sealed.len() ==> (#[trigger] s.sealed[i]).len() <= MAX_WRITE_BUF_LEN
    &&& s.accepted == concat(s.sealed) + s.plain.subrange(0, s.state.staged())
    &&& match s.state {
        WriteState::Init | WriteState::BufferData { .. } => s.pushed == wire(s.frames),
        WriteState::WriteLen { len, buf, off } => {
            &&& s.frames.len() > 0
            &&& s.frames.last() == s.cipher.subrange(0, len as int)
            &&& s.pushed == wire(s.frames.drop_last()) + buf@.subrange(0, off as int)
        },
        WriteState::WriteData { len, off } => {
            &&& s.frames.len() > 0
            &&& s.frames.last() == s.cipher.subrange(0, len as int)
            &&& s.pushed == wire(s.frames.drop_last()) + len_prefix(len as int)
                + s.cipher.subrange(0, off as int)
        },
        WriteState::Eof | WriteState::EncErr => s.pushed.is_prefix_of(wire(s.frames)),
    }
}

/// What a call of `poll_read` answers once reading is over, whatever it is
/// handed.
pub open spec fn read_verdict(state: ReadState) -> Step<usize> {
    match state {
        ReadState::Eof(Err(())) => Step::Failed(Fault::UnexpectedEof),
        ReadState::DecErr => Step::Failed(Fault::InvalidData),
        _ => Step::Ready(0),
    }
}

/// The fault that a call of `poll_write` or of `poll_flush` fails with once
/// writing is over, whatever it is handed.
pub open spec fn write_verdict(state: WriteState) -> Fault {
    match state {
        WriteState::EncErr => Fault::InvalidData,
        _ => Fault::WriteZero,
    }
}

/// The reader's session undoes what the writer's session did: wherever the
/// reader was handed the ciphertext that the writer got for a plaintext, and
/// found a plaintext for it, it found that plaintext.
pub open spec fn paired(w: WriteSide, r: ReadSide) -> bool {
    forall|i: int|
        0 <= i < r.revealed.len() && i < r.opened.len() && i < w.frames.len() && i
            < w.sealed.len() && r.opened[i] == w.frames[i] ==> #[trigger] r.revealed[i]
            == w.sealed[i]
}

} // verus!
