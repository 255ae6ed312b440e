//! The adapter: both state machines over one session and one arena.
//!
//! The adapter never touches the transport. Each of its three operations is
//! one step of a conversation with whoever drives it: the operation answers
//! `Io` when the transport has to be polled, and is called again with what
//! the transport said.

use crate::buffer::Buffer;
use crate::frame::{
    copy_into, read_frame_len, write_frame_len, Fault, ReadEvent, Step, WriteEvent,
    MAX_WRITE_BUF_LEN,
};
use crate::laws::{
    lemma_flush_ready_means_on_the_wire, lemma_flush_step_keeps_inv, lemma_read_fills_front,
    lemma_read_step_keeps_inv, lemma_write_step_keeps_inv, lemma_write_takes_front,
};
use crate::model::{
    flush_step, read_copied, read_inv, read_step, read_wf, write_buffered, write_inv,
    write_offered, write_sealed, write_step, write_wf, write_wire_step, ReadLog, ReadSide,
    WriteLog, WriteSide,
};
use crate::wire::{bodies, concat, tail, wire};
use crate::state::{after_open, after_seal, ReadState, WriteState};
use vstd::prelude::*;
use vstd::slice::slice_subrange;

verus! {

/// A noise session to a remote.
pub struct NoiseOutput {
    session: snow::TransportState,
    buffer: Buffer,
    read_state: ReadState,
    write_state: WriteState,
    read_log: Ghost<ReadLog>,
    write_log: Ghost<WriteLog>,
}

impl NoiseOutput {
    /// The reading direction, with its share of the arena and its record.
    pub closed spec fn read_side(&self) -> ReadSide {
        ReadSide {
            state: self.read_state,
            cipher: self.buffer.read_cipher(),
            plain: self.buffer.read_plain(),
            pulled: self.read_log@.pulled,
            opened: self.read_log@.opened,
            revealed: self.read_log@.revealed,
            delivered: self.read_log@.delivered,
        }
    }

    /// The writing direction, with its share of the arena and its record.
    pub closed spec fn write_side(&self) -> WriteSide {
        WriteSide {
            state: self.write_state,
            plain: self.buffer.write_plain(),
            cipher: self.buffer.write_cipher(),
            accepted: self.write_log@.accepted,
            sealed: self.write_log@.sealed,
            frames: self.write_log@.frames,
            pushed: self.write_log@.pushed,
        }
    }

    /// The arena is whole.
    pub closed spec fn arena_wf(&self) -> bool {
        self.buffer.wf()
    }

    /// The session that the adapter owns.
    pub closed spec fn session_of(&self) -> snow::TransportState {
        self.session
    }

    /// The arena is whole, and both states have their offsets in range.
    pub open spec fn shaped(&self) -> bool {
        &&& self.arena_wf()
        &&& read_wf(self.read_side())
        &&& write_wf(self.write_side())
    }

    /// The adapter is in a state that its operations leave it in: in both
    /// directions the record of what has happened agrees with the state.
    pub open spec fn wf(&self) -> bool {
        &&& self.arena_wf()
        &&& read_inv(self.read_side())
        &&& write_inv(self.write_side())
    }

    /// An adapter over an established session, which it takes as it is, with
    /// a zeroed arena, nothing read and nothing written.
    pub fn new(session: snow::TransportState) -> (s: Self)
        ensures
            s.wf(),
            s.session_of() == session,
            Buffer::zeroed(s.read_side().cipher),
            Buffer::zeroed(s.read_side().plain),
            Buffer::zeroed(s.write_side().plain),
            Buffer::zeroed(s.write_side().cipher),
            s.read_side().state is Init,
            s.read_side().pulled == Seq::<u8>::empty(),
            s.read_side().opened == Seq::<Seq<u8>>::empty(),
            s.read_side().revealed == Seq::<Seq<u8>>::empty(),
            s.read_side().delivered == Seq::<u8>::empty(),
            s.write_side().state is Init,
            s.write_side().accepted == Seq::<u8>::empty(),
            s.write_side().sealed == Seq::<Seq<u8>>::empty(),
            s.write_side().frames == Seq::<Seq<u8>>::empty(),
            s.write_side().pushed == Seq::<u8>::empty(),
    {
        let buffer = Buffer::new();
        proof {
            buffer.lemma_region_sizes();
            assert(bodies(Seq::<u8>::empty()) =~= Seq::<Seq<u8>>::empty());
            assert(tail(Seq::<u8>::empty()) =~= Seq::<u8>::empty());
            assert(concat(Seq::<Seq<u8>>::empty()) =~= Seq::<u8>::empty());
            assert(wire(Seq::<Seq<u8>>::empty()) =~= Seq::<u8>::empty());
            assert(Seq::<u8>::empty() + buffer.write_plain().subrange(0, 0) =~= Seq::<u8>::empty());
        }
        NoiseOutput {
            session,
            buffer,
            read_state: ReadState::Init,
            write_state: WriteState::Init,
            read_log: Ghost(
                ReadLog {
                    pulled: Seq::empty(),
                    opened: Seq::empty(),
                    revealed: Seq::empty(),
                    delivered: Seq::empty(),
                },
            ),
            write_log: Ghost(
                WriteLog {
                    accepted: Seq::empty(),
                    sealed: Seq::empty(),
                    frames: Seq::empty(),
                    pushed: Seq::empty(),
                },
            ),
        }
    }

    /// Where reading stands.
    pub fn read_state(&self) -> (state: ReadState)
        ensures
            state == self.read_side().state,
    {
        self.read_state
    }

    /// Where writing stands.
    pub fn write_state(&self) -> (state: WriteState)
        ensures
            state == self.write_side().state,
    {
        self.write_state
    }

    /// One step of a read into `dst`.
    ///
    /// `event` is the transport's answer to the `Io` that the previous step
    /// returned, or `Enter` on a new call. `Io(n)` asks for a read of at most
    /// `n` bytes from the transport. The session is asked to decrypt only
    /// when the last byte of a frame comes in, once, and what follows its
    /// answer is what `after_open` and `copy_data` say. Whatever it answers,
    /// the step is one that `read_step` admits.
    pub fn poll_read(&mut self, event: ReadEvent<'_>, dst: &mut [u8]) -> (op: Step<usize>)
        requires
            old(self).wf(),
            old(self).read_side().state is ReadLen || old(self).read_side().state is ReadData
                ==> event.data().len() <= old(self).read_side().state.wants(),
        ensures
            final(self).wf(),
            final(self).write_side() == old(self).write_side(),
            final(self).read_side().opened == old(self).read_side().opened
                ==> final(self).session_of() == old(self).session_of(),
            read_step(
                old(self).read_side(),
                event,
                old(dst)@,
                final(self).read_side(),
                final(dst)@,
                op,
            ),
            op matches Step::Ready(n) ==> n <= old(dst)@.len()
                && final(self).read_side().delivered == old(self).read_side().delivered
                + final(dst)@.subrange(0, n as int),
            !(op is Ready) ==> final(dst)@ == old(dst)@ && final(self).read_side().delivered == old(
                self,
            ).read_side().delivered,
    {
        let ghost pre = self.read_side();
        let op = match self.read_state {
            ReadState::Init => {
                self.read_state = ReadState::ReadLen { buf: [0, 0], off: 0 };
                assert(dst@ =~= old(dst)@);
                Step::Io(2)
            },
            ReadState::ReadLen { buf, off } => {
                let mut buf = buf;
                let mut len_off = off;
                match read_frame_len(&mut buf, &mut len_off, event) {
                    Step::Ready(Some(n)) => {
                        proof {
                            self.read_log@.pulled = self.read_log@.pulled + event.data();
                        }
                        if n == 0 {
                            self.read_state = ReadState::ReadLen { buf: [0, 0], off: 0 };
                            Step::Io(2)
                        } else {
                            self.read_state = ReadState::ReadData { len: n as usize, off: 0 };
                            Step::Io(n as usize)
                        }
                    },
                    Step::Ready(None) => {
                        if off == 0 {
                            self.read_state = ReadState::Eof(Ok(()));
                            Step::Ready(0)
                        } else {
                            self.read_state = ReadState::Eof(Err(()));
                            Step::Failed(Fault::UnexpectedEof)
                        }
                    },
                    Step::Io(want) => {
                        if len_off != off {
                            proof {
                                self.read_log@.pulled = self.read_log@.pulled + event.data();
                            }
                            self.read_state = ReadState::ReadLen { buf, off: len_off };
                        }
                        Step::Io(want)
                    },
                    Step::Pending => Step::Pending,
                    Step::Failed(fault) => Step::Failed(fault),
                }
            },
            ReadState::ReadData { len, off } => self.read_data(len, off, event, dst),
            ReadState::CopyData { len, off } => self.copy_data(len, off, dst),
            ReadState::Eof(Ok(())) => Step::Ready(0),
            ReadState::Eof(Err(())) => Step::Failed(Fault::UnexpectedEof),
            ReadState::DecErr => Step::Failed(Fault::InvalidData),
        };
        proof {
            lemma_read_step_keeps_inv(pre, event, old(dst)@, self.read_side(), dst@, op);
            if op is Ready {
                lemma_read_fills_front(pre, event, old(dst)@, self.read_side(), dst@, op);
            }
        }
        op
    }

    fn read_data(&mut self, len: usize, off: usize, event: ReadEvent<'_>, dst: &mut [u8]) -> (op: Step<usize>)
        requires
            old(self).shaped(),
            old(self).read_side().state == (ReadState::ReadData { len, off }),
            event.data().len() <= len - off,
        ensures
            final(self).shaped(),
            final(self).write_side() == old(self).write_side(),
            final(self).read_side().opened == old(self).read_side().opened
                ==> final(self).session_of() == old(self).session_of(),
            read_step(
                old(self).read_side(),
                event,
                old(dst)@,
                final(self).read_side(),
                final(dst)@,
                op,
            ),
    {
        match event {
            ReadEvent::Enter => Step::Io(len - off),
            ReadEvent::Pending => Step::Pending,
            ReadEvent::Failed => Step::Failed(Fault::Transport),
            ReadEvent::Data(data) => {
                if data.len() == 0 {
                    self.read_state = ReadState::Eof(Err(()));
                    return Step::Failed(Fault::UnexpectedEof);
                }
                let got = off + data.len();
                proof {
                    self.buffer.lemma_region_sizes();
                }
                let regions = self.buffer.borrow_mut();
                copy_into(regions.read_cipher, off, data);
                proof {
                    self.read_log@.pulled = self.read_log@.pulled + data@;
                }
                if got < len {
                    self.read_state = ReadState::ReadData { len, off: got };
                    return Step::Io(len - got);
                }
                proof {
                    self.read_log@.opened = self.read_log@.opened.push(
                        regions.read_cipher@.subrange(0, len as int),
                    );
                    assert(self.read_log@.opened.len() == old(self).read_log@.opened.len() + 1);
                }
                let opened = self.session.read_message(
                    slice_subrange(regions.read_cipher, 0, len),
                    regions.read_plain,
                );
                self.read_state = after_open(opened);
                match self.read_state {
                    ReadState::CopyData { len, off } => {
                        proof {
                            self.read_log@.revealed = self.read_log@.revealed.push(
                                regions.read_plain@.subrange(0, len as int),
                            );
                        }
                        self.copy_data(len, off, dst)
                    },
                    _ => Step::Failed(Fault::InvalidData),
                }
            },
        }
    }

    /// Hands out plaintext: what follows a decryption that left `len` bytes
    /// at the front of the plaintext region, `off` of which are out already.
    ///
    /// As many of the bytes that are left as fit go to the front of `dst`,
    /// and `Ready` says how many, whether or not `dst` is full. With the
    /// last byte out the next frame is awaited. The session is not touched.
    pub fn copy_data(&mut self, len: usize, off: usize, dst: &mut [u8]) -> (op: Step<usize>)
        requires
            old(self).arena_wf(),
            off <= len <= old(self).read_side().plain.len(),
        ensures
            final(self).arena_wf(),
            old(self).shaped() ==> final(self).shaped(),
            final(self).session_of() == old(self).session_of(),
            final(self).write_side() == old(self).write_side(),
            read_copied(
                old(self).read_side(),
                len as int,
                off as int,
                old(dst)@,
                final(self).read_side(),
                final(dst)@,
                op,
            ),
    {
        proof {
            self.buffer.lemma_region_sizes();
        }
        let n = if len - off <= dst.len() {
            len - off
        } else {
            dst.len()
        };
        copy_into(dst, 0, self.buffer.read_plain_window(off, off + n));
        proof {
            self.read_log@.delivered = self.read_log@.delivered + self.buffer.read_plain().subrange(
                off as int,
                off + n,
            );
        }
        if off + n == len {
            self.read_state = ReadState::ReadLen { buf: [0, 0], off: 0 };
        } else {
            self.read_state = ReadState::CopyData { len, off: off + n };
        }
        Step::Ready(n)
    }

    /// The bytes that the transport is to be offered when a write step
    /// returned `Io`.
    pub fn pending_output(&self) -> (out: &[u8])
        requires
            self.wf(),
        ensures
            out@ == write_offered(self.write_side()),
    {
        match &self.write_state {
            WriteState::WriteLen { len, buf, off } => slice_subrange(buf.as_slice(), *off, 2),
            WriteState::WriteData { len, off } => self.buffer.write_cipher_window(*off, *len),
            _ => {
                let none = self.buffer.write_cipher_window(0, 0);
                assert(none@ =~= Seq::<u8>::empty());
                none
            },
        }
    }

    /// One step of a write of `src`.
    ///
    /// `event` is the transport's answer to the `Io` that the previous step
    /// returned, or `Enter` on a new call. `Io(n)` asks for a write of the
    /// `n` bytes of `pending_output` to the transport. `Ready(n)` says that
    /// the first `n` bytes of `src` are staged; they are on the wire only
    /// once a flush has completed. The session is asked to encrypt only when
    /// the accumulator fills, once, and what follows its answer is what
    /// `after_seal` says. Whatever it answers, the step is one that
    /// `write_step` admits.
    pub fn poll_write(&mut self, event: WriteEvent, src: &[u8]) -> (op: Step<usize>)
        requires
            old(self).wf(),
            old(self).write_side().state is WriteLen || old(self).write_side().state is WriteData
                ==> event.wrote() <= old(self).write_side().state.offers(),
        ensures
            final(self).wf(),
            final(self).read_side() == old(self).read_side(),
            final(self).write_side().sealed == old(self).write_side().sealed
                ==> final(self).session_of() == old(self).session_of(),
            write_step(old(self).write_side(), event, src@, final(self).write_side(), op),
            op matches Step::Ready(n) ==> n <= src@.len() && final(self).write_side().accepted
                == old(self).write_side().accepted + src@.subrange(0, n as int),
    {
        let ghost pre = self.write_side();
        let op = match self.write_state {
            WriteState::Init => self.buffer_data(0, src),
            WriteState::BufferData { off } => self.buffer_data(off, src),
            WriteState::WriteLen { .. } | WriteState::WriteData { .. } => {
                match self.drive_frame(event) {
                    Step::Ready(_) => self.buffer_data(0, src),
                    Step::Io(n) => Step::Io(n),
                    Step::Pending => Step::Pending,
                    Step::Failed(fault) => Step::Failed(fault),
                }
            },
            WriteState::Eof => Step::Failed(Fault::WriteZero),
            WriteState::EncErr => Step::Failed(Fault::InvalidData),
        };
        proof {
            lemma_write_step_keeps_inv(pre, event, src@, self.write_side(), op);
            if op is Ready {
                lemma_write_takes_front(pre, event, src@, self.write_side(), op);
            }
        }
        op
    }

    /// One step of a flush.
    ///
    /// `event` and `Io` are as in `poll_write`. `Ready` says that nothing is
    /// staged any more: every byte taken so far has been handed to the
    /// transport. The session is asked to encrypt only when plaintext is
    /// staged, once, and what follows its answer is what `after_seal` says.
    /// Whatever it answers, the step is one that `flush_step` admits.
    pub fn poll_flush(&mut self, event: WriteEvent) -> (op: Step<()>)
        requires
            old(self).wf(),
            old(self).write_side().state is WriteLen || old(self).write_side().state is WriteData
                ==> event.wrote() <= old(self).write_side().state.offers(),
        ensures
            final(self).wf(),
            final(self).read_side() == old(self).read_side(),
            final(self).write_side().sealed == old(self).write_side().sealed
                ==> final(self).session_of() == old(self).session_of(),
            flush_step(old(self).write_side(), event, final(self).write_side(), op),
            op is Ready ==> final(self).write_side().state is Init
                && final(self).write_side().accepted == concat(final(self).write_side().sealed)
                && final(self).write_side().pushed == wire(final(self).write_side().frames),
    {
        let ghost pre = self.write_side();
        let op = match self.write_state {
            WriteState::Init => Step::Ready(()),
            WriteState::BufferData { off } => {
                if self.seal(off) {
                    Step::Io(2)
                } else {
                    Step::Failed(Fault::InvalidData)
                }
            },
            WriteState::WriteLen { .. } | WriteState::WriteData { .. } => self.drive_frame(event),
            WriteState::Eof => Step::Failed(Fault::WriteZero),
            WriteState::EncErr => Step::Failed(Fault::InvalidData),
        };
        proof {
            lemma_flush_step_keeps_inv(pre, event, self.write_side(), op);
            if op is Ready {
                lemma_flush_ready_means_on_the_wire(pre, event, self.write_side(), op);
            }
        }
        op
    }

    fn buffer_data(&mut self, off: usize, src: &[u8]) -> (op: Step<usize>)
        requires
            old(self).shaped(),
            off < MAX_WRITE_BUF_LEN,
        ensures
            final(self).shaped(),
            final(self).read_side() == old(self).read_side(),
            final(self).write_side().sealed == old(self).write_side().sealed
                ==> final(self).session_of() == old(self).session_of(),
            write_buffered(
                old(self).write_side(),
                off as int,
                src@,
                final(self).write_side(),
                op,
            ),
    {
        proof {
            self.buffer.lemma_region_sizes();
        }
        let n = if MAX_WRITE_BUF_LEN - off <= src.len() {
            MAX_WRITE_BUF_LEN - off
        } else {
            src.len()
        };
        let regions = self.buffer.borrow_mut();
        copy_into(regions.write_plain, off, slice_subrange(src, 0, n));
        proof {
            self.write_log@.accepted = self.write_log@.accepted + src@.subrange(0, n as int);
        }
        if off + n < MAX_WRITE_BUF_LEN {
            self.write_state = WriteState::BufferData { off: off + n };
            return Step::Ready(n);
        }
        if self.seal(MAX_WRITE_BUF_LEN) {
            Step::Ready(n)
        } else {
            Step::Failed(Fault::InvalidData)
        }
    }

    fn seal(&mut self, len: usize) -> (done: bool)
        requires
            old(self).arena_wf(),
            read_wf(old(self).read_side()),
            len <= MAX_WRITE_BUF_LEN,
        ensures
            final(self).shaped(),
            final(self).read_side() == old(self).read_side(),
            final(self).write_side().sealed == old(self).write_side().sealed
                ==> final(self).session_of() == old(self).session_of(),
            write_sealed(old(self).write_side(), len as int, final(self).write_side()),
            done == !(final(self).write_side().state is EncErr),
    {
        proof {
            self.buffer.lemma_region_sizes();
        }
        let regions = self.buffer.borrow_mut();
        proof {
            self.write_log@.sealed = self.write_log@.sealed.push(
                regions.write_plain@.subrange(0, len as int),
            );
            assert(self.write_log@.sealed.len() == old(self).write_log@.sealed.len() + 1);
        }
        let sealed = self.session.write_message(
            slice_subrange(regions.write_plain, 0, len),
            regions.write_cipher,
        );
        self.write_state = after_seal(sealed);
        match self.write_state {
            WriteState::WriteLen { len: cipher_len, .. } => {
                proof {
                    self.write_log@.frames = self.write_log@.frames.push(
                        regions.write_cipher@.subrange(0, cipher_len as int),
                    );
                }
                true
            },
            _ => false,
        }
    }

    fn drive_frame(&mut self, event: WriteEvent) -> (op: Step<()>)
        requires
            old(self).shaped(),
            old(self).write_side().state is WriteLen || old(self).write_side().state is WriteData,
            event.wrote() <= old(self).write_side().state.offers(),
        ensures
            final(self).shaped(),
            final(self).read_side() == old(self).read_side(),
            final(self).session_of() == old(self).session_of(),
            (final(self).write_side(), op) == write_wire_step(
                old(self).write_side(),
                event,
            ),
    {
        let ghost offered = write_offered(self.write_side());
        match self.write_state {
            WriteState::WriteLen { len, buf, off } => {
                let mut len_off = off;
                match write_frame_len(&buf, &mut len_off, event) {
                    Step::Ready(true) => {
                        proof {
                            self.write_log@.pushed = self.write_log@.pushed + offered.subrange(
                                0,
                                event.wrote(),
                            );
                        }
                        self.write_state = WriteState::WriteData { len, off: 0 };
                        Step::Io(len)
                    },
                    Step::Ready(false) => {
                        self.write_state = WriteState::Eof;
                        Step::Failed(Fault::WriteZero)
                    },
                    Step::Io(left) => {
                        if len_off != off {
                            proof {
                                self.write_log@.pushed = self.write_log@.pushed + offered.subrange(
                                    0,
                                    event.wrote(),
                                );
                            }
                            self.write_state = WriteState::WriteLen { len, buf, off: len_off };
                        }
                        Step::Io(left)
                    },
                    Step::Pending => Step::Pending,
                    Step::Failed(fault) => Step::Failed(fault),
                }
            },
            WriteState::WriteData { len, off } => {
                match event {
                    WriteEvent::Enter => Step::Io(len - off),
                    WriteEvent::Pending => Step::Pending,
                    WriteEvent::Failed => Step::Failed(Fault::Transport),
                    WriteEvent::Wrote(n) => {
                        if n == 0 {
                            self.write_state = WriteState::Eof;
                            return Step::Failed(Fault::WriteZero);
                        }
                        proof {
                            self.write_log@.pushed = self.write_log@.pushed + offered.subrange(
                                0,
                                n as int,
                            );
                        }
                        if off + n < len {
                            self.write_state = WriteState::WriteData { len, off: off + n };
                            Step::Io(len - off - n)
                        } else {
                            self.write_state = WriteState::Init;
                            Step::Ready(())
                        }
                    },
                }
            },
            _ => Step::Ready(()),
        }
    }
}

} // verus!
