//! The two state machines' states.

use crate::frame::{encode_len, len_prefix, MAX_NOISE_PKG_LEN, MAX_WRITE_BUF_LEN};
use vstd::prelude::*;

verus! {

/// The states that reading passes through.
#[derive(Debug, Clone, Copy, PartialEq, Eq)]
pub enum ReadState {
    /// Nothing of the next frame has been seen.
    Init,
    /// Reading the length prefix: `off` of its two bytes are in `buf`.
    ReadLen { buf: [u8; 2], off: usize },
    /// Reading a frame of `len` bytes of ciphertext, `off` of which are staged.
    ReadData { len: usize, off: usize },
    /// Handing out a frame's `len` bytes of plaintext, `off` of which are delivered.
    CopyData { len: usize, off: usize },
    /// The stream has ended (terminal): cleanly between two frames, or
    /// unexpectedly within one.
    Eof(Result<(), ()>),
    /// A frame did not decrypt (terminal).
    DecErr,
}

/// The states that writing passes through.
#[derive(Debug, Clone, Copy, PartialEq, Eq)]
pub enum WriteState {
    /// Nothing is staged.
    Init,
    /// Accumulating plaintext: `off` bytes are staged.
    BufferData { off: usize },
    /// Writing the prefix `buf` of a frame of `len` bytes of ciphertext, `off`
    /// bytes of the prefix being written.
    WriteLen { len: usize, buf: [u8; 2], off: usize },
    /// Writing a frame's `len` bytes of ciphertext, `off` of which are written.
    WriteData { len: usize, off: usize },
    /// The sink is closed (terminal).
    Eof,
    /// A frame did not encrypt (terminal).
    EncErr,
}

impl ReadState {
    /// The state in which a new frame is awaited.
    pub open spec fn fresh() -> ReadState {
        ReadState::ReadLen { buf: [0u8, 0u8], off: 0 }
    }

    /// The offsets lie where a call leaves them.
    pub open spec fn wf(self) -> bool {
        match self {
            ReadState::ReadLen { buf, off } => off < 2,
            ReadState::ReadData { len, off } => off < len <= MAX_NOISE_PKG_LEN,
            ReadState::CopyData { len, off } => off < len <= MAX_NOISE_PKG_LEN,
            _ => true,
        }
    }

    /// No further progress is possible.
    pub open spec fn is_terminal(self) -> bool {
        self is Eof || self is DecErr
    }

    /// The number of bytes that the state asks of the transport.
    pub open spec fn wants(self) -> int {
        match self {
            ReadState::Init => 2,
            ReadState::ReadLen { buf, off } => 2 - off,
            ReadState::ReadData { len, off } => len - off,
            _ => 0,
        }
    }
}

impl WriteState {
    /// The offsets lie where a call leaves them.
    pub open spec fn wf(self) -> bool {
        match self {
            WriteState::BufferData { off } => off < MAX_WRITE_BUF_LEN,
            WriteState::WriteLen { len, buf, off } => {
                &&& len <= 2 * MAX_WRITE_BUF_LEN
                &&& buf@ == len_prefix(len as int)
                &&& off < 2
            },
            WriteState::WriteData { len, off } => {
                &&& len <= 2 * MAX_WRITE_BUF_LEN
                &&& off <= len
                &&& (off < len || len == 0)
            },
            _ => true,
        }
    }

    /// No further progress is possible.
    pub open spec fn is_terminal(self) -> bool {
        self is Eof || self is EncErr
    }

    /// The number of bytes that the state offers to the transport.
    pub open spec fn offers(self) -> int {
        match self {
            WriteState::WriteLen { len, buf, off } => 2 - off,
            WriteState::WriteData { len, off } => len - off,
            _ => 0,
        }
    }

    /// The number of plaintext bytes that are staged.
    pub open spec fn staged(self) -> int {
        match self {
            WriteState::BufferData { off } => off as int,
            _ => 0,
        }
    }
}

/// Where reading stands after the one attempt to decrypt a frame, given
/// the session's answer: with a plaintext of the length that the session
/// reports, none of it handed out yet; or, if the session refused, at its
/// end.
pub fn after_open(answer: Result<usize, snow::Error>) -> (next: ReadState)
    ensures
        answer matches Ok(n) ==> next == (ReadState::CopyData { len: n, off: 0 }),
        answer is Err ==> next == ReadState::DecErr,
{
    match answer {
        Ok(n) => ReadState::CopyData { len: n, off: 0 },
        Err(_) => ReadState::DecErr,
    }
}

/// Where writing stands after the one attempt to encrypt what is staged,
/// given the session's answer: with a frame of the length that the session
/// reports, its prefix next to go out; or, if the session refused, at its
/// end.
pub fn after_seal(answer: Result<usize, snow::Error>) -> (next: WriteState)
    requires
        answer matches Ok(n) ==> n <= MAX_NOISE_PKG_LEN,
    ensures
        answer matches Ok(n) ==> next matches WriteState::WriteLen { len, buf, off } && len == n
            && buf@ == len_prefix(n as int) && off == 0,
        answer is Err ==> next == WriteState::EncErr,
{
    match answer {
        Ok(n) => WriteState::WriteLen { len: n, buf: encode_len(n as u16), off: 0 },
        Err(_) => WriteState::EncErr,
    }
}

} // verus!
