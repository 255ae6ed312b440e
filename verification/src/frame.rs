//! The wire format: a two-byte big-endian length followed by that many bytes
//! of ciphertext, and the two resumable primitives that move the length.

use vstd::prelude::*;

verus! {

/// Largest ciphertext a single frame can carry.
pub const MAX_NOISE_PKG_LEN: usize = 65535;

/// Largest plaintext a single outgoing frame can carry.
pub const MAX_WRITE_BUF_LEN: usize = 16384;

/// Why an operation failed.
#[derive(Debug, Clone, Copy, PartialEq, Eq)]
pub enum Fault {
    /// The transport itself reported an error; the driver surfaces that error unchanged.
    Transport,
    /// The transport ended in the middle of a frame.
    UnexpectedEof,
    /// The session refused to decrypt or to encrypt.
    InvalidData,
    /// The transport took no bytes: the sink is closed.
    WriteZero,
}

/// What one poll of the adapter amounts to.
#[derive(Debug, PartialEq, Eq)]
pub enum Step<T> {
    /// The operation is complete.
    Ready(T),
    /// The transport has to be polled for this many bytes, and its answer handed back.
    Io(usize),
    /// The transport was not ready; the same call has to be made again later.
    Pending,
    /// The operation failed.
    Failed(Fault),
}

/// What the transport answered to a read.
#[derive(Debug, Clone, Copy)]
pub enum ReadEvent<'a> {
    /// The transport has not been polled yet in this call.
    Enter,
    /// The transport delivered these bytes; none means end of stream.
    Data(&'a [u8]),
    /// The transport was not ready.
    Pending,
    /// The transport reported an error.
    Failed,
}

/// What the transport answered to a write.
#[derive(Debug, Clone, Copy, PartialEq, Eq)]
pub enum WriteEvent {
    /// The transport has not been polled yet in this call.
    Enter,
    /// The transport took this many of the bytes offered; zero means the sink is closed.
    Wrote(usize),
    /// The transport was not ready.
    Pending,
    /// The transport reported an error.
    Failed,
}

impl<'a> ReadEvent<'a> {
    /// The bytes that the event carries.
    pub open spec fn data(self) -> Seq<u8> {
        match self {
            ReadEvent::Data(d) => d@,
            _ => Seq::empty(),
        }
    }
}

impl WriteEvent {
    /// The number of bytes that the event reports as taken.
    pub open spec fn wrote(self) -> int {
        match self {
            WriteEvent::Wrote(n) => n as int,
            _ => 0,
        }
    }
}

/// The length that the two-byte big-endian prefix at the front denotes.
pub open spec fn frame_len(prefix: Seq<u8>) -> int
    recommends
        prefix.len() >= 2,
{
    prefix[0] as int * 256 + prefix[1] as int
}

/// The two-byte big-endian prefix of a frame of `len` bytes.
pub open spec fn len_prefix(len: int) -> Seq<u8>
    recommends
        0 <= len <= MAX_NOISE_PKG_LEN,
{
    seq![(len / 256) as u8, (len % 256) as u8]
}

/// One frame as it travels: the prefix, then the body.
pub open spec fn frame(body: Seq<u8>) -> Seq<u8> {
    len_prefix(body.len() as int) + body
}

/// `base` with the bytes from `at` on overwritten by `part`.
pub open spec fn splice(base: Seq<u8>, at: int, part: Seq<u8>) -> Seq<u8>
    recommends
        0 <= at,
        at + part.len() <= base.len(),
{
    base.subrange(0, at) + part + base.subrange(at + part.len(), base.len() as int)
}

/// Decoding a prefix gives back the length that was encoded.
pub proof fn lemma_prefix_roundtrip(len: int)
    requires
        0 <= len <= MAX_NOISE_PKG_LEN,
    ensures
        len_prefix(len).len() == 2,
        frame_len(len_prefix(len)) == len,
{
}

/// Encoding the length that a prefix denotes gives back the prefix.
pub proof fn lemma_len_roundtrip(prefix: Seq<u8>)
    requires
        prefix.len() == 2,
    ensures
        0 <= frame_len(prefix) <= MAX_NOISE_PKG_LEN,
        len_prefix(frame_len(prefix)) == prefix,
{
    assert(len_prefix(frame_len(prefix)) =~= prefix);
}

/// Copies `src` over `dst[at..]`.
pub fn copy_into(dst: &mut [u8], at: usize, src: &[u8])
    requires
        at + src@.len() <= old(dst)@.len(),
    ensures
        final(dst)@ == splice(old(dst)@, at as int, src@),
{
    let n = src.len();
    let total = dst.len();
    let mut i: usize = 0;
    while i < n
        invariant
            n == src@.len(),
            total == dst@.len(),
            dst@.len() == old(dst)@.len(),
            at + n <= dst@.len(),
            0 <= i <= n,
            dst@ == splice(old(dst)@, at as int, src@.subrange(0, i as int)),
        decreases n - i,
    {
        dst[at + i] = src[i];
        i += 1;
        assert(dst@ =~= splice(old(dst)@, at as int, src@.subrange(0, i as int)));
    }
    assert(src@.subrange(0, n as int) =~= src@);
}

/// The length that a complete prefix denotes.
pub fn decode_len(buf: &[u8; 2]) -> (n: u16)
    ensures
        n == frame_len(buf@),
{
    let hi: u16 = buf[0] as u16;
    let lo: u16 = buf[1] as u16;
    hi * 256 + lo
}

/// The prefix of a frame of `len` bytes.
pub fn encode_len(len: u16) -> (buf: [u8; 2])
    ensures
        buf@ == len_prefix(len as int),
{
    let buf: [u8; 2] = [(len / 256) as u8, (len % 256) as u8];
    assert(buf@ =~= len_prefix(len as int));
    buf
}

/// Takes the transport's answer to a read of the length prefix into
/// `buf[*off..]`.
///
/// With no answer yet, or with the prefix still incomplete, asks for the
/// bytes that are missing. An empty read is the end of the stream and gives
/// `None`; `buf` and `off` then stay as they are. When the transport was not
/// ready or failed nothing changes either, so that the caller can come back
/// with the same `buf` and `off`.
pub fn read_frame_len(buf: &mut [u8; 2], off: &mut usize, event: ReadEvent<'_>) -> (r: Step<
    Option<u16>,
>)
    requires
        *old(off) < 2,
        event.data().len() <= 2 - *old(off),
    ensures
        final(buf)@ == read_len_bytes(old(buf)@, *old(off) as int, event),
        *final(off) == *old(off) + event.data().len(),
        r == read_len_result(old(buf)@, *old(off) as int, event),
{
    match event {
        ReadEvent::Enter => {
            assert(buf@ =~= splice(buf@, *off as int, event.data()));
            Step::Io(2 - *off)
        },
        ReadEvent::Pending => {
            assert(buf@ =~= splice(buf@, *off as int, event.data()));
            Step::Pending
        },
        ReadEvent::Failed => {
            assert(buf@ =~= splice(buf@, *off as int, event.data()));
            Step::Failed(Fault::Transport)
        },
        ReadEvent::Data(data) => {
            if data.len() == 0 {
                assert(buf@ =~= splice(buf@, *off as int, event.data()));
                return Step::Ready(None);
            }
            copy_into(buf, *off, data);
            *off += data.len();
            if *off == 2 {
                Step::Ready(Some(decode_len(buf)))
            } else {
                Step::Io(2 - *off)
            }
        },
    }
}

/// The prefix buffer after `read_frame_len` took `event`.
pub open spec fn read_len_bytes(buf: Seq<u8>, off: int, event: ReadEvent<'_>) -> Seq<u8> {
    splice(buf, off, event.data())
}

/// What `read_frame_len` answers to `event`.
pub open spec fn read_len_result(buf: Seq<u8>, off: int, event: ReadEvent<'_>) -> Step<
    Option<u16>,
> {
    match event {
        ReadEvent::Enter => Step::Io((2 - off) as usize),
        ReadEvent::Pending => Step::Pending,
        ReadEvent::Failed => Step::Failed(Fault::Transport),
        ReadEvent::Data(d) => if d@.len() == 0 {
            Step::Ready(None)
        } else if off + d@.len() == 2 {
            Step::Ready(Some(frame_len(splice(buf, off, d@)) as u16))
        } else {
            Step::Io((2 - off - d@.len()) as usize)
        },
    }
}

/// Takes the transport's answer to a write of the length prefix from
/// `buf[*off..]`.
///
/// With no answer yet, or with part of the prefix still unwritten, offers the
/// bytes that are left. A write of no bytes means that the sink is closed and
/// gives `false`. When the transport was not ready or failed, `off` stays as
/// it is.
pub fn write_frame_len(buf: &[u8; 2], off: &mut usize, event: WriteEvent) -> (r: Step<bool>)
    requires
        *old(off) < 2,
        event.wrote() <= 2 - *old(off),
    ensures
        *final(off) == *old(off) + event.wrote(),
        r == write_len_result(*old(off) as int, event),
{
    match event {
        WriteEvent::Enter => Step::Io(2 - *off),
        WriteEvent::Pending => Step::Pending,
        WriteEvent::Failed => Step::Failed(Fault::Transport),
        WriteEvent::Wrote(n) => {
            if n == 0 {
                return Step::Ready(false);
            }
            *off += n;
            if *off == 2 {
                Step::Ready(true)
            } else {
                Step::Io(2 - *off)
            }
        },
    }
}

/// What `write_frame_len` answers to `event`.
pub open spec fn write_len_result(off: int, event: WriteEvent) -> Step<bool> {
    match event {
        WriteEvent::Enter => Step::Io((2 - off) as usize),
        WriteEvent::Pending => Step::Pending,
        WriteEvent::Failed => Step::Failed(Fault::Transport),
        WriteEvent::Wrote(n) => if n == 0 {
            Step::Ready(false)
        } else if off + n == 2 {
            Step::Ready(true)
        } else {
            Step::Io((2 - off - n) as usize)
        },
    }
}

} // verus!
