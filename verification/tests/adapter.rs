use noise_io::frame::{Fault, ReadEvent, Step, WriteEvent, MAX_WRITE_BUF_LEN};
use noise_io::io::NoiseOutput;
use noise_io::state::{after_open, after_seal, ReadState, WriteState};

const TAG: usize = 16;

fn handshake(pattern: &str) -> (snow::TransportState, snow::TransportState) {
    let params: snow::params::NoiseParams = pattern.parse().unwrap();
    let mut a = snow::Builder::new(params.clone()).build_initiator().unwrap();
    let mut b = snow::Builder::new(params).build_responder().unwrap();
    let mut msg = vec![0u8; 1024];
    let mut payload = vec![0u8; 1024];
    let n = a.write_message(&[], &mut msg).unwrap();
    b.read_message(&msg[..n], &mut payload).unwrap();
    let n = b.write_message(&[], &mut msg).unwrap();
    a.read_message(&msg[..n], &mut payload).unwrap();
    (a.into_transport_mode().unwrap(), b.into_transport_mode().unwrap())
}

fn session_pair() -> (snow::TransportState, snow::TransportState) {
    handshake("Noise_NN_25519_ChaChaPoly_BLAKE2s")
}

/// A pair whose responder may only read and whose initiator may only write.
fn one_way_pair() -> (snow::TransportState, snow::TransportState) {
    let params: snow::params::NoiseParams = "Noise_N_25519_ChaChaPoly_BLAKE2s".parse().unwrap();
    let keys = snow::Builder::new(params.clone()).generate_keypair().unwrap();
    let mut a = snow::Builder::new(params.clone())
        .remote_public_key(&keys.public)
        .unwrap()
        .build_initiator()
        .unwrap();
    let mut b = snow::Builder::new(params)
        .local_private_key(&keys.private)
        .unwrap()
        .build_responder()
        .unwrap();
    let mut msg = vec![0u8; 1024];
    let mut payload = vec![0u8; 1024];
    let n = a.write_message(&[], &mut msg).unwrap();
    b.read_message(&msg[..n], &mut payload).unwrap();
    (a.into_transport_mode().unwrap(), b.into_transport_mode().unwrap())
}

/// A transport to write to: takes at most `cap` bytes at a time, none once closed.
struct Sink {
    bytes: Vec<u8>,
    cap: usize,
    closed: bool,
}

impl Sink {
    fn new() -> Sink {
        Sink { bytes: Vec::new(), cap: usize::MAX, closed: false }
    }

    fn take(&mut self, offered: &[u8]) -> usize {
        if self.closed {
            return 0;
        }
        let n = offered.len().min(self.cap);
        self.bytes.extend_from_slice(&offered[..n]);
        n
    }
}

/// A transport to read from: gives at most `cap` bytes at a time; when it
/// has run dry it is not ready, or at its end once `ended` is set.
struct Source {
    bytes: Vec<u8>,
    pos: usize,
    cap: usize,
    ended: bool,
}

impl Source {
    fn new(bytes: Vec<u8>) -> Source {
        Source { bytes, pos: 0, cap: usize::MAX, ended: false }
    }

    fn left(&self) -> usize {
        self.bytes.len() - self.pos
    }
}

fn write(core: &mut NoiseOutput, sink: &mut Sink, src: &[u8]) -> Step<usize> {
    let mut event = WriteEvent::Enter;
    loop {
        match core.poll_write(event, src) {
            Step::Io(n) => {
                let offered = core.pending_output();
                assert_eq!(offered.len(), n);
                event = WriteEvent::Wrote(sink.take(offered));
            }
            done => return done,
        }
    }
}

fn flush(core: &mut NoiseOutput, sink: &mut Sink) -> Step<()> {
    let mut event = WriteEvent::Enter;
    loop {
        match core.poll_flush(event) {
            Step::Io(n) => {
                let offered = core.pending_output();
                assert_eq!(offered.len(), n);
                event = WriteEvent::Wrote(sink.take(offered));
            }
            done => return done,
        }
    }
}

fn read(core: &mut NoiseOutput, source: &mut Source, dst: &mut [u8]) -> Step<usize> {
    let mut got: Option<Vec<u8>> = None;
    let mut pending = false;
    loop {
        let step = match (&got, pending) {
            (Some(bytes), _) => core.poll_read(ReadEvent::Data(bytes), dst),
            (None, true) => core.poll_read(ReadEvent::Pending, dst),
            (None, false) => core.poll_read(ReadEvent::Enter, dst),
        };
        match step {
            Step::Io(want) => {
                let n = want.min(source.cap).min(source.left());
                if n == 0 && !source.ended {
                    got = None;
                    pending = true;
                } else {
                    got = Some(source.bytes[source.pos..source.pos + n].to_vec());
                    source.pos += n;
                }
            }
            done => return done,
        }
    }
}

/// Reads until `want` bytes have come, passing over reads of nothing.
fn read_exactly(core: &mut NoiseOutput, source: &mut Source, want: usize, chunk: usize) -> Vec<u8> {
    let mut out = Vec::new();
    let mut dst = vec![0u8; chunk];
    let mut turns = 0;
    while out.len() < want {
        match read(core, source, &mut dst) {
            Step::Ready(n) => out.extend_from_slice(&dst[..n]),
            other => panic!("read stopped with {:?}", other),
        }
        turns += 1;
        assert!(turns < 100_000);
    }
    out
}

#[test]
fn new_adapter_is_idle() {
    let (a, _) = session_pair();
    let core = NoiseOutput::new(a);
    assert_eq!(core.read_state(), ReadState::Init);
    assert_eq!(core.write_state(), WriteState::Init);
    assert!(core.pending_output().is_empty());
}

#[test]
fn single_short_message() {
    let (a, b) = session_pair();
    let mut writer = NoiseOutput::new(a);
    let mut reader = NoiseOutput::new(b);
    let mut sink = Sink::new();

    assert_eq!(write(&mut writer, &mut sink, b"hi"), Step::Ready(2));
    assert_eq!(writer.write_state(), WriteState::BufferData { off: 2 });
    assert!(sink.bytes.is_empty());
    assert_eq!(flush(&mut writer, &mut sink), Step::Ready(()));
    assert_eq!(writer.write_state(), WriteState::Init);

    // one frame: the prefix, then the two bytes and the tag
    assert_eq!(sink.bytes.len(), 2 + 2 + TAG);
    assert_eq!(&sink.bytes[..2], &[0u8, 18][..]);
    assert_ne!(&sink.bytes[2..4], &b"hi"[..]);

    let mut source = Source::new(sink.bytes);
    let mut dst = [0u8; 8];
    assert_eq!(read(&mut reader, &mut source, &mut dst), Step::Ready(2));
    assert_eq!(&dst[..2], b"hi");
    assert_eq!(&dst[2..], &[0u8; 6][..]);
    assert_eq!(reader.read_state(), ReadState::ReadLen { buf: [0, 0], off: 0 });
}

#[test]
fn exact_fill_frame() {
    let (a, b) = session_pair();
    let mut writer = NoiseOutput::new(a);
    let mut reader = NoiseOutput::new(b);
    let mut sink = Sink::new();
    let data = vec![0xAAu8; 16384];

    // the accumulator fills: the frame is encrypted without a flush
    assert_eq!(write(&mut writer, &mut sink, &data), Step::Ready(16384));
    assert_eq!(
        writer.write_state(),
        WriteState::WriteLen { len: 16384 + TAG, buf: [0x40, 0x10], off: 0 }
    );
    // the next write drives it out
    assert_eq!(write(&mut writer, &mut sink, &[]), Step::Ready(0));
    assert_eq!(sink.bytes.len(), 2 + 16384 + TAG);

    let mut source = Source::new(sink.bytes);
    let mut all = Vec::new();
    let mut dst = vec![0u8; 4096];
    for _ in 0..4 {
        assert_eq!(read(&mut reader, &mut source, &mut dst), Step::Ready(4096));
        all.extend_from_slice(&dst);
    }
    assert_eq!(all, data);
    assert_eq!(reader.read_state(), ReadState::ReadLen { buf: [0, 0], off: 0 });
}

#[test]
fn full_write_then_flush_is_one_frame_and_idle() {
    let (a, _) = session_pair();
    let mut writer = NoiseOutput::new(a);
    let mut sink = Sink::new();
    let data = vec![7u8; MAX_WRITE_BUF_LEN];
    assert_eq!(write(&mut writer, &mut sink, &data), Step::Ready(MAX_WRITE_BUF_LEN));
    assert_eq!(flush(&mut writer, &mut sink), Step::Ready(()));
    assert_eq!(writer.write_state(), WriteState::Init);
    assert_eq!(sink.bytes.len(), 2 + MAX_WRITE_BUF_LEN + TAG);
    assert_eq!(&sink.bytes[..2], &[0x40u8, 0x10][..]);
}

#[test]
fn one_byte_over_the_cap_stays_staged() {
    let (a, b) = session_pair();
    let mut writer = NoiseOutput::new(a);
    let mut reader = NoiseOutput::new(b);
    let mut sink = Sink::new();
    let data: Vec<u8> = (0..MAX_WRITE_BUF_LEN + 1).map(|i| (i % 251) as u8).collect();

    // the first call takes what fits and no more
    assert_eq!(write(&mut writer, &mut sink, &data), Step::Ready(MAX_WRITE_BUF_LEN));
    // the second is offered the rest
    assert_eq!(write(&mut writer, &mut sink, &data[MAX_WRITE_BUF_LEN..]), Step::Ready(1));
    assert_eq!(writer.write_state(), WriteState::BufferData { off: 1 });
    assert_eq!(sink.bytes.len(), 2 + MAX_WRITE_BUF_LEN + TAG);

    assert_eq!(flush(&mut writer, &mut sink), Step::Ready(()));
    assert_eq!(sink.bytes.len(), 2 + MAX_WRITE_BUF_LEN + TAG + 2 + 1 + TAG);

    let mut source = Source::new(sink.bytes);
    let all = read_exactly(&mut reader, &mut source, data.len(), 5000);
    assert_eq!(all, data);
}

#[test]
fn unexpected_eof_mid_ciphertext() {
    let (_, b) = session_pair();
    let mut reader = NoiseOutput::new(b);
    let mut wire = vec![0u8, 100];
    wire.extend_from_slice(&[0x55u8; 40]);
    let mut source = Source::new(wire);
    source.ended = true;
    let mut dst = [9u8; 64];
    assert_eq!(read(&mut reader, &mut source, &mut dst), Step::Failed(Fault::UnexpectedEof));
    assert_eq!(reader.read_state(), ReadState::Eof(Err(())));
    for _ in 0..3 {
        assert_eq!(read(&mut reader, &mut source, &mut dst), Step::Failed(Fault::UnexpectedEof));
    }
    assert_eq!(dst, [9u8; 64]);
}

#[test]
fn unexpected_eof_mid_prefix() {
    let (_, b) = session_pair();
    let mut reader = NoiseOutput::new(b);
    let mut source = Source::new(vec![0u8]);
    source.ended = true;
    let mut dst = [0u8; 8];
    assert_eq!(read(&mut reader, &mut source, &mut dst), Step::Failed(Fault::UnexpectedEof));
    assert_eq!(reader.read_state(), ReadState::Eof(Err(())));
    assert_eq!(read(&mut reader, &mut source, &mut dst), Step::Failed(Fault::UnexpectedEof));
}

#[test]
fn clean_eof_between_frames() {
    let (a, b) = session_pair();
    let mut writer = NoiseOutput::new(a);
    let mut reader = NoiseOutput::new(b);
    let mut sink = Sink::new();
    assert_eq!(write(&mut writer, &mut sink, b"bye"), Step::Ready(3));
    assert_eq!(flush(&mut writer, &mut sink), Step::Ready(()));
    let mut source = Source::new(sink.bytes);
    source.ended = true;
    let mut dst = [0u8; 8];
    assert_eq!(read(&mut reader, &mut source, &mut dst), Step::Ready(3));
    assert_eq!(&dst[..3], b"bye");
    for _ in 0..3 {
        assert_eq!(read(&mut reader, &mut source, &mut dst), Step::Ready(0));
        assert_eq!(reader.read_state(), ReadState::Eof(Ok(())));
    }
}

#[test]
fn tampered_frame() {
    let (a, b) = session_pair();
    let mut writer = NoiseOutput::new(a);
    let mut reader = NoiseOutput::new(b);
    let mut sink = Sink::new();
    assert_eq!(write(&mut writer, &mut sink, b"secret"), Step::Ready(6));
    assert_eq!(flush(&mut writer, &mut sink), Step::Ready(()));
    sink.bytes[4] ^= 0x01;

    let mut source = Source::new(sink.bytes);
    let mut dst = [0u8; 16];
    assert_eq!(read(&mut reader, &mut source, &mut dst), Step::Failed(Fault::InvalidData));
    assert_eq!(reader.read_state(), ReadState::DecErr);
    assert_eq!(dst, [0u8; 16]);
    for _ in 0..3 {
        assert_eq!(read(&mut reader, &mut source, &mut dst), Step::Failed(Fault::InvalidData));
    }
    assert_eq!(dst, [0u8; 16]);
}

#[test]
fn frame_shorter_than_a_tag_does_not_decrypt() {
    let (_, b) = session_pair();
    let mut reader = NoiseOutput::new(b);
    let mut source = Source::new(vec![0u8, 3, 1, 2, 3]);
    let mut dst = [0u8; 16];
    assert_eq!(read(&mut reader, &mut source, &mut dst), Step::Failed(Fault::InvalidData));
    assert_eq!(reader.read_state(), ReadState::DecErr);
}

#[test]
fn empty_frame_interleaved() {
    let (a, b) = session_pair();
    let mut writer = NoiseOutput::new(a);
    let mut reader = NoiseOutput::new(b);
    let mut sink = Sink::new();

    assert_eq!(write(&mut writer, &mut sink, b"x"), Step::Ready(1));
    assert_eq!(flush(&mut writer, &mut sink), Step::Ready(()));
    // a frame of no plaintext: nothing but the tag
    assert_eq!(write(&mut writer, &mut sink, b""), Step::Ready(0));
    assert_eq!(writer.write_state(), WriteState::BufferData { off: 0 });
    let before = sink.bytes.len();
    assert_eq!(flush(&mut writer, &mut sink), Step::Ready(()));
    assert_eq!(sink.bytes.len() - before, 2 + TAG);
    assert_eq!(write(&mut writer, &mut sink, b"y"), Step::Ready(1));
    assert_eq!(flush(&mut writer, &mut sink), Step::Ready(()));

    let mut source = Source::new(sink.bytes);
    let mut dst = [0u8; 8];
    assert_eq!(read(&mut reader, &mut source, &mut dst), Step::Ready(1));
    assert_eq!(dst[0], b'x');
    // the empty one hands out nothing and leaves the reader at the next frame
    assert_eq!(read(&mut reader, &mut source, &mut dst), Step::Ready(0));
    assert_eq!(reader.read_state(), ReadState::ReadLen { buf: [0, 0], off: 0 });
    assert_eq!(read(&mut reader, &mut source, &mut dst), Step::Ready(1));
    assert_eq!(dst[0], b'y');
    assert_eq!(source.left(), 0);
}

#[test]
fn zero_length_frame_is_absorbed() {
    let (a, b) = session_pair();
    let mut writer = NoiseOutput::new(a);
    let mut reader = NoiseOutput::new(b);
    let mut sink = Sink::new();
    assert_eq!(write(&mut writer, &mut sink, b"after"), Step::Ready(5));
    assert_eq!(flush(&mut writer, &mut sink), Step::Ready(()));

    let mut wire = vec![0u8, 0, 0, 0];
    wire.extend_from_slice(&sink.bytes);
    let mut source = Source::new(wire);
    let mut dst = [0u8; 8];
    // two frames of length zero go by within the one call
    assert_eq!(read(&mut reader, &mut source, &mut dst), Step::Ready(5));
    assert_eq!(&dst[..5], b"after");
}

#[test]
fn write_to_closed_sink() {
    let (a, _) = session_pair();
    let mut writer = NoiseOutput::new(a);
    let mut sink = Sink::new();
    sink.closed = true;

    assert_eq!(write(&mut writer, &mut sink, b"abc"), Step::Ready(3));
    assert_eq!(flush(&mut writer, &mut sink), Step::Failed(Fault::WriteZero));
    assert_eq!(writer.write_state(), WriteState::Eof);
    for _ in 0..3 {
        assert_eq!(write(&mut writer, &mut sink, b"abc"), Step::Failed(Fault::WriteZero));
        assert_eq!(flush(&mut writer, &mut sink), Step::Failed(Fault::WriteZero));
        assert_eq!(writer.write_state(), WriteState::Eof);
    }
    assert!(sink.bytes.is_empty());
}

#[test]
fn sink_that_closes_mid_frame() {
    let (a, _) = session_pair();
    let mut writer = NoiseOutput::new(a);
    let mut sink = Sink::new();
    assert_eq!(write(&mut writer, &mut sink, b"abcdef"), Step::Ready(6));

    // the prefix goes out, then the sink closes
    assert_eq!(writer.poll_flush(WriteEvent::Enter), Step::Io(2));
    assert_eq!(writer.pending_output(), &[0u8, 22][..]);
    assert_eq!(writer.poll_flush(WriteEvent::Wrote(2)), Step::Io(22));
    assert_eq!(writer.write_state(), WriteState::WriteData { len: 22, off: 0 });
    assert_eq!(writer.poll_flush(WriteEvent::Wrote(10)), Step::Io(12));
    assert_eq!(writer.pending_output().len(), 12);
    assert_eq!(writer.poll_flush(WriteEvent::Wrote(0)), Step::Failed(Fault::WriteZero));
    assert_eq!(write(&mut writer, &mut sink, b"x"), Step::Failed(Fault::WriteZero));
}

#[test]
fn empty_flush_is_a_no_op() {
    let (a, _) = session_pair();
    let mut writer = NoiseOutput::new(a);
    let mut sink = Sink::new();
    assert_eq!(flush(&mut writer, &mut sink), Step::Ready(()));
    assert_eq!(writer.poll_flush(WriteEvent::Enter), Step::Ready(()));
    assert_eq!(writer.write_state(), WriteState::Init);
    assert!(writer.pending_output().is_empty());
    assert!(sink.bytes.is_empty());
}

#[test]
fn encryption_failure_is_final() {
    // the responder of a one-way pattern may not write
    let (_, b) = one_way_pair();
    let mut writer = NoiseOutput::new(b);
    let mut sink = Sink::new();
    assert_eq!(write(&mut writer, &mut sink, b"no"), Step::Ready(2));
    assert_eq!(flush(&mut writer, &mut sink), Step::Failed(Fault::InvalidData));
    assert_eq!(writer.write_state(), WriteState::EncErr);
    for _ in 0..3 {
        assert_eq!(write(&mut writer, &mut sink, b"no"), Step::Failed(Fault::InvalidData));
        assert_eq!(flush(&mut writer, &mut sink), Step::Failed(Fault::InvalidData));
    }
    assert!(sink.bytes.is_empty());
}

#[test]
fn encryption_failure_on_a_full_accumulator() {
    let (_, b) = one_way_pair();
    let mut writer = NoiseOutput::new(b);
    let mut sink = Sink::new();
    let data = vec![1u8; MAX_WRITE_BUF_LEN];
    assert_eq!(write(&mut writer, &mut sink, &data), Step::Failed(Fault::InvalidData));
    assert_eq!(writer.write_state(), WriteState::EncErr);
}

#[test]
fn one_way_session_carries_bytes_one_way() {
    let (a, b) = one_way_pair();
    let mut writer = NoiseOutput::new(a);
    let mut reader = NoiseOutput::new(b);
    let mut sink = Sink::new();
    assert_eq!(write(&mut writer, &mut sink, b"one way"), Step::Ready(7));
    assert_eq!(flush(&mut writer, &mut sink), Step::Ready(()));
    let mut source = Source::new(sink.bytes);
    let mut dst = [0u8; 16];
    assert_eq!(read(&mut reader, &mut source, &mut dst), Step::Ready(7));
    assert_eq!(&dst[..7], b"one way");
}

#[test]
fn pending_read_resumes_where_it_stopped() {
    let (a, b) = session_pair();
    let mut writer = NoiseOutput::new(a);
    let mut reader = NoiseOutput::new(b);
    let mut sink = Sink::new();
    assert_eq!(write(&mut writer, &mut sink, b"resume"), Step::Ready(6));
    assert_eq!(flush(&mut writer, &mut sink), Step::Ready(()));
    let wire = sink.bytes;
    let mut dst = [0u8; 16];

    assert_eq!(reader.poll_read(ReadEvent::Enter, &mut dst), Step::Io(2));
    assert_eq!(reader.poll_read(ReadEvent::Data(&wire[..1]), &mut dst), Step::Io(1));
    let held = reader.read_state();
    assert_eq!(held, ReadState::ReadLen { buf: [0, 0], off: 1 });
    // the transport is not ready: nothing moves
    assert_eq!(reader.poll_read(ReadEvent::Pending, &mut dst), Step::Pending);
    assert_eq!(reader.read_state(), held);
    // the next call asks for the same byte
    assert_eq!(reader.poll_read(ReadEvent::Enter, &mut dst), Step::Io(1));
    assert_eq!(reader.read_state(), held);
    assert_eq!(reader.poll_read(ReadEvent::Data(&wire[1..2]), &mut dst), Step::Io(22));
    assert_eq!(reader.read_state(), ReadState::ReadData { len: 22, off: 0 });
    assert_eq!(reader.poll_read(ReadEvent::Data(&wire[2..10]), &mut dst), Step::Io(14));
    assert_eq!(reader.poll_read(ReadEvent::Pending, &mut dst), Step::Pending);
    assert_eq!(reader.read_state(), ReadState::ReadData { len: 22, off: 8 });
    assert_eq!(reader.poll_read(ReadEvent::Enter, &mut dst), Step::Io(14));
    assert_eq!(reader.poll_read(ReadEvent::Data(&wire[10..]), &mut dst), Step::Ready(6));
    assert_eq!(&dst[..6], b"resume");
}

#[test]
fn transport_error_is_not_final() {
    let (a, b) = session_pair();
    let mut writer = NoiseOutput::new(a);
    let mut reader = NoiseOutput::new(b);
    let mut sink = Sink::new();
    assert_eq!(write(&mut writer, &mut sink, b"again"), Step::Ready(5));

    assert_eq!(writer.poll_flush(WriteEvent::Enter), Step::Io(2));
    let held = writer.write_state();
    assert_eq!(writer.poll_flush(WriteEvent::Failed), Step::Failed(Fault::Transport));
    assert_eq!(writer.write_state(), held);
    assert_eq!(writer.poll_flush(WriteEvent::Pending), Step::Pending);
    assert_eq!(writer.write_state(), held);
    assert_eq!(writer.poll_write(WriteEvent::Failed, b"zz"), Step::Failed(Fault::Transport));
    assert_eq!(writer.write_state(), held);
    assert_eq!(flush(&mut writer, &mut sink), Step::Ready(()));

    let wire = sink.bytes;
    let mut dst = [0u8; 16];
    assert_eq!(reader.poll_read(ReadEvent::Enter, &mut dst), Step::Io(2));
    assert_eq!(reader.poll_read(ReadEvent::Failed, &mut dst), Step::Failed(Fault::Transport));
    assert_eq!(reader.read_state(), ReadState::ReadLen { buf: [0, 0], off: 0 });
    let mut source = Source::new(wire);
    assert_eq!(read(&mut reader, &mut source, &mut dst), Step::Ready(5));
    assert_eq!(&dst[..5], b"again");
}

#[test]
fn small_destination_takes_a_frame_in_pieces() {
    let (a, b) = session_pair();
    let mut writer = NoiseOutput::new(a);
    let mut reader = NoiseOutput::new(b);
    let mut sink = Sink::new();
    assert_eq!(write(&mut writer, &mut sink, b"0123456789"), Step::Ready(10));
    assert_eq!(flush(&mut writer, &mut sink), Step::Ready(()));
    let mut source = Source::new(sink.bytes);

    let mut dst = [0u8; 4];
    assert_eq!(read(&mut reader, &mut source, &mut dst), Step::Ready(4));
    assert_eq!(&dst, b"0123");
    assert_eq!(reader.read_state(), ReadState::CopyData { len: 10, off: 4 });
    // nothing to put the bytes in: nothing moves
    assert_eq!(read(&mut reader, &mut source, &mut []), Step::Ready(0));
    assert_eq!(reader.read_state(), ReadState::CopyData { len: 10, off: 4 });
    assert_eq!(read(&mut reader, &mut source, &mut dst), Step::Ready(4));
    assert_eq!(&dst, b"4567");
    assert_eq!(read(&mut reader, &mut source, &mut dst), Step::Ready(2));
    assert_eq!(&dst, b"8967");
    assert_eq!(reader.read_state(), ReadState::ReadLen { buf: [0, 0], off: 0 });
}

#[test]
fn write_reports_what_it_took() {
    let (a, _) = session_pair();
    let mut writer = NoiseOutput::new(a);
    let mut sink = Sink::new();
    let data = vec![3u8; 20000];
    assert_eq!(write(&mut writer, &mut sink, &data[..10000]), Step::Ready(10000));
    assert_eq!(writer.write_state(), WriteState::BufferData { off: 10000 });
    // only 6384 more fit
    assert_eq!(write(&mut writer, &mut sink, &data[10000..]), Step::Ready(6384));
    assert_eq!(write(&mut writer, &mut sink, &data[16384..]), Step::Ready(3616));
    assert_eq!(writer.write_state(), WriteState::BufferData { off: 3616 });
}

#[test]
fn round_trip_over_any_splitting() {
    let (a, b) = session_pair();
    let mut writer = NoiseOutput::new(a);
    let mut reader = NoiseOutput::new(b);
    let mut sink = Sink::new();
    let data: Vec<u8> = (0..100_000u32).map(|i| (i.wrapping_mul(2654435761) >> 13) as u8).collect();

    // write in pieces of changing size, flush now and then, through a sink
    // that takes a few bytes at a time
    let mut seed: u32 = 12345;
    let mut pos = 0;
    while pos < data.len() {
        seed = seed.wrapping_mul(1103515245).wrapping_add(12345);
        let want = 1 + (seed >> 8) as usize % 30000;
        let end = (pos + want).min(data.len());
        sink.cap = 1 + (seed >> 4) as usize % 700;
        match write(&mut writer, &mut sink, &data[pos..end]) {
            Step::Ready(n) => {
                assert!(n <= end - pos);
                pos += n;
            }
            other => panic!("write stopped with {:?}", other),
        }
        if seed % 3 == 0 {
            assert_eq!(flush(&mut writer, &mut sink), Step::Ready(()));
        }
    }
    assert_eq!(flush(&mut writer, &mut sink), Step::Ready(()));
    assert_eq!(writer.write_state(), WriteState::Init);

    let mut source = Source::new(sink.bytes);
    source.cap = 333;
    let all = read_exactly(&mut reader, &mut source, data.len(), 777);
    assert_eq!(all, data);
    assert_eq!(source.left(), 0);
}

#[test]
fn both_directions_are_independent() {
    let (a, b) = session_pair();
    let mut left = NoiseOutput::new(a);
    let mut right = NoiseOutput::new(b);
    let mut to_right = Sink::new();
    let mut to_left = Sink::new();

    assert_eq!(write(&mut left, &mut to_right, b"ping"), Step::Ready(4));
    assert_eq!(flush(&mut left, &mut to_right), Step::Ready(()));
    assert_eq!(write(&mut right, &mut to_left, b"pong!"), Step::Ready(5));
    assert_eq!(flush(&mut right, &mut to_left), Step::Ready(()));

    // reading fails on the left; writing there goes on
    let mut broken = to_left.bytes.clone();
    broken[3] ^= 0x80;
    let mut source = Source::new(broken);
    let mut dst = [0u8; 8];
    assert_eq!(read(&mut left, &mut source, &mut dst), Step::Failed(Fault::InvalidData));
    assert_eq!(write(&mut left, &mut to_right, b"more"), Step::Ready(4));
    assert_eq!(flush(&mut left, &mut to_right), Step::Ready(()));

    let mut source = Source::new(to_right.bytes);
    assert_eq!(read(&mut right, &mut source, &mut dst), Step::Ready(4));
    assert_eq!(&dst[..4], b"ping");
    assert_eq!(read(&mut right, &mut source, &mut dst), Step::Ready(4));
    assert_eq!(&dst[..4], b"more");
}

#[test]
fn every_frame_fits() {
    let (a, _) = session_pair();
    let mut writer = NoiseOutput::new(a);
    let mut sink = Sink::new();
    let data = vec![0x5au8; 70_000];
    let mut pos = 0;
    while pos < data.len() {
        match write(&mut writer, &mut sink, &data[pos..]) {
            Step::Ready(n) => pos += n,
            other => panic!("write stopped with {:?}", other),
        }
    }
    assert_eq!(flush(&mut writer, &mut sink), Step::Ready(()));

    // the wire is frames and nothing else: four full ones and the rest
    let wire = sink.bytes;
    let mut at = 0;
    let mut plain = Vec::new();
    while at < wire.len() {
        let len = usize::from(wire[at]) * 256 + usize::from(wire[at + 1]);
        assert!(len <= 65535);
        assert!(len >= TAG);
        assert!(len - TAG <= MAX_WRITE_BUF_LEN);
        plain.push(len - TAG);
        at += 2 + len;
    }
    assert_eq!(at, wire.len());
    assert_eq!(plain, vec![16384, 16384, 16384, 16384, 70_000 - 4 * 16384]);
}

#[test]
fn state_after_the_answer_to_a_decryption() {
    assert_eq!(after_open(Ok(0)), ReadState::CopyData { len: 0, off: 0 });
    assert_eq!(after_open(Ok(1)), ReadState::CopyData { len: 1, off: 0 });
    assert_eq!(after_open(Ok(65519)), ReadState::CopyData { len: 65519, off: 0 });
    assert_eq!(after_open(Err(snow::Error::Decrypt)), ReadState::DecErr);
    assert_eq!(after_open(Err(snow::Error::Input)), ReadState::DecErr);
}

#[test]
fn state_after_the_answer_to_an_encryption() {
    assert_eq!(after_seal(Ok(18)), WriteState::WriteLen { len: 18, buf: [0, 18], off: 0 });
    assert_eq!(after_seal(Ok(16400)), WriteState::WriteLen { len: 16400, buf: [0x40, 0x10], off: 0 });
    assert_eq!(after_seal(Ok(65535)), WriteState::WriteLen { len: 65535, buf: [0xff, 0xff], off: 0 });
    assert_eq!(after_seal(Ok(0)), WriteState::WriteLen { len: 0, buf: [0, 0], off: 0 });
    assert_eq!(after_seal(Err(snow::Error::Input)), WriteState::EncErr);
    assert_eq!(after_seal(Err(snow::Error::Decrypt)), WriteState::EncErr);
}

#[test]
fn new_arena_is_zeroed() {
    let (a, _) = session_pair();
    let mut core = NoiseOutput::new(a);
    // what is handed out of an arena that nothing was read into is zeros
    let mut dst = vec![7u8; 70_000];
    assert_eq!(core.copy_data(65535, 0, &mut dst), Step::Ready(65535));
    assert!(dst[..65535].iter().all(|b| *b == 0));
    assert!(dst[65535..].iter().all(|b| *b == 7));
    assert_eq!(core.read_state(), ReadState::ReadLen { buf: [0, 0], off: 0 });
    assert_eq!(core.write_state(), WriteState::Init);
}

#[test]
fn copy_data_hands_out_what_is_left() {
    let (a, b) = session_pair();
    let mut writer = NoiseOutput::new(a);
    let mut reader = NoiseOutput::new(b);
    let mut sink = Sink::new();
    assert_eq!(write(&mut writer, &mut sink, b"0123456789"), Step::Ready(10));
    assert_eq!(flush(&mut writer, &mut sink), Step::Ready(()));
    let mut source = Source::new(sink.bytes);

    let mut dst = [0u8; 3];
    assert_eq!(read(&mut reader, &mut source, &mut dst), Step::Ready(3));
    assert_eq!(&dst, b"012");
    assert_eq!(reader.read_state(), ReadState::CopyData { len: 10, off: 3 });

    // as many as fit
    assert_eq!(reader.copy_data(10, 3, &mut dst), Step::Ready(3));
    assert_eq!(&dst, b"345");
    assert_eq!(reader.read_state(), ReadState::CopyData { len: 10, off: 6 });
    // none where nothing fits
    assert_eq!(reader.copy_data(10, 6, &mut []), Step::Ready(0));
    assert_eq!(reader.read_state(), ReadState::CopyData { len: 10, off: 6 });
    // as many as are left, and the next frame is awaited
    let mut dst = [b'-'; 8];
    assert_eq!(reader.copy_data(10, 6, &mut dst), Step::Ready(4));
    assert_eq!(&dst, b"6789----");
    assert_eq!(reader.read_state(), ReadState::ReadLen { buf: [0, 0], off: 0 });
    // a plaintext of no bytes hands out nothing
    assert_eq!(reader.copy_data(0, 0, &mut dst), Step::Ready(0));
    assert_eq!(&dst, b"6789----");
    assert_eq!(reader.read_state(), ReadState::ReadLen { buf: [0, 0], off: 0 });
}
