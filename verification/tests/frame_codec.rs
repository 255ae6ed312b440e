use noise_io::frame::{
    copy_into, decode_len, encode_len, read_frame_len, write_frame_len, Fault, ReadEvent, Step,
    WriteEvent, MAX_NOISE_PKG_LEN, MAX_WRITE_BUF_LEN,
};

#[test]
fn limits() {
    assert_eq!(MAX_NOISE_PKG_LEN, 65535);
    assert_eq!(MAX_WRITE_BUF_LEN, 16384);
    assert!(MAX_NOISE_PKG_LEN >= MAX_WRITE_BUF_LEN + 16);
}

#[test]
fn length_prefix_is_big_endian() {
    assert_eq!(encode_len(0x1234), [0x12, 0x34]);
    assert_eq!(decode_len(&[0x12, 0x34]), 0x1234);
    assert_eq!(encode_len(65535), [0xff, 0xff]);
    assert_eq!(encode_len(0), [0, 0]);
    assert_eq!(encode_len(1), [0, 1]);
    assert_eq!(encode_len(256), [1, 0]);
    assert_eq!(decode_len(&[0, 0]), 0);
    assert_eq!(decode_len(&[0xff, 0xff]), 65535);
}

#[test]
fn length_prefix_round_trips() {
    for n in [0u16, 1, 255, 256, 257, 16400, 32768, 65534, 65535] {
        assert_eq!(decode_len(&encode_len(n)), n);
        assert_eq!(encode_len(n), n.to_be_bytes());
    }
}

#[test]
fn copy_into_overwrites_the_middle() {
    let mut dst = [1u8, 2, 3, 4, 5];
    copy_into(&mut dst, 1, &[9, 8]);
    assert_eq!(dst, [1, 9, 8, 4, 5]);
    copy_into(&mut dst, 5, &[]);
    assert_eq!(dst, [1, 9, 8, 4, 5]);
    copy_into(&mut dst, 0, &[0, 0, 0, 0, 0]);
    assert_eq!(dst, [0; 5]);
}

#[test]
fn read_len_in_one_piece() {
    let mut buf = [0u8; 2];
    let mut off = 0;
    assert_eq!(read_frame_len(&mut buf, &mut off, ReadEvent::Enter), Step::Io(2));
    assert_eq!((buf, off), ([0, 0], 0));
    assert_eq!(
        read_frame_len(&mut buf, &mut off, ReadEvent::Data(&[0x01, 0x02])),
        Step::Ready(Some(258))
    );
    assert_eq!((buf, off), ([1, 2], 2));
}

#[test]
fn read_len_byte_by_byte() {
    let mut buf = [0u8; 2];
    let mut off = 0;
    assert_eq!(read_frame_len(&mut buf, &mut off, ReadEvent::Data(&[0xab])), Step::Io(1));
    assert_eq!((buf, off), ([0xab, 0], 1));
    assert_eq!(read_frame_len(&mut buf, &mut off, ReadEvent::Pending), Step::Pending);
    assert_eq!((buf, off), ([0xab, 0], 1));
    assert_eq!(
        read_frame_len(&mut buf, &mut off, ReadEvent::Failed),
        Step::Failed(Fault::Transport)
    );
    assert_eq!((buf, off), ([0xab, 0], 1));
    assert_eq!(read_frame_len(&mut buf, &mut off, ReadEvent::Enter), Step::Io(1));
    assert_eq!(
        read_frame_len(&mut buf, &mut off, ReadEvent::Data(&[0xcd])),
        Step::Ready(Some(0xabcd))
    );
    assert_eq!((buf, off), ([0xab, 0xcd], 2));
}

#[test]
fn read_len_at_end_of_stream() {
    let mut buf = [0u8; 2];
    let mut off = 0;
    assert_eq!(read_frame_len(&mut buf, &mut off, ReadEvent::Data(&[])), Step::Ready(None));
    assert_eq!(off, 0);
    assert_eq!(read_frame_len(&mut buf, &mut off, ReadEvent::Data(&[7])), Step::Io(1));
    assert_eq!(read_frame_len(&mut buf, &mut off, ReadEvent::Data(&[])), Step::Ready(None));
    assert_eq!((buf, off), ([7, 0], 1));
}

#[test]
fn write_len_in_one_piece() {
    let buf = [0x12u8, 0x34];
    let mut off = 0;
    assert_eq!(write_frame_len(&buf, &mut off, WriteEvent::Enter), Step::Io(2));
    assert_eq!(off, 0);
    assert_eq!(write_frame_len(&buf, &mut off, WriteEvent::Wrote(2)), Step::Ready(true));
    assert_eq!(off, 2);
}

#[test]
fn write_len_byte_by_byte() {
    let buf = [0x12u8, 0x34];
    let mut off = 0;
    assert_eq!(write_frame_len(&buf, &mut off, WriteEvent::Wrote(1)), Step::Io(1));
    assert_eq!(off, 1);
    assert_eq!(write_frame_len(&buf, &mut off, WriteEvent::Pending), Step::Pending);
    assert_eq!(write_frame_len(&buf, &mut off, WriteEvent::Failed), Step::Failed(Fault::Transport));
    assert_eq!(off, 1);
    assert_eq!(write_frame_len(&buf, &mut off, WriteEvent::Enter), Step::Io(1));
    assert_eq!(write_frame_len(&buf, &mut off, WriteEvent::Wrote(1)), Step::Ready(true));
    assert_eq!(off, 2);
}

#[test]
fn write_len_to_closed_sink() {
    let buf = [0u8, 5];
    let mut off = 0;
    assert_eq!(write_frame_len(&buf, &mut off, WriteEvent::Wrote(0)), Step::Ready(false));
    assert_eq!(off, 0);
    let mut off = 1;
    assert_eq!(write_frame_len(&buf, &mut off, WriteEvent::Wrote(0)), Step::Ready(false));
    assert_eq!(off, 1);
}
