use lanflow::error::{IoErrorKind, ProtocolError};
use lanflow::frame::{
    read_base_header, read_extra, read_frame, write_frame, Frame, FrameHeader, FrameType,
    BASE_HEADER_LEN, FLAG_MORE,
};
use lanflow::protocol::MAX_FRAME_SIZE;

fn be(bytes: &mut Vec<u8>, n: u64, width: usize) {
    bytes.extend_from_slice(&n.to_be_bytes()[8 - width..]);
}

fn base(major: u16, minor: u16, header_len: u16, code: u16, body_len: u32) -> Vec<u8> {
    let mut bytes = b"LNF!".to_vec();
    be(&mut bytes, major as u64, 2);
    be(&mut bytes, minor as u64, 2);
    be(&mut bytes, header_len as u64, 2);
    be(&mut bytes, code as u64, 2);
    be(&mut bytes, 0, 4);
    be(&mut bytes, body_len as u64, 4);
    be(&mut bytes, 0, 4);
    be(&mut bytes, 0, 8);
    bytes
}

#[test]
fn frame_roundtrip_and_version_fields() {
    let frame = Frame {
        header: FrameHeader {
            file_offset: 42,
            sequence: 7,
            ..FrameHeader::new(FrameType::Data, 3, 99)
        },
        body: b"hello".to_vec(),
    };
    let mut output = Vec::new();
    write_frame(&mut output, &frame).unwrap();
    let golden: &[u8] = &[
        0x4c, 0x4e, 0x46, 0x21, // magic
        0x00, 0x01, 0x00, 0x00, // major, minor
        0x00, 0x30, 0x00, 0x04, // header length, data frame
        0x00, 0x00, 0x00, 0x00, // flags
        0x00, 0x00, 0x00, 0x05, // body length
        0x00, 0x00, 0x00, 0x03, // stream ID
        0x00, 0x00, 0x00, 0x00, 0x00, 0x00, 0x00, 0x63, // request ID
        0x00, 0x00, 0x00, 0x00, 0x00, 0x00, 0x00, 0x2a, // file offset
        0x00, 0x00, 0x00, 0x07, // sequence
        0x00, 0x00, 0x00, 0x00, // reserved
        0x68, 0x65, 0x6c, 0x6c, 0x6f, // hello
    ];
    assert_eq!(output, golden);
    let (decoded, used) = read_frame(&output[..]).unwrap();
    assert_eq!(decoded.header, frame.header);
    assert_eq!(decoded.body, frame.body);
    assert_eq!(used, output.len());
}

#[test]
fn rejects_oversized_body_before_allocation() {
    let bytes = base(
        1,
        0,
        BASE_HEADER_LEN as u16,
        FrameType::Data.code(),
        (MAX_FRAME_SIZE + 1) as u32,
    );
    let error = read_frame(&bytes[..]).unwrap_err();
    assert!(error.message().contains("超过上限"));
    assert_eq!(error.message(), "协议错误: 帧正文 1048577 超过上限");
}

#[test]
fn unknown_minor_extension_is_length_delimited() {
    let frame = Frame {
        header: FrameHeader::new(FrameType::Unknown(0x9001), 0, 0),
        body: b"future".to_vec(),
    };
    let mut output = Vec::new();
    write_frame(&mut output, &frame).unwrap();
    let (decoded, _) = read_frame(&output[..]).unwrap();
    assert_eq!(decoded.header.frame_type, FrameType::Unknown(0x9001));
    assert_eq!(decoded.body, b"future".to_vec());
}

#[test]
fn truncated_frame_is_rejected() {
    let frame = Frame {
        header: FrameHeader::new(FrameType::Control, 1, 2),
        body: b"control".to_vec(),
    };
    let mut output = Vec::new();
    write_frame(&mut output, &frame).unwrap();
    output.pop();
    assert!(read_frame(&output[..]).is_err());
}

#[test]
fn every_truncation_is_an_early_end() {
    let frame = Frame {
        header: FrameHeader::new(FrameType::Control, 1, 2),
        body: b"abc".to_vec(),
    };
    let mut output = Vec::new();
    write_frame(&mut output, &frame).unwrap();
    for kept in 0..output.len() {
        match read_frame(&output[..kept]) {
            Err(ProtocolError::Io(io)) => {
                assert_eq!(io.kind, IoErrorKind::UnexpectedEof);
                assert_eq!(io.message, "early eof");
            }
            _ => panic!("kept {}", kept),
        }
    }
}

#[test]
fn frames_follow_each_other() {
    let first = Frame {
        header: FrameHeader { flags: FLAG_MORE, ..FrameHeader::new(FrameType::Control, 8, 9) },
        body: vec![1, 2, 3],
    };
    let second = Frame { header: FrameHeader::new(FrameType::Ping, 0, 1), body: Vec::new() };
    let mut output = Vec::new();
    write_frame(&mut output, &first).unwrap();
    write_frame(&mut output, &second).unwrap();
    let (a, used) = read_frame(&output[..]).unwrap();
    let (b, rest) = read_frame(&output[used..]).unwrap();
    assert_eq!(a.header, first.header);
    assert_eq!(a.body, first.body);
    assert_eq!(b.header, second.header);
    assert_eq!(used + rest, output.len());
}

#[test]
fn longer_headers_are_passed_over() {
    let mut bytes = base(1, 3, 60, 3, 2);
    be(&mut bytes, 5, 8);
    be(&mut bytes, 6, 4);
    be(&mut bytes, 0, 4);
    bytes.extend_from_slice(&[0xaa; 12]);
    bytes.extend_from_slice(b"ok");
    let (frame, used) = read_frame(&bytes).unwrap();
    assert_eq!(frame.header.minor, 3);
    assert_eq!(frame.header.file_offset, 5);
    assert_eq!(frame.header.sequence, 6);
    assert_eq!(frame.body, b"ok".to_vec());
    assert_eq!(used, bytes.len());
}

#[test]
fn short_headers_have_no_offset() {
    let mut bytes = base(1, 0, 47, 4, 1);
    bytes.extend_from_slice(&[0xff; 15]);
    bytes.push(9);
    let (frame, _) = read_frame(&bytes).unwrap();
    assert_eq!(frame.header.file_offset, 0);
    assert_eq!(frame.header.sequence, 0);
    assert_eq!(frame.body, vec![9]);
}

#[test]
fn bad_headers_are_refused() {
    let mut wrong = base(1, 0, 32, 3, 0);
    wrong[3] = b'?';
    assert_eq!(read_frame(&wrong).unwrap_err().message(), "协议错误: 帧 magic 不匹配");
    let short = base(1, 0, 31, 3, 0);
    assert_eq!(read_frame(&short).unwrap_err().message(), "协议错误: 非法帧头长度 31");
    let long = base(1, 0, 257, 3, 0);
    assert_eq!(read_frame(&long).unwrap_err().message(), "协议错误: 非法帧头长度 257");
}

#[test]
fn large_bodies_are_not_written() {
    let frame = Frame {
        header: FrameHeader::new(FrameType::Data, 0, 0),
        body: vec![0; MAX_FRAME_SIZE + 1],
    };
    let mut output = vec![7];
    let error = write_frame(&mut output, &frame).unwrap_err();
    assert_eq!(error.message(), "协议错误: 帧正文超过上限");
    assert_eq!(output, vec![7]);
}

#[test]
fn type_numbers_and_names() {
    for code in 0..=20u16 {
        let frame_type = FrameType::try_from(code).unwrap();
        assert_eq!(frame_type.code(), code);
        assert_eq!(matches!(frame_type, FrameType::Unknown(_)), code == 0 || code > 8);
    }
    assert_eq!(FrameType::Unknown(3).code(), 3);
    assert_eq!(FrameType::try_from(3).unwrap(), FrameType::Control);
}

#[test]
fn header_in_two_parts() {
    let mut bytes = base(1, 0, 48, 4, 10);
    let first = read_base_header(&bytes).unwrap();
    assert_eq!(first.extra_len, 16);
    assert_eq!(first.body_len, 10);
    let mut extra = Vec::new();
    be(&mut extra, 0x0102030405060708, 8);
    be(&mut extra, 0x0a0b0c0d, 4);
    be(&mut extra, 0, 4);
    let full = read_extra(first.header, &extra);
    assert_eq!(full.file_offset, 0x0102030405060708);
    assert_eq!(full.sequence, 0x0a0b0c0d);
    bytes[0] = 0;
    assert!(read_base_header(&bytes).is_err());
}
