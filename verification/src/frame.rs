//! Frames: what travels over a connection, and how it is laid out in bytes.

use vstd::prelude::*;
use vstd::slice::{slice_subrange, slice_to_vec};

use crate::big_endian;
use crate::error::{IoError, IoErrorKind, IoErrorView, ProtocolError, ProtocolErrorView};
use crate::protocol::{MAX_FRAME_SIZE, PROTOCOL_MAJOR, PROTOCOL_MINOR};
use crate::text;

verus! {

/// The length of the part of a header that every version has.
pub const BASE_HEADER_LEN: usize = 32;

/// The length of the headers that this version writes.
pub const V1_HEADER_LEN: usize = 48;

/// The longest header that is read.
pub const MAX_HEADER_LEN: usize = 256;

/// Set in the flags of a frame that is not the last answer to its request.
pub const FLAG_MORE: u32 = 1;

/// The bytes that every frame begins with.
pub open spec fn magic() -> Seq<u8> {
    seq![0x4c, 0x4e, 0x46, 0x21]
}

/// What a frame is for.
#[derive(Clone, Copy, Debug, PartialEq, Eq, Structural)]
pub enum FrameType {
    Hello,
    VersionReject,
    Control,
    Data,
    Error,
    Cancel,
    Ping,
    Pong,
    /// A length-delimited frame added by a compatible future minor version.
    Unknown(u16),
}

impl FrameType {
    /// The number of a type.
    pub open spec fn number(self) -> u16 {
        match self {
            FrameType::Hello => 1,
            FrameType::VersionReject => 2,
            FrameType::Control => 3,
            FrameType::Data => 4,
            FrameType::Error => 5,
            FrameType::Cancel => 6,
            FrameType::Ping => 7,
            FrameType::Pong => 8,
            FrameType::Unknown(code) => code,
        }
    }

    /// The type with a number.
    pub open spec fn of(number: u16) -> FrameType {
        match number {
            1 => FrameType::Hello,
            2 => FrameType::VersionReject,
            3 => FrameType::Control,
            4 => FrameType::Data,
            5 => FrameType::Error,
            6 => FrameType::Cancel,
            7 => FrameType::Ping,
            8 => FrameType::Pong,
            other => FrameType::Unknown(other),
        }
    }

    /// Whether the type is written in the way that it is read: a known type
    /// under its name.
    pub open spec fn canonical(self) -> bool {
        !(self matches FrameType::Unknown(code) && 1 <= code <= 8)
    }

    pub fn code(self) -> (code: u16)
        ensures
            code == self.number(),
    {
        match self {
            FrameType::Hello => 1,
            FrameType::VersionReject => 2,
            FrameType::Control => 3,
            FrameType::Data => 4,
            FrameType::Error => 5,
            FrameType::Cancel => 6,
            FrameType::Ping => 7,
            FrameType::Pong => 8,
            FrameType::Unknown(code) => code,
        }
    }

    /// The type with a number; numbers without a name are kept.
    pub fn try_from(value: u16) -> (frame_type: Result<FrameType, ProtocolError>)
        ensures
            frame_type matches Ok(t) && t == FrameType::of(value),
    {
        Ok(
            match value {
                1 => FrameType::Hello,
                2 => FrameType::VersionReject,
                3 => FrameType::Control,
                4 => FrameType::Data,
                5 => FrameType::Error,
                6 => FrameType::Cancel,
                7 => FrameType::Ping,
                8 => FrameType::Pong,
                other => FrameType::Unknown(other),
            },
        )
    }
}

/// Types and their numbers name each other.
pub proof fn law_frame_type_numbers(frame_type: FrameType, number: u16)
    ensures
        FrameType::of(number).number() == number,
        FrameType::of(number).canonical(),
        frame_type.canonical() ==> FrameType::of(frame_type.number()) == frame_type,
{
}

/// What stands before the body of a frame.
#[derive(Clone, Copy, Debug, PartialEq, Eq, Structural)]
pub struct FrameHeader {
    pub major: u16,
    pub minor: u16,
    pub frame_type: FrameType,
    pub flags: u32,
    pub stream_id: u32,
    pub request_id: u64,
    pub file_offset: u64,
    pub sequence: u32,
}

impl FrameHeader {
    /// A header of this version with nothing set but what is given.
    pub open spec fn plain(frame_type: FrameType, stream_id: u32, request_id: u64) -> FrameHeader {
        FrameHeader {
            major: PROTOCOL_MAJOR,
            minor: PROTOCOL_MINOR,
            frame_type,
            flags: 0,
            stream_id,
            request_id,
            file_offset: 0,
            sequence: 0,
        }
    }

    pub fn new(frame_type: FrameType, stream_id: u32, request_id: u64) -> (header: FrameHeader)
        ensures
            header == FrameHeader::plain(frame_type, stream_id, request_id),
    {
        FrameHeader {
            major: PROTOCOL_MAJOR,
            minor: PROTOCOL_MINOR,
            frame_type,
            flags: 0,
            stream_id,
            request_id,
            file_offset: 0,
            sequence: 0,
        }
    }
}

/// A frame.
#[derive(Debug)]
pub struct Frame {
    pub header: FrameHeader,
    pub body: Vec<u8>,
}

/// The model of a [`Frame`].
#[verifier::ext_equal]
pub struct FrameView {
    pub header: FrameHeader,
    pub body: Seq<u8>,
}

impl View for Frame {
    type V = FrameView;

    open spec fn view(&self) -> FrameView {
        FrameView { header: self.header, body: self.body@ }
    }
}

/// The bytes of a frame's header as this version knows them, given the length
/// of the header and of the body.
pub open spec fn header_bytes(header: FrameHeader, header_len: nat, body_len: nat) -> Seq<u8> {
    magic() + big_endian::be_bytes(header.major as nat, 2) + big_endian::be_bytes(header.minor as nat, 2)
        + big_endian::be_bytes(header_len, 2) + big_endian::be_bytes(
        header.frame_type.number() as nat,
        2,
    ) + big_endian::be_bytes(header.flags as nat, 4) + big_endian::be_bytes(body_len, 4) + big_endian::be_bytes(
        header.stream_id as nat,
        4,
    ) + big_endian::be_bytes(header.request_id as nat, 8) + big_endian::be_bytes(
        header.file_offset as nat,
        8,
    ) + big_endian::be_bytes(header.sequence as nat, 4) + big_endian::be_bytes(0, 4)
}

/// The bytes of a frame.
pub open spec fn frame_bytes(frame: FrameView) -> Seq<u8> {
    header_bytes(frame.header, V1_HEADER_LEN as nat, frame.body.len()) + frame.body
}

/// The bytes of a frame of a later version, whose header goes on after what
/// this version knows.
pub open spec fn extended_frame_bytes(frame: FrameView, extension: Seq<u8>) -> Seq<u8> {
    header_bytes(
        frame.header,
        V1_HEADER_LEN as nat + extension.len(),
        frame.body.len(),
    ) + extension + frame.body
}

/// Appends a frame; one with too large a body is refused.
pub fn write_frame(writer: &mut Vec<u8>, frame: &Frame) -> (written: Result<(), ProtocolError>)
    ensures
        frame@.body.len() <= MAX_FRAME_SIZE ==> written is Ok && final(writer)@ == old(writer)@
            + frame_bytes(frame@),
        frame@.body.len() > MAX_FRAME_SIZE ==> (written matches Err(e) && e@
            == ProtocolErrorView::Protocol("帧正文超过上限"@)) && final(writer)@ == old(writer)@,
{
    if frame.body.len() > MAX_FRAME_SIZE {
        return Err(ProtocolError::Protocol("帧正文超过上限".to_owned()));
    }
    let ghost start = writer@;
    writer.push(0x4c);
    writer.push(0x4e);
    writer.push(0x46);
    writer.push(0x21);
    assert(writer@ =~= start + magic());
    big_endian::put_be(writer, frame.header.major as u64, 2);
    big_endian::put_be(writer, frame.header.minor as u64, 2);
    big_endian::put_be(writer, V1_HEADER_LEN as u64, 2);
    big_endian::put_be(writer, frame.header.frame_type.code() as u64, 2);
    big_endian::put_be(writer, frame.header.flags as u64, 4);
    big_endian::put_be(writer, frame.body.len() as u64, 4);
    big_endian::put_be(writer, frame.header.stream_id as u64, 4);
    big_endian::put_be(writer, frame.header.request_id, 8);
    big_endian::put_be(writer, frame.header.file_offset, 8);
    big_endian::put_be(writer, frame.header.sequence as u64, 4);
    big_endian::put_be(writer, 0, 4);
    writer.extend_from_slice(frame.body.as_slice());
    assert(writer@ =~= start + frame_bytes(frame@));
    Ok(())
}

/// What the part of a header says that every version has: the header without
/// the fields that follow, the length of what follows, and the length of the
/// body.
#[derive(Clone, Copy, Debug, PartialEq, Eq, Structural)]
pub struct BaseHeader {
    pub header: FrameHeader,
    pub extra_len: usize,
    pub body_len: usize,
}

/// The number in some bytes of `data`.
pub open spec fn number_at(data: Seq<u8>, from: int, to: int) -> nat {
    big_endian::be_value(data.subrange(from, to))
}

/// What the first bytes of a frame say, or why they are refused.
pub open spec fn base_of(base: Seq<u8>) -> Result<BaseHeader, ProtocolErrorView> {
    let header_len = number_at(base, 8, 10);
    let body_len = number_at(base, 16, 20);
    if base.take(4) != magic() {
        Err(ProtocolErrorView::Protocol("帧 magic 不匹配"@))
    } else if header_len < BASE_HEADER_LEN || header_len > MAX_HEADER_LEN {
        Err(ProtocolErrorView::Protocol("非法帧头长度 "@ + text::decimal(header_len)))
    } else if body_len > MAX_FRAME_SIZE {
        Err(ProtocolErrorView::Protocol("帧正文 "@ + text::decimal(body_len) + " 超过上限"@))
    } else {
        Ok(
            BaseHeader {
                header: FrameHeader {
                    major: number_at(base, 4, 6) as u16,
                    minor: number_at(base, 6, 8) as u16,
                    frame_type: FrameType::of(number_at(base, 10, 12) as u16),
                    flags: number_at(base, 12, 16) as u32,
                    stream_id: number_at(base, 20, 24) as u32,
                    request_id: number_at(base, 24, 32) as u64,
                    file_offset: 0,
                    sequence: 0,
                },
                extra_len: (header_len - BASE_HEADER_LEN) as usize,
                body_len: body_len as usize,
            },
        )
    }
}

/// A header with the fields that follow its first part, where they are there.
pub open spec fn with_extra(header: FrameHeader, extra: Seq<u8>) -> FrameHeader {
    if extra.len() >= 16 {
        FrameHeader {
            file_offset: number_at(extra, 0, 8) as u64,
            sequence: number_at(extra, 8, 12) as u32,
            ..header
        }
    } else {
        header
    }
}

/// The error for input that ends inside a frame.
pub open spec fn cut_off() -> ProtocolErrorView {
    ProtocolErrorView::Io(IoErrorView { kind: IoErrorKind::UnexpectedEof, message: "early eof"@ })
}

/// The frame at the front of `data` and the number of bytes it takes.
pub open spec fn frame_of(data: Seq<u8>) -> Result<(FrameView, nat), ProtocolErrorView> {
    if data.len() < BASE_HEADER_LEN {
        Err(cut_off())
    } else {
        match base_of(data.take(BASE_HEADER_LEN as int)) {
            Err(error) => Err(error),
            Ok(base) => {
                let body_start = BASE_HEADER_LEN + base.extra_len;
                let end = body_start + base.body_len;
                if data.len() < end {
                    Err(cut_off())
                } else {
                    let extra = data.subrange(BASE_HEADER_LEN as int, body_start as int);
                    Ok(
                        (
                            FrameView {
                                header: with_extra(base.header, extra),
                                body: data.subrange(body_start as int, end as int),
                            },
                            end as nat,
                        ),
                    )
                }
            },
        }
    }
}

/// Reads the part of a header that every version has.
pub fn read_base_header(base: &[u8]) -> (header: Result<BaseHeader, ProtocolError>)
    requires
        base@.len() == BASE_HEADER_LEN,
    ensures
        match base_of(base@) {
            Ok(expected) => header matches Ok(h) && h == expected,
            Err(error) => header matches Err(e) && e@ == error,
        },
        header matches Ok(h) ==> h.extra_len <= MAX_HEADER_LEN - BASE_HEADER_LEN && h.body_len
            <= MAX_FRAME_SIZE,
{
    proof {
        big_endian::lemma_be_limits();
    }
    let same = base[0] == 0x4c && base[1] == 0x4e && base[2] == 0x46 && base[3] == 0x21;
    proof {
        if same {
            assert(base@.take(4) =~= magic());
        } else {
            assert(base@.take(4)[0] == base@[0] && base@.take(4)[1] == base@[1] && base@.take(4)[2]
                == base@[2] && base@.take(4)[3] == base@[3]);
        }
    }
    if !same {
        return Err(ProtocolError::Protocol("帧 magic 不匹配".to_owned()));
    }
    let major: u64 = big_endian::get_be(base, 4, 6);
    let minor: u64 = big_endian::get_be(base, 6, 8);
    let header_len: u64 = big_endian::get_be(base, 8, 10);
    let code: u64 = big_endian::get_be(base, 10, 12);
    let flags: u64 = big_endian::get_be(base, 12, 16);
    let body_len: u64 = big_endian::get_be(base, 16, 20);
    let stream_id: u64 = big_endian::get_be(base, 20, 24);
    let request_id: u64 = big_endian::get_be(base, 24, 32);
    let frame_type = match FrameType::try_from(code as u16) {
        Ok(frame_type) => frame_type,
        Err(error) => {
            return Err(error);
        },
    };
    if header_len < BASE_HEADER_LEN as u64 || header_len > MAX_HEADER_LEN as u64 {
        let number = text::decimal_text(header_len);
        return Err(ProtocolError::Protocol(text::joined("非法帧头长度 ", number.as_str())));
    }
    if body_len > MAX_FRAME_SIZE as u64 {
        let number = text::decimal_text(body_len);
        let message = text::joined("帧正文 ", number.as_str());
        return Err(ProtocolError::Protocol(text::joined(message.as_str(), " 超过上限")));
    }
    Ok(
        BaseHeader {
            header: FrameHeader {
                major: major as u16,
                minor: minor as u16,
                frame_type,
                flags: flags as u32,
                stream_id: stream_id as u32,
                request_id,
                file_offset: 0,
                sequence: 0,
            },
            extra_len: (header_len as usize) - BASE_HEADER_LEN,
            body_len: body_len as usize,
        },
    )
}

/// Adds the fields that follow the first part of a header.
pub fn read_extra(header: FrameHeader, extra: &[u8]) -> (full: FrameHeader)
    ensures
        full == with_extra(header, extra@),
{
    if extra.len() >= 16 {
        proof {
            big_endian::lemma_be_limits();
        }
        let file_offset: u64 = big_endian::get_be(extra, 0, 8);
        let sequence: u64 = big_endian::get_be(extra, 8, 12);
        FrameHeader { file_offset, sequence: sequence as u32, ..header }
    } else {
        header
    }
}

/// Reads the frame at the front of `data`; the second result is the number of
/// bytes it takes.
pub fn read_frame(data: &[u8]) -> (frame: Result<(Frame, usize), ProtocolError>)
    ensures
        match frame_of(data@) {
            Ok((expected, len)) => frame matches Ok((f, n)) && f@ == expected && n == len,
            Err(error) => frame matches Err(e) && e@ == error,
        },
{
    if data.len() < BASE_HEADER_LEN {
        return Err(early_end());
    }
    let base = match read_base_header(slice_subrange(data, 0, BASE_HEADER_LEN)) {
        Ok(base) => base,
        Err(error) => {
            assert(data@.subrange(0, BASE_HEADER_LEN as int) =~= data@.take(
                BASE_HEADER_LEN as int,
            ));
            return Err(error);
        },
    };
    assert(data@.subrange(0, BASE_HEADER_LEN as int) =~= data@.take(BASE_HEADER_LEN as int));
    let body_start: usize = BASE_HEADER_LEN + base.extra_len;
    let end: usize = body_start + base.body_len;
    if data.len() < end {
        return Err(early_end());
    }
    let header = read_extra(base.header, slice_subrange(data, BASE_HEADER_LEN, body_start));
    let body = slice_to_vec(slice_subrange(data, body_start, end));
    Ok((Frame { header, body }, end))
}

fn early_end() -> (error: ProtocolError)
    ensures
        error@ == cut_off(),
{
    ProtocolError::Io(
        IoError { kind: IoErrorKind::UnexpectedEof, message: "early eof".to_owned() },
    )
}

proof fn lemma_header_layout(header: FrameHeader, header_len: nat, body_len: nat)
    requires
        header_len <= u16::MAX,
        body_len <= u32::MAX,
    ensures
        ({
            let data = header_bytes(header, header_len, body_len);
            &&& data.len() == V1_HEADER_LEN
            &&& data.take(4) == magic()
            &&& number_at(data, 4, 6) == header.major
            &&& number_at(data, 6, 8) == header.minor
            &&& number_at(data, 8, 10) == header_len
            &&& number_at(data, 10, 12) == header.frame_type.number()
            &&& number_at(data, 12, 16) == header.flags
            &&& number_at(data, 16, 20) == body_len
            &&& number_at(data, 20, 24) == header.stream_id
            &&& number_at(data, 24, 32) == header.request_id
            &&& number_at(data, 32, 40) == header.file_offset
            &&& number_at(data, 40, 44) == header.sequence
        }),
{
    big_endian::lemma_be_limits();
    let data = header_bytes(header, header_len, body_len);
    let major = big_endian::be_bytes(header.major as nat, 2);
    let minor = big_endian::be_bytes(header.minor as nat, 2);
    let full_len = big_endian::be_bytes(header_len, 2);
    let code = big_endian::be_bytes(header.frame_type.number() as nat, 2);
    let flags = big_endian::be_bytes(header.flags as nat, 4);
    let len = big_endian::be_bytes(body_len, 4);
    let stream_id = big_endian::be_bytes(header.stream_id as nat, 4);
    let request_id = big_endian::be_bytes(header.request_id as nat, 8);
    let file_offset = big_endian::be_bytes(header.file_offset as nat, 8);
    let sequence = big_endian::be_bytes(header.sequence as nat, 4);
    big_endian::lemma_be_roundtrip(header.major as nat, 2);
    big_endian::lemma_be_roundtrip(header.minor as nat, 2);
    big_endian::lemma_be_roundtrip(header_len, 2);
    big_endian::lemma_be_roundtrip(header.frame_type.number() as nat, 2);
    big_endian::lemma_be_roundtrip(header.flags as nat, 4);
    big_endian::lemma_be_roundtrip(body_len, 4);
    big_endian::lemma_be_roundtrip(header.stream_id as nat, 4);
    big_endian::lemma_be_roundtrip(header.request_id as nat, 8);
    big_endian::lemma_be_roundtrip(header.file_offset as nat, 8);
    big_endian::lemma_be_roundtrip(header.sequence as nat, 4);
    big_endian::lemma_be_len(0, 4);
    assert(data.take(4) =~= magic());
    assert(data.subrange(4, 6) =~= major);
    assert(data.subrange(6, 8) =~= minor);
    assert(data.subrange(8, 10) =~= full_len);
    assert(data.subrange(10, 12) =~= code);
    assert(data.subrange(12, 16) =~= flags);
    assert(data.subrange(16, 20) =~= len);
    assert(data.subrange(20, 24) =~= stream_id);
    assert(data.subrange(24, 32) =~= request_id);
    assert(data.subrange(32, 40) =~= file_offset);
    assert(data.subrange(40, 44) =~= sequence);
}

proof fn lemma_number_in_prefix(data: Seq<u8>, prefix: Seq<u8>, from: int, to: int)
    requires
        0 <= from <= to <= prefix.len() <= data.len(),
        data.take(prefix.len() as int) == prefix,
    ensures
        number_at(data, from, to) == number_at(prefix, from, to),
{
    assert(data.subrange(from, to) =~= prefix.subrange(from, to));
}

/// A frame of a later version is read as far as this version knows it,
/// whatever follows it, and the reader then stands behind it.
pub proof fn law_extended_frame(frame: FrameView, extension: Seq<u8>, rest: Seq<u8>)
    requires
        frame.body.len() <= MAX_FRAME_SIZE,
        V1_HEADER_LEN + extension.len() <= MAX_HEADER_LEN,
        frame.header.frame_type.canonical(),
    ensures
        frame_of(extended_frame_bytes(frame, extension) + rest) == Ok::<
            (FrameView, nat),
            ProtocolErrorView,
        >((frame, extended_frame_bytes(frame, extension).len())),
{
    let data = extended_frame_bytes(frame, extension) + rest;
    let header_len = V1_HEADER_LEN as nat + extension.len();
    let header = header_bytes(frame.header, header_len, frame.body.len());
    lemma_header_layout(frame.header, header_len, frame.body.len());
    let base = data.take(BASE_HEADER_LEN as int);
    assert(base =~= header.take(BASE_HEADER_LEN as int));
    assert(header.take(base.len() as int) =~= base);
    lemma_number_in_prefix(header, base, 4, 6);
    lemma_number_in_prefix(header, base, 6, 8);
    lemma_number_in_prefix(header, base, 8, 10);
    lemma_number_in_prefix(header, base, 10, 12);
    lemma_number_in_prefix(header, base, 12, 16);
    lemma_number_in_prefix(header, base, 16, 20);
    lemma_number_in_prefix(header, base, 20, 24);
    lemma_number_in_prefix(header, base, 24, 32);
    assert(base.take(4) =~= header.take(4));
    let extra = data.subrange(BASE_HEADER_LEN as int, header_len as int);
    assert(extra.subrange(0, 8) =~= header.subrange(32, 40));
    assert(extra.subrange(8, 12) =~= header.subrange(40, 44));
    assert(data.subrange(header_len as int, (header_len + frame.body.len()) as int) =~= frame.body);
    law_frame_type_numbers(frame.header.frame_type, 0);
}

/// A frame that was written is read back, whatever follows it, and the reader
/// then stands behind it. Left out are types that go by a number although
/// they have a name: those come back under their name.
pub proof fn law_frame_roundtrip(frame: FrameView, rest: Seq<u8>)
    requires
        frame.body.len() <= MAX_FRAME_SIZE,
        frame.header.frame_type.canonical(),
    ensures
        frame_of(frame_bytes(frame) + rest) == Ok::<(FrameView, nat), ProtocolErrorView>(
            (frame, frame_bytes(frame).len()),
        ),
{
    law_extended_frame(frame, Seq::empty(), rest);
    assert(extended_frame_bytes(frame, Seq::empty()) =~= frame_bytes(frame));
}

/// A frame that lost its last bytes is refused as cut off.
pub proof fn law_truncated_frame(frame: FrameView, kept: int)
    requires
        frame.body.len() <= MAX_FRAME_SIZE,
        0 <= kept < frame_bytes(frame).len(),
    ensures
        frame_of(frame_bytes(frame).take(kept)) == Err::<(FrameView, nat), ProtocolErrorView>(
            cut_off(),
        ),
{
    let whole = frame_bytes(frame);
    let data = whole.take(kept);
    let header = header_bytes(frame.header, V1_HEADER_LEN as nat, frame.body.len());
    lemma_header_layout(frame.header, V1_HEADER_LEN as nat, frame.body.len());
    if kept >= BASE_HEADER_LEN {
        let base = data.take(BASE_HEADER_LEN as int);
        assert(header.take(base.len() as int) =~= base);
        lemma_number_in_prefix(header, base, 8, 10);
        lemma_number_in_prefix(header, base, 16, 20);
        assert(base.take(4) =~= header.take(4));
    }
}

/// Bytes that do not begin as every frame does are refused.
pub proof fn law_other_bytes_are_refused(data: Seq<u8>)
    requires
        data.len() >= BASE_HEADER_LEN,
        data[0] != 0x4c || data[1] != 0x4e || data[2] != 0x46 || data[3] != 0x21,
    ensures
        frame_of(data) == Err::<(FrameView, nat), ProtocolErrorView>(
            ProtocolErrorView::Protocol("帧 magic 不匹配"@),
        ),
{
    let base = data.take(BASE_HEADER_LEN as int);
    let front = base.take(4);
    assert(front[0] == data[0] && front[1] == data[1] && front[2] == data[2] && front[3]
        == data[3]);
    assert(magic()[0] == 0x4c && magic()[1] == 0x4e && magic()[2] == 0x46 && magic()[3] == 0x21);
}

/// A frame whose body is larger than a frame may be is refused before its body
/// is read, and so is one whose header is longer than a header may be.
pub proof fn law_too_large_frames_are_refused(frame: FrameView, header_len: nat, body_len: nat)
    requires
        header_len <= u16::MAX,
        body_len <= u32::MAX,
        header_len < 32 || header_len > 256 || body_len > 1024 * 1024,
    ensures
        frame_of(header_bytes(frame.header, header_len, body_len) + frame.body) matches Err(
            ProtocolErrorView::Protocol(_),
        ),
{
    let header = header_bytes(frame.header, header_len, body_len);
    let data = header + frame.body;
    lemma_header_layout(frame.header, header_len, body_len);
    let base = data.take(BASE_HEADER_LEN as int);
    assert(base =~= header.take(BASE_HEADER_LEN as int));
    assert(header.take(base.len() as int) =~= base);
    lemma_number_in_prefix(header, base, 8, 10);
    lemma_number_in_prefix(header, base, 16, 20);
}

/// Where everything stands in a frame: four bytes that every frame begins with,
/// the version, the length of the header, the type, the flags, the length of
/// the body, the stream, the request, the place in the file and the sequence
/// number, each as a big-endian number, and behind them the body.
pub proof fn law_frames_are_laid_out(frame: FrameView)
    requires
        frame.body.len() <= MAX_FRAME_SIZE,
    ensures
        ({
            let data = frame_bytes(frame);
            &&& data.len() == 48 + frame.body.len()
            &&& data[0] == 0x4c && data[1] == 0x4e && data[2] == 0x46 && data[3] == 0x21
            &&& big_endian::be_value(data.subrange(4, 6)) == frame.header.major
            &&& big_endian::be_value(data.subrange(6, 8)) == frame.header.minor
            &&& big_endian::be_value(data.subrange(8, 10)) == 48
            &&& big_endian::be_value(data.subrange(10, 12)) == frame.header.frame_type.number()
            &&& big_endian::be_value(data.subrange(12, 16)) == frame.header.flags
            &&& big_endian::be_value(data.subrange(16, 20)) == frame.body.len()
            &&& big_endian::be_value(data.subrange(20, 24)) == frame.header.stream_id
            &&& big_endian::be_value(data.subrange(24, 32)) == frame.header.request_id
            &&& big_endian::be_value(data.subrange(32, 40)) == frame.header.file_offset
            &&& big_endian::be_value(data.subrange(40, 44)) == frame.header.sequence
            &&& data.skip(48) == frame.body
        }),
{
    let data = frame_bytes(frame);
    let header = header_bytes(frame.header, V1_HEADER_LEN as nat, frame.body.len());
    lemma_header_layout(frame.header, V1_HEADER_LEN as nat, frame.body.len());
    assert(data.take(48) =~= header);
    assert(header.take(4)[0] == data[0] && header.take(4)[1] == data[1] && header.take(4)[2]
        == data[2] && header.take(4)[3] == data[3]);
    lemma_number_in_prefix(data, header, 4, 6);
    lemma_number_in_prefix(data, header, 6, 8);
    lemma_number_in_prefix(data, header, 8, 10);
    lemma_number_in_prefix(data, header, 10, 12);
    lemma_number_in_prefix(data, header, 12, 16);
    lemma_number_in_prefix(data, header, 16, 20);
    lemma_number_in_prefix(data, header, 20, 24);
    lemma_number_in_prefix(data, header, 24, 32);
    lemma_number_in_prefix(data, header, 32, 40);
    lemma_number_in_prefix(data, header, 40, 44);
    assert(data.skip(48) =~= frame.body);
}

} // verus!
