//! The frames of the wire protocol and their codec.
//!
//! Every frame starts with a one-byte type tag; integers are big-endian and
//! strings carry a one-byte length prefix. What a byte string means as a frame
//! is given by the spec functions `decode_client` and `encode_server`; the
//! executable functions are proved against them.
use crate::cursor::Cursor;
use crate::wire::{
    be16, be32, buf_bytes, buf_put_slice, buf_put_u16, buf_put_u32, buf_put_u8,
    buf_with_capacity, read_u16, read_u32, str_from_utf8, u16_bytes, u32_bytes,
};
use bytes::BytesMut;
use vstd::prelude::*;
use vstd::string::StringExecFns;
use vstd::utf8::{decode_utf8, encode_utf8, valid_utf8};

verus! {

/// The tag of an Error frame, server to client.
pub const TAG_ERROR: u8 = 0x10;

/// The tag of a Plate frame, client to server.
pub const TAG_PLATE: u8 = 0x20;

/// The tag of a Ticket frame, server to client.
pub const TAG_TICKET: u8 = 0x21;

/// The tag of a WantHeartbeat frame, client to server.
pub const TAG_WANT_HEARTBEAT: u8 = 0x40;

/// The tag of a Heartbeat frame, server to client.
pub const TAG_HEARTBEAT: u8 = 0x41;

/// The tag of an IAmCamera frame, client to server.
pub const TAG_I_AM_CAMERA: u8 = 0x80;

/// The tag of an IAmDispatcher frame, client to server.
pub const TAG_I_AM_DISPATCHER: u8 = 0x81;

/// A frame that a client sends.
#[derive(Clone, Debug)]
pub enum ClientFrames {
    Plate { plate: String, timestamp: u32 },
    WantHeartbeat { interval: u32 },
    IAmCamera { road: u16, mile: u16, limit: u16 },
    IAmDispatcher { roads: Vec<u16> },
}

/// A frame that the server sends.
#[derive(Clone, Debug)]
pub enum ServerFrames {
    Error { msg: String },
    Ticket {
        plate: String,
        road: u16,
        mile1: u16,
        timestamp1: u32,
        mile2: u16,
        timestamp2: u32,
        speed: u16,
    },
    Heartbeat,
}

/// Why no frame could be read.
#[derive(Debug)]
pub enum Error {
    /// The bytes so far are the start of a frame; more are needed.
    Incomplete,
    /// The bytes cannot be a frame, whatever follows. The text is a diagnostic.
    Other(String),
}

impl Error {
    /// What the error says.
    pub open spec fn text(self) -> Seq<char> {
        match self {
            Error::Incomplete => "stream ended early"@,
            Error::Other(text) => text@,
        }
    }

    /// What the error says, for a log or a reader.
    pub fn message(&self) -> (text: String)
        ensures
            text@ == self.text(),
    {
        match self {
            Error::Incomplete => String::from_str("stream ended early"),
            Error::Other(text) => text.clone(),
        }
    }
}

impl From<String> for Error {
    /// An error that says `src`.
    fn from(src: String) -> (e: Error) {
        Error::Other(src)
    }
}

impl vstd::std_specs::convert::FromSpecImpl<String> for Error {
    open spec fn obeys_from_spec() -> bool {
        true
    }

    open spec fn from_spec(src: String) -> Error {
        Error::Other(src)
    }
}

/// A client frame as a mathematical value.
pub enum ClientFrameView {
    Plate { plate: Seq<char>, timestamp: u32 },
    WantHeartbeat { interval: u32 },
    IAmCamera { road: u16, mile: u16, limit: u16 },
    IAmDispatcher { roads: Seq<u16> },
}

/// A server frame as a mathematical value.
pub enum ServerFrameView {
    Error { msg: Seq<char> },
    Ticket {
        plate: Seq<char>,
        road: u16,
        mile1: u16,
        timestamp1: u32,
        mile2: u16,
        timestamp2: u32,
        speed: u16,
    },
    Heartbeat,
}

impl View for ClientFrames {
    type V = ClientFrameView;

    open spec fn view(&self) -> ClientFrameView {
        match *self {
            ClientFrames::Plate { plate, timestamp } => ClientFrameView::Plate {
                plate: plate@,
                timestamp,
            },
            ClientFrames::WantHeartbeat { interval } => ClientFrameView::WantHeartbeat { interval },
            ClientFrames::IAmCamera { road, mile, limit } => ClientFrameView::IAmCamera {
                road,
                mile,
                limit,
            },
            ClientFrames::IAmDispatcher { roads } => ClientFrameView::IAmDispatcher {
                roads: roads@,
            },
        }
    }
}

impl View for ServerFrames {
    type V = ServerFrameView;

    open spec fn view(&self) -> ServerFrameView {
        match *self {
            ServerFrames::Error { msg } => ServerFrameView::Error { msg: msg@ },
            ServerFrames::Ticket { plate, road, mile1, timestamp1, mile2, timestamp2, speed } => {
                ServerFrameView::Ticket {
                    plate: plate@,
                    road,
                    mile1,
                    timestamp1,
                    mile2,
                    timestamp2,
                    speed,
                }
            },
            ServerFrames::Heartbeat => ServerFrameView::Heartbeat,
        }
    }
}

/// How far a frame reaches into a byte string, going by its tag and length
/// prefix alone.
pub enum Extent {
    /// A whole frame is present and takes this many bytes.
    Complete(nat),
    /// The bytes are a proper prefix of a frame.
    Incomplete,
    /// The first byte is no tag of a frame that may come from this side.
    Malformed,
}

/// What a byte string is when read as one frame from its start.
pub enum Decoded<F> {
    /// A whole frame, and the number of bytes it takes.
    Frame { frame: F, len: nat },
    /// A proper prefix of a frame.
    Incomplete,
    /// No frame, whatever bytes may follow.
    Malformed,
}

/// The 16-bit big-endian integer at index `i` of `b`.
pub open spec fn u16_at(b: Seq<u8>, i: int) -> u16 {
    be16(b[i], b[i + 1]) as u16
}

/// The 32-bit big-endian integer at index `i` of `b`.
pub open spec fn u32_at(b: Seq<u8>, i: int) -> u32 {
    be32(b[i], b[i + 1], b[i + 2], b[i + 3]) as u32
}

/// A frame of `n` bytes is complete once `n` bytes are there.
pub open spec fn extent_of_size(b: Seq<u8>, n: nat) -> Extent {
    if b.len() >= n {
        Extent::Complete(n)
    } else {
        Extent::Incomplete
    }
}

/// The extent of the client frame at the start of `b`.
pub open spec fn client_extent(b: Seq<u8>) -> Extent {
    if b.len() < 1 {
        Extent::Incomplete
    } else if b[0] == TAG_PLATE {
        if b.len() < 2 {
            Extent::Incomplete
        } else {
            extent_of_size(b, (6 + b[1]) as nat)
        }
    } else if b[0] == TAG_WANT_HEARTBEAT {
        extent_of_size(b, 5)
    } else if b[0] == TAG_I_AM_CAMERA {
        extent_of_size(b, 7)
    } else if b[0] == TAG_I_AM_DISPATCHER {
        if b.len() < 2 {
            Extent::Incomplete
        } else {
            extent_of_size(b, (2 + 2 * b[1]) as nat)
        }
    } else {
        Extent::Malformed
    }
}

/// The roads of an IAmDispatcher frame that starts at the head of `b`.
pub open spec fn roads_at(b: Seq<u8>) -> Seq<u16> {
    Seq::new(b[1] as nat, |k: int| u16_at(b, 2 + 2 * k))
}

/// The client frame at the start of `b`. A frame whose extent is complete is
/// malformed only where a plate is not valid UTF-8.
pub open spec fn decode_client(b: Seq<u8>) -> Decoded<ClientFrameView> {
    match client_extent(b) {
        Extent::Incomplete => Decoded::Incomplete,
        Extent::Malformed => Decoded::Malformed,
        Extent::Complete(n) => {
            if b[0] == TAG_PLATE {
                let text = b.subrange(2, 2 + b[1]);
                if valid_utf8(text) {
                    Decoded::Frame {
                        frame: ClientFrameView::Plate {
                            plate: decode_utf8(text),
                            timestamp: u32_at(b, 2 + b[1]),
                        },
                        len: n,
                    }
                } else {
                    Decoded::Malformed
                }
            } else if b[0] == TAG_WANT_HEARTBEAT {
                Decoded::Frame {
                    frame: ClientFrameView::WantHeartbeat { interval: u32_at(b, 1) },
                    len: n,
                }
            } else if b[0] == TAG_I_AM_CAMERA {
                Decoded::Frame {
                    frame: ClientFrameView::IAmCamera {
                        road: u16_at(b, 1),
                        mile: u16_at(b, 3),
                        limit: u16_at(b, 5),
                    },
                    len: n,
                }
            } else {
                Decoded::Frame {
                    frame: ClientFrameView::IAmDispatcher { roads: roads_at(b) },
                    len: n,
                }
            }
        },
    }
}

/// A string on the wire: one byte that counts the bytes of its UTF-8 form,
/// then those bytes.
pub open spec fn encode_text(t: Seq<char>) -> Seq<u8> {
    seq![encode_utf8(t).len() as u8] + encode_utf8(t)
}

/// Whether the length of a string's UTF-8 form fits the one-byte prefix.
pub open spec fn text_fits(t: Seq<char>) -> bool {
    encode_utf8(t).len() <= 255
}

impl ServerFrameView {
    /// Whether the frame can be written: its string fits the length prefix.
    pub open spec fn fits(self) -> bool {
        match self {
            ServerFrameView::Error { msg } => text_fits(msg),
            ServerFrameView::Ticket { plate, .. } => text_fits(plate),
            ServerFrameView::Heartbeat => true,
        }
    }
}

/// The bytes of a server frame.
pub open spec fn encode_server(f: ServerFrameView) -> Seq<u8> {
    match f {
        ServerFrameView::Error { msg } => seq![TAG_ERROR] + encode_text(msg),
        ServerFrameView::Ticket { plate, road, mile1, timestamp1, mile2, timestamp2, speed } => {
            seq![TAG_TICKET] + encode_text(plate) + u16_bytes(road) + u16_bytes(mile1) + u32_bytes(
                timestamp1,
            ) + u16_bytes(mile2) + u32_bytes(timestamp2) + u16_bytes(speed)
        },
        ServerFrameView::Heartbeat => seq![TAG_HEARTBEAT],
    }
}

/// The extent of the server frame at the start of `b`.
pub open spec fn server_extent(b: Seq<u8>) -> Extent {
    if b.len() < 1 {
        Extent::Incomplete
    } else if b[0] == TAG_ERROR {
        if b.len() < 2 {
            Extent::Incomplete
        } else {
            extent_of_size(b, (2 + b[1]) as nat)
        }
    } else if b[0] == TAG_TICKET {
        if b.len() < 2 {
            Extent::Incomplete
        } else {
            extent_of_size(b, (18 + b[1]) as nat)
        }
    } else if b[0] == TAG_HEARTBEAT {
        extent_of_size(b, 1)
    } else {
        Extent::Malformed
    }
}

/// The server frame at the start of `b`. A frame whose extent is complete is
/// malformed only where its string is not valid UTF-8.
pub open spec fn decode_server(b: Seq<u8>) -> Decoded<ServerFrameView> {
    match server_extent(b) {
        Extent::Incomplete => Decoded::Incomplete,
        Extent::Malformed => Decoded::Malformed,
        Extent::Complete(n) => {
            if b[0] == TAG_HEARTBEAT {
                Decoded::Frame { frame: ServerFrameView::Heartbeat, len: n }
            } else {
                let text = b.subrange(2, 2 + b[1]);
                let at = 2 + b[1];
                if !valid_utf8(text) {
                    Decoded::Malformed
                } else if b[0] == TAG_ERROR {
                    Decoded::Frame {
                        frame: ServerFrameView::Error { msg: decode_utf8(text) },
                        len: n,
                    }
                } else {
                    Decoded::Frame {
                        frame: ServerFrameView::Ticket {
                            plate: decode_utf8(text),
                            road: u16_at(b, at),
                            mile1: u16_at(b, at + 2),
                            timestamp1: u32_at(b, at + 4),
                            mile2: u16_at(b, at + 8),
                            timestamp2: u32_at(b, at + 10),
                            speed: u16_at(b, at + 14),
                        },
                        len: n,
                    }
                }
            }
        },
    }
}

/// The decimal digit `d` as a character.
pub open spec fn digit(d: int) -> char {
    if d == 0 {
        '0'
    } else if d == 1 {
        '1'
    } else if d == 2 {
        '2'
    } else if d == 3 {
        '3'
    } else if d == 4 {
        '4'
    } else if d == 5 {
        '5'
    } else if d == 6 {
        '6'
    } else if d == 7 {
        '7'
    } else if d == 8 {
        '8'
    } else {
        '9'
    }
}

/// The byte in decimal, without leading zeros.
pub open spec fn decimal(n: u8) -> Seq<char> {
    if n >= 100 {
        seq![digit(n as int / 100), digit(n as int / 10 % 10), digit(n as int % 10)]
    } else if n >= 10 {
        seq![digit(n as int / 10), digit(n as int % 10)]
    } else {
        seq![digit(n as int)]
    }
}

/// The diagnostic for a first byte that is no frame's tag.
pub open spec fn invalid_type_text(tag: u8) -> Seq<char> {
    "protocol error; invalid frame type byte `"@ + decimal(tag) + "`"@
}

/// The diagnostic for a frame whose text is not valid UTF-8.
pub open spec fn invalid_format_text() -> Seq<char> {
    "protocol error; invalid frame format"@
}

/// The diagnostic for client bytes that are no frame.
pub open spec fn client_diagnostic(b: Seq<u8>) -> Seq<char> {
    if client_extent(b) is Malformed {
        invalid_type_text(b[0])
    } else {
        invalid_format_text()
    }
}

/// The diagnostic for server bytes that are no frame.
pub open spec fn server_diagnostic(b: Seq<u8>) -> Seq<char> {
    if server_extent(b) is Malformed {
        invalid_type_text(b[0])
    } else {
        invalid_format_text()
    }
}

/// The decimal digit `d` as text.
fn digit_text(d: u8) -> (s: &'static str)
    requires
        d < 10,
    ensures
        s@ == seq![digit(d as int)],
{
    proof {
        reveal_strlit("0");
        reveal_strlit("1");
        reveal_strlit("2");
        reveal_strlit("3");
        reveal_strlit("4");
        reveal_strlit("5");
        reveal_strlit("6");
        reveal_strlit("7");
        reveal_strlit("8");
        reveal_strlit("9");
    }
    let s = if d == 0 {
        "0"
    } else if d == 1 {
        "1"
    } else if d == 2 {
        "2"
    } else if d == 3 {
        "3"
    } else if d == 4 {
        "4"
    } else if d == 5 {
        "5"
    } else if d == 6 {
        "6"
    } else if d == 7 {
        "7"
    } else if d == 8 {
        "8"
    } else {
        "9"
    };
    assert(s@ =~= seq![digit(d as int)]);
    s
}

/// The diagnostic for a first byte that is no frame's tag.
pub fn invalid_type_message(tag: u8) -> (text: String)
    ensures
        text@ == invalid_type_text(tag),
{
    let mut text = String::from_str("protocol error; invalid frame type byte `");
    let ghost head = text@;
    if tag >= 100 {
        text.append(digit_text(tag / 100));
    }
    if tag >= 10 {
        text.append(digit_text(tag / 10 % 10));
    }
    text.append(digit_text(tag % 10));
    assert(text@ =~= head + decimal(tag));
    text.append("`");
    text
}

/// The diagnostic for a frame whose text is not valid UTF-8.
pub fn invalid_format_message() -> (text: String)
    ensures
        text@ == invalid_format_text(),
{
    String::from_str("protocol error; invalid frame format")
}

/// The cursor `after` is `before` moved forward by `n` bytes.
pub open spec fn moved(before: Cursor<'_>, after: Cursor<'_>, n: nat) -> bool {
    &&& after.bytes() == before.bytes()
    &&& after.pos() == before.pos() + n
}

/// Reads one byte.
fn get_u8(src: &mut Cursor<'_>) -> (r: Result<u8, Error>)
    ensures
        match r {
            Ok(v) => old(src).rest().len() >= 1 && v == old(src).rest()[0] && moved(
                *old(src),
                *final(src),
                1,
            ),
            Err(e) => old(src).rest().len() < 1 && e is Incomplete && moved(
                *old(src),
                *final(src),
                0,
            ),
        },
{
    if !src.has_remaining() {
        return Err(Error::Incomplete);
    }
    let chunk = src.chunk();
    let v: u8 = chunk[0];
    src.advance(1);
    Ok(v)
}

/// Reads a 16-bit big-endian integer.
fn get_u16(src: &mut Cursor<'_>) -> (r: Result<u16, Error>)
    ensures
        match r {
            Ok(v) => old(src).rest().len() >= 2 && v == u16_at(old(src).rest(), 0) && moved(
                *old(src),
                *final(src),
                2,
            ),
            Err(e) => old(src).rest().len() < 2 && e is Incomplete && moved(
                *old(src),
                *final(src),
                0,
            ),
        },
{
    if src.remaining() < 2 {
        return Err(Error::Incomplete);
    }
    let v: u16 = read_u16(src.chunk());
    src.advance(2);
    Ok(v)
}

/// Reads a 32-bit big-endian integer.
fn get_u32(src: &mut Cursor<'_>) -> (r: Result<u32, Error>)
    ensures
        match r {
            Ok(v) => old(src).rest().len() >= 4 && v == u32_at(old(src).rest(), 0) && moved(
                *old(src),
                *final(src),
                4,
            ),
            Err(e) => old(src).rest().len() < 4 && e is Incomplete && moved(
                *old(src),
                *final(src),
                0,
            ),
        },
{
    if src.remaining() < 4 {
        return Err(Error::Incomplete);
    }
    let v: u32 = read_u32(src.chunk());
    src.advance(4);
    Ok(v)
}

/// Reads the one-byte length that precedes a string.
fn get_length(src: &mut Cursor<'_>) -> (r: Result<usize, Error>)
    ensures
        match r {
            Ok(v) => old(src).rest().len() >= 1 && v == old(src).rest()[0] && moved(
                *old(src),
                *final(src),
                1,
            ),
            Err(e) => old(src).rest().len() < 1 && e is Incomplete && moved(
                *old(src),
                *final(src),
                0,
            ),
        },
{
    let v: u8 = get_u8(src)?;
    Ok(v as usize)
}

/// Passes over `n` bytes.
fn skip(src: &mut Cursor<'_>, n: usize) -> (r: Result<(), Error>)
    ensures
        match r {
            Ok(_) => old(src).rest().len() >= n && moved(*old(src), *final(src), n as nat),
            Err(e) => old(src).rest().len() < n && e is Incomplete && moved(
                *old(src),
                *final(src),
                0,
            ),
        },
{
    if src.remaining() < n {
        return Err(Error::Incomplete);
    }
    src.advance(n);
    Ok(())
}

/// Reads `len` bytes as UTF-8 text.
fn get_str<'a>(src: &mut Cursor<'a>, len: usize) -> (r: Result<&'a str, Error>)
    ensures
        match r {
            Ok(s) => {
                &&& old(src).rest().len() >= len
                &&& valid_utf8(old(src).rest().take(len as int))
                &&& s@ == decode_utf8(old(src).rest().take(len as int))
                &&& moved(*old(src), *final(src), len as nat)
            },
            Err(Error::Incomplete) => old(src).rest().len() < len && moved(
                *old(src),
                *final(src),
                0,
            ),
            Err(Error::Other(text)) => {
                &&& old(src).rest().len() >= len
                &&& !valid_utf8(old(src).rest().take(len as int))
                &&& text@ == invalid_format_text()
                &&& moved(*old(src), *final(src), 0)
            },
        },
{
    if src.remaining() < len {
        return Err(Error::Incomplete);
    }
    let chunk = src.chunk();
    let slice = &chunk[0..len];
    assert(slice@ =~= old(src).rest().take(len as int));
    match str_from_utf8(slice) {
        Some(s) => {
            proof {
                vstd::utf8::encode_utf8_decode_utf8(s@);
            }
            src.advance(len);
            Ok(s)
        },
        None => Err(Error::Other(invalid_format_message())),
    }
}

/// Reads `len` 16-bit big-endian integers.
fn get_u16_vec(src: &mut Cursor<'_>, len: usize) -> (r: Result<Vec<u16>, Error>)
    ensures
        match r {
            Ok(v) => {
                &&& old(src).rest().len() >= 2 * len
                &&& v@ == Seq::new(len as nat, |k: int| u16_at(old(src).rest(), 2 * k))
                &&& moved(*old(src), *final(src), (2 * len) as nat)
            },
            Err(e) => old(src).rest().len() < 2 * len && e is Incomplete && moved(
                *old(src),
                *final(src),
                0,
            ),
        },
{
    if src.remaining() / 2 < len {
        return Err(Error::Incomplete);
    }
    let ghost start = *src;
    let mut roads: Vec<u16> = Vec::new();
    let mut i: usize = 0;
    while i < len
        invariant
            i <= len,
            start.rest().len() >= 2 * len,
            moved(start, *src, (2 * i) as nat),
            roads@.len() == i,
            forall|k: int| 0 <= k < i ==> roads@[k] == u16_at(start.rest(), 2 * k),
        decreases len - i,
    {
        let v: u16 = read_u16(src.chunk());
        src.advance(2);
        roads.push(v);
        i = i + 1;
    }
    assert(roads@ =~= Seq::new(len as nat, |k: int| u16_at(start.rest(), 2 * k)));
    Ok(roads)
}

/// Walks over one client frame by its tag and length prefix, without
/// restoring the position where it fails.
fn scan_client(src: &mut Cursor<'_>) -> (r: Result<(), Error>)
    ensures
        final(src).bytes() == old(src).bytes(),
        match client_extent(old(src).rest()) {
            Extent::Complete(n) => r is Ok && final(src).pos() == old(src).pos() + n,
            Extent::Incomplete => r matches Err(Error::Incomplete),
            Extent::Malformed => r matches Err(Error::Other(text)) && text@ == client_diagnostic(
                old(src).rest(),
            ),
        },
{
    let tag: u8 = get_u8(src)?;
    if tag == TAG_PLATE {
        let n: usize = get_length(src)?;
        skip(src, n)?;
        get_u32(src)?;
        Ok(())
    } else if tag == TAG_WANT_HEARTBEAT {
        get_u32(src)?;
        Ok(())
    } else if tag == TAG_I_AM_CAMERA {
        get_u16(src)?;
        get_u16(src)?;
        get_u16(src)?;
        Ok(())
    } else if tag == TAG_I_AM_DISPATCHER {
        let count: u8 = get_u8(src)?;
        skip(src, 2 * (count as usize))?;
        Ok(())
    } else {
        Err(Error::Other(invalid_type_message(tag)))
    }
}

/// Reads one client frame, without restoring the position where it fails.
fn read_client(src: &mut Cursor<'_>) -> (r: Result<ClientFrames, Error>)
    ensures
        final(src).bytes() == old(src).bytes(),
        match decode_client(old(src).rest()) {
            Decoded::Frame { frame, len } => r matches Ok(f) && f@ == frame && final(src).pos()
                == old(src).pos() + len,
            Decoded::Incomplete => r matches Err(Error::Incomplete),
            Decoded::Malformed => r matches Err(Error::Other(text)) && text@ == client_diagnostic(
                old(src).rest(),
            ),
        },
{
    let ghost b = src.rest();
    let tag: u8 = get_u8(src)?;
    if tag == TAG_PLATE {
        let n: usize = get_length(src)?;
        // The whole frame has to be there before its text is judged.
        if src.remaining() < n + 4 {
            return Err(Error::Incomplete);
        }
        assert(src.rest() =~= b.skip(2));
        assert(b.skip(2).take(n as int) =~= b.subrange(2, 2 + n));
        let text = get_str(src, n)?;
        assert(src.rest() =~= b.skip(2 + n));
        let timestamp: u32 = get_u32(src)?;
        let plate = text.to_owned();
        assert(timestamp == u32_at(b, 2 + n));
        assert(plate@ == decode_utf8(b.subrange(2, 2 + n)));
        Ok(ClientFrames::Plate { plate, timestamp })
    } else if tag == TAG_WANT_HEARTBEAT {
        let interval: u32 = get_u32(src)?;
        Ok(ClientFrames::WantHeartbeat { interval })
    } else if tag == TAG_I_AM_CAMERA {
        let road: u16 = get_u16(src)?;
        let mile: u16 = get_u16(src)?;
        let limit: u16 = get_u16(src)?;
        Ok(ClientFrames::IAmCamera { road, mile, limit })
    } else if tag == TAG_I_AM_DISPATCHER {
        let count: u8 = get_u8(src)?;
        assert(src.rest() =~= b.skip(2));
        let roads = get_u16_vec(src, count as usize)?;
        assert(roads@ =~= roads_at(b));
        Ok(ClientFrames::IAmDispatcher { roads })
    } else {
        Err(Error::Other(invalid_type_message(tag)))
    }
}

/// Reads one server frame, without restoring the position where it fails.
fn read_server(src: &mut Cursor<'_>) -> (r: Result<ServerFrames, Error>)
    ensures
        final(src).bytes() == old(src).bytes(),
        match decode_server(old(src).rest()) {
            Decoded::Frame { frame, len } => r matches Ok(f) && f@ == frame && final(src).pos()
                == old(src).pos() + len,
            Decoded::Incomplete => r matches Err(Error::Incomplete),
            Decoded::Malformed => r matches Err(Error::Other(text)) && text@ == server_diagnostic(
                old(src).rest(),
            ),
        },
{
    let ghost b = src.rest();
    let tag: u8 = get_u8(src)?;
    if tag == TAG_HEARTBEAT {
        Ok(ServerFrames::Heartbeat)
    } else if tag == TAG_ERROR {
        let n: usize = get_length(src)?;
        assert(src.rest() =~= b.skip(2));
        assert(b.len() >= 2 + n ==> b.skip(2).take(n as int) =~= b.subrange(2, 2 + n));
        let text = get_str(src, n)?;
        Ok(ServerFrames::Error { msg: text.to_owned() })
    } else if tag == TAG_TICKET {
        let n: usize = get_length(src)?;
        // The whole frame has to be there before its text is judged.
        if src.remaining() < n + 16 {
            return Err(Error::Incomplete);
        }
        assert(src.rest() =~= b.skip(2));
        assert(b.skip(2).take(n as int) =~= b.subrange(2, 2 + n));
        let text = get_str(src, n)?;
        assert(src.rest() =~= b.skip(2 + n));
        let road: u16 = get_u16(src)?;
        assert(src.rest() =~= b.skip(4 + n));
        let mile1: u16 = get_u16(src)?;
        assert(src.rest() =~= b.skip(6 + n));
        let timestamp1: u32 = get_u32(src)?;
        assert(src.rest() =~= b.skip(10 + n));
        let mile2: u16 = get_u16(src)?;
        assert(src.rest() =~= b.skip(12 + n));
        let timestamp2: u32 = get_u32(src)?;
        assert(src.rest() =~= b.skip(16 + n));
        let speed: u16 = get_u16(src)?;
        let plate = text.to_owned();
        Ok(ServerFrames::Ticket { plate, road, mile1, timestamp1, mile2, timestamp2, speed })
    } else {
        Err(Error::Other(invalid_type_message(tag)))
    }
}

/// Whether `text` can be written with a one-byte length prefix.
fn text_fits_wire(text: &String) -> (b: bool)
    ensures
        b == text_fits(text@),
{
    text.as_str().as_bytes().len() <= 255
}

/// Appends a string with its length prefix.
fn put_text(buf: &mut BytesMut, text: &String)
    requires
        text_fits(text@),
        buf_bytes(*old(buf)).len() <= 1,
    ensures
        buf_bytes(*final(buf)) == buf_bytes(*old(buf)) + encode_text(text@),
{
    let bytes = text.as_str().as_bytes();
    buf_put_u8(buf, bytes.len() as u8);
    buf_put_slice(buf, bytes);
    assert(buf_bytes(*buf) =~= buf_bytes(*old(buf)) + encode_text(text@));
}

impl ServerFrames {
    /// Whether the frame can be written: its string takes at most 255 bytes.
    pub fn fits_wire(&self) -> (b: bool)
        ensures
            b == self@.fits(),
    {
        match self {
            ServerFrames::Error { msg } => text_fits_wire(msg),
            ServerFrames::Ticket { plate, .. } => text_fits_wire(plate),
            ServerFrames::Heartbeat => true,
        }
    }

    /// Reads the server frame at the read position. On success the cursor is
    /// moved past the frame. Otherwise the cursor is left where it was, and the
    /// error says whether more bytes may complete the frame or no frame can
    /// start with these bytes.
    pub fn parse(src: &mut Cursor<'_>) -> (r: Result<ServerFrames, Error>)
        ensures
            final(src).bytes() == old(src).bytes(),
            match decode_server(old(src).rest()) {
                Decoded::Frame { frame, len } => r matches Ok(f) && f@ == frame && final(src).pos() == old(src).pos() + len,
                Decoded::Incomplete => r matches Err(Error::Incomplete) && final(src).pos()
                    == old(src).pos(),
                Decoded::Malformed => r matches Err(Error::Other(text)) && text@ == server_diagnostic(old(src).rest()) && final(src).pos() == old(src).pos(),
            },
    {
        let start: usize = src.position();
        let r = read_server(src);
        if r.is_err() {
            src.set_position(start);
        }
        r
    }

    /// The bytes of the frame as they go on the wire, or nothing where the
    /// frame cannot be written because its string takes more than 255 bytes.
    pub fn encode(&self) -> (bytes: Option<BytesMut>)
        ensures
            match bytes {
                Some(buf) => self@.fits() && buf_bytes(buf) == encode_server(self@),
                None => !self@.fits(),
            },
    {
        if self.fits_wire() {
            Some(self.convert_to_bytes())
        } else {
            None
        }
    }

    /// The bytes of the frame as they go on the wire.
    pub fn convert_to_bytes(&self) -> (buf: BytesMut)
        requires
            self@.fits(),
        ensures
            buf_bytes(buf) == encode_server(self@),
    {
        match self {
            ServerFrames::Error { msg } => {
                let mut buf = buf_with_capacity(1 + 1 + msg.as_str().as_bytes().len());
                buf_put_u8(&mut buf, TAG_ERROR);
                put_text(&mut buf, msg);
                assert(buf_bytes(buf) =~= encode_server(self@));
                buf
            },
            ServerFrames::Ticket { plate, road, mile1, timestamp1, mile2, timestamp2, speed } => {
                let mut buf = buf_with_capacity(
                    1 + 1 + plate.as_str().as_bytes().len() + 2 + 2 + 4 + 2 + 4 + 2,
                );
                buf_put_u8(&mut buf, TAG_TICKET);
                put_text(&mut buf, plate);
                buf_put_u16(&mut buf, *road);
                buf_put_u16(&mut buf, *mile1);
                buf_put_u32(&mut buf, *timestamp1);
                buf_put_u16(&mut buf, *mile2);
                buf_put_u32(&mut buf, *timestamp2);
                buf_put_u16(&mut buf, *speed);
                assert(buf_bytes(buf) =~= encode_server(self@));
                buf
            },
            ServerFrames::Heartbeat => {
                let mut buf = buf_with_capacity(1);
                buf_put_u8(&mut buf, TAG_HEARTBEAT);
                assert(buf_bytes(buf) =~= encode_server(self@));
                buf
            },
        }
    }
}

impl ClientFrames {
    /// Tells whether a whole client frame lies at the read position, going by
    /// its tag and length prefix. If so the cursor is moved past it; if not the
    /// cursor is left where it was, and the error says whether more bytes may
    /// complete the frame or the first byte is no client frame's tag.
    pub fn check(src: &mut Cursor<'_>) -> (r: Result<(), Error>)
        ensures
            final(src).bytes() == old(src).bytes(),
            match client_extent(old(src).rest()) {
                Extent::Complete(n) => r is Ok && final(src).pos() == old(src).pos() + n,
                Extent::Incomplete => r matches Err(Error::Incomplete) && final(src).pos() == old(src).pos(),
                Extent::Malformed => r matches Err(Error::Other(text)) && text@ == client_diagnostic(old(src).rest()) && final(src).pos() == old(src).pos(),
            },
    {
        let start: usize = src.position();
        let r = scan_client(src);
        if r.is_err() {
            src.set_position(start);
        }
        r
    }

    /// Reads the client frame at the read position. On success the cursor is
    /// moved past the frame. Otherwise the cursor is left where it was, and the
    /// error says whether more bytes may complete the frame or no frame can
    /// start with these bytes.
    pub fn parse(src: &mut Cursor<'_>) -> (r: Result<ClientFrames, Error>)
        ensures
            final(src).bytes() == old(src).bytes(),
            match decode_client(old(src).rest()) {
                Decoded::Frame { frame, len } => r matches Ok(f) && f@ == frame && final(src).pos() == old(src).pos() + len,
                Decoded::Incomplete => r matches Err(Error::Incomplete) && final(src).pos()
                    == old(src).pos(),
                Decoded::Malformed => r matches Err(Error::Other(text)) && text@ == client_diagnostic(old(src).rest()) && final(src).pos() == old(src).pos(),
            },
    {
        let start: usize = src.position();
        let r = read_client(src);
        if r.is_err() {
            src.set_position(start);
        }
        r
    }
}

} // verus!
