use speed_daemon::connection::ReadBuffer;
use speed_daemon::cursor::Cursor;
use speed_daemon::frame::{
    invalid_format_message, invalid_type_message, ClientFrames, Error, ServerFrames,
};

fn decode(bytes: &[u8]) -> Result<ClientFrames, Error> {
    let mut src = Cursor::new(bytes);
    ClientFrames::parse(&mut src)
}

fn encode(frame: &ServerFrames) -> Vec<u8> {
    assert!(frame.fits_wire());
    frame.convert_to_bytes()[..].to_vec()
}

fn ticket_frame() -> ServerFrames {
    ServerFrames::Ticket {
        plate: "UN1X".to_string(),
        road: 66,
        mile1: 100,
        timestamp1: 123456,
        mile2: 110,
        timestamp2: 123816,
        speed: 10000,
    }
}

#[test]
fn parse_camera_frame() {
    let bytes = [0x80u8, 0x00, 0x7b, 0x00, 0x08, 0x00, 0x3c];
    let mut src = Cursor::new(&bytes);
    match ClientFrames::parse(&mut src) {
        Ok(ClientFrames::IAmCamera { road, mile, limit }) => {
            assert_eq!((road, mile, limit), (123, 8, 60));
        }
        other => panic!("unexpected: {:?}", other),
    }
    assert_eq!(src.position(), 7);
}

#[test]
fn parse_camera_frame_reads_big_endian() {
    let bytes = [0x80u8, 0x01, 0x02, 0x03, 0x04, 0xff, 0xfe];
    match decode(&bytes) {
        Ok(ClientFrames::IAmCamera { road, mile, limit }) => {
            assert_eq!((road, mile, limit), (0x0102, 0x0304, 0xfffe));
        }
        other => panic!("unexpected: {:?}", other),
    }
}

#[test]
fn parse_plate_frame() {
    let bytes = [
        0x20u8, 0x07, 0x52, 0x45, 0x30, 0x35, 0x42, 0x4b, 0x47, 0x00, 0x01, 0xe2, 0x40,
    ];
    let mut src = Cursor::new(&bytes);
    assert!(ClientFrames::check(&mut src).is_ok());
    assert_eq!(src.position(), 13);
    src.set_position(0);
    match ClientFrames::parse(&mut src) {
        Ok(ClientFrames::Plate { plate, timestamp }) => {
            assert_eq!(plate, "RE05BKG");
            assert_eq!(timestamp, 123456);
        }
        other => panic!("unexpected: {:?}", other),
    }
    assert_eq!(src.position(), 13);
}

#[test]
fn parse_plate_of_length_zero() {
    let bytes = [0x20u8, 0x00, 0x00, 0x00, 0x00, 0x2a];
    match decode(&bytes) {
        Ok(ClientFrames::Plate { plate, timestamp }) => {
            assert_eq!(plate, "");
            assert_eq!(timestamp, 42);
        }
        other => panic!("unexpected: {:?}", other),
    }
}

#[test]
fn parse_want_heartbeat_frame() {
    let bytes = [0x40u8, 0x00, 0x00, 0x00, 0x0a];
    match decode(&bytes) {
        Ok(ClientFrames::WantHeartbeat { interval }) => assert_eq!(interval, 10),
        other => panic!("unexpected: {:?}", other),
    }
    let bytes = [0x40u8, 0xff, 0xff, 0xff, 0xff];
    match decode(&bytes) {
        Ok(ClientFrames::WantHeartbeat { interval }) => assert_eq!(interval, u32::MAX),
        other => panic!("unexpected: {:?}", other),
    }
}

#[test]
fn parse_dispatcher_frame() {
    let bytes = [0x81u8, 0x03, 0x00, 0x42, 0x01, 0x70, 0x13, 0x88];
    let mut src = Cursor::new(&bytes);
    match ClientFrames::parse(&mut src) {
        Ok(ClientFrames::IAmDispatcher { roads }) => assert_eq!(roads, vec![66, 368, 5000]),
        other => panic!("unexpected: {:?}", other),
    }
    assert_eq!(src.position(), 8);
}

#[test]
fn parse_dispatcher_without_roads() {
    let bytes = [0x81u8, 0x00];
    match decode(&bytes) {
        Ok(ClientFrames::IAmDispatcher { roads }) => assert!(roads.is_empty()),
        other => panic!("unexpected: {:?}", other),
    }
}

#[test]
fn parse_dispatcher_with_many_roads() {
    let mut bytes = vec![0x81u8, 200];
    for k in 0..200u16 {
        bytes.push((k >> 8) as u8);
        bytes.push((k & 0xff) as u8);
    }
    let mut src = Cursor::new(&bytes);
    assert!(ClientFrames::check(&mut src).is_ok());
    assert_eq!(src.position(), 402);
    match decode(&bytes) {
        Ok(ClientFrames::IAmDispatcher { roads }) => {
            assert_eq!(roads.len(), 200);
            assert_eq!(roads[199], 199);
        }
        other => panic!("unexpected: {:?}", other),
    }
    let short = &bytes[..401];
    assert!(matches!(decode(short), Err(Error::Incomplete)));
}

#[test]
fn parse_starts_at_the_read_position() {
    let bytes = [0x40u8, 0x00, 0x00, 0x00, 0x0a, 0x80, 0x00, 0x42, 0x00, 0x64, 0x00, 0x3c];
    let mut src = Cursor::new(&bytes);
    assert!(ClientFrames::parse(&mut src).is_ok());
    assert_eq!(src.position(), 5);
    match ClientFrames::parse(&mut src) {
        Ok(ClientFrames::IAmCamera { road, mile, limit }) => {
            assert_eq!((road, mile, limit), (66, 100, 60));
        }
        other => panic!("unexpected: {:?}", other),
    }
    assert_eq!(src.position(), 12);
    assert!(matches!(ClientFrames::parse(&mut src), Err(Error::Incomplete)));
    assert_eq!(src.position(), 12);
}

#[test]
fn unknown_tag_is_malformed() {
    let bytes = [0xffu8];
    let mut src = Cursor::new(&bytes);
    assert!(matches!(ClientFrames::check(&mut src), Err(Error::Other(_))));
    assert_eq!(src.position(), 0);
    assert!(matches!(ClientFrames::parse(&mut src), Err(Error::Other(_))));
    assert_eq!(src.position(), 0);
}

#[test]
fn server_tags_are_malformed_from_a_client() {
    for tag in [0x10u8, 0x21, 0x41, 0x00] {
        let bytes = [tag, 0, 0, 0, 0, 0, 0, 0, 0, 0, 0, 0, 0, 0, 0, 0, 0, 0, 0, 0];
        assert!(matches!(decode(&bytes), Err(Error::Other(_))));
    }
}

#[test]
fn plate_that_is_not_utf8_is_malformed() {
    let bytes = [0x20u8, 0x02, 0xc3, 0x28, 0x00, 0x00, 0x00, 0x01];
    let mut src = Cursor::new(&bytes);
    assert!(ClientFrames::check(&mut src).is_ok());
    assert_eq!(src.position(), 8);
    src.set_position(0);
    assert!(matches!(ClientFrames::parse(&mut src), Err(Error::Other(_))));
    assert_eq!(src.position(), 0);
    let short = &bytes[..7];
    assert!(matches!(decode(short), Err(Error::Incomplete)));
}

#[test]
fn every_proper_prefix_is_incomplete() {
    let frames: Vec<Vec<u8>> = vec![
        vec![0x20, 0x04, 0x55, 0x4e, 0x31, 0x58, 0x00, 0x00, 0x00, 0x2d],
        vec![0x40, 0x00, 0x00, 0x00, 0x0a],
        vec![0x80, 0x00, 0x7b, 0x00, 0x08, 0x00, 0x3c],
        vec![0x81, 0x03, 0x00, 0x42, 0x01, 0x70, 0x13, 0x88],
        vec![0x81, 0x00],
    ];
    for frame in frames.iter() {
        for k in 0..frame.len() {
            let prefix = &frame[..k];
            let mut src = Cursor::new(prefix);
            assert!(matches!(ClientFrames::check(&mut src), Err(Error::Incomplete)));
            assert_eq!(src.position(), 0);
            assert!(matches!(ClientFrames::parse(&mut src), Err(Error::Incomplete)));
            assert_eq!(src.position(), 0);
            let mut buffer = ReadBuffer::new();
            buffer.extend(prefix);
            assert!(matches!(buffer.parse_frame(), Ok(None)));
            buffer.extend(&frame[k..]);
            assert!(matches!(buffer.parse_frame(), Ok(Some(_))));
            assert!(buffer.is_empty());
        }
        assert!(decode(frame).is_ok());
    }
}

#[test]
fn cursor_keeps_track_of_what_is_left() {
    let bytes = [1u8, 2, 3, 4, 5];
    let mut src = Cursor::new(&bytes);
    assert_eq!(src.remaining(), 5);
    assert!(src.has_remaining());
    src.advance(2);
    assert_eq!(src.position(), 2);
    assert_eq!(src.chunk(), &[3u8, 4, 5]);
    assert_eq!(src.get_ref(), &bytes);
    src.set_position(9);
    assert_eq!(src.remaining(), 0);
    assert!(!src.has_remaining());
    assert!(src.chunk().is_empty());
    assert!(matches!(ClientFrames::parse(&mut src), Err(Error::Incomplete)));
    assert_eq!(src.position(), 9);
}

#[test]
fn encode_heartbeat() {
    assert_eq!(encode(&ServerFrames::Heartbeat), vec![0x41u8]);
}

#[test]
fn encode_error() {
    let frame = ServerFrames::Error { msg: "bad".to_string() };
    assert_eq!(encode(&frame), vec![0x10u8, 0x03, 0x62, 0x61, 0x64]);
    let frame = ServerFrames::Error { msg: String::new() };
    assert_eq!(encode(&frame), vec![0x10u8, 0x00]);
}

#[test]
fn encode_ticket() {
    assert_eq!(
        encode(&ticket_frame()),
        vec![
            0x21u8, 0x04, 0x55, 0x4e, 0x31, 0x58, 0x00, 0x42, 0x00, 0x64, 0x00, 0x01, 0xe2, 0x40,
            0x00, 0x6e, 0x00, 0x01, 0xe3, 0xa8, 0x27, 0x10,
        ]
    );
}

#[test]
fn encode_counts_bytes_not_characters() {
    let frame = ServerFrames::Error { msg: "é".to_string() };
    assert_eq!(encode(&frame), vec![0x10u8, 0x02, 0xc3, 0xa9]);
}

#[test]
fn text_of_more_than_255_bytes_does_not_fit() {
    let fits = ServerFrames::Error { msg: "a".repeat(255) };
    assert!(fits.fits_wire());
    assert_eq!(encode(&fits).len(), 257);
    let too_long = ServerFrames::Error { msg: "a".repeat(256) };
    assert!(!too_long.fits_wire());
    let too_long = ServerFrames::Ticket {
        plate: "é".repeat(128),
        road: 0,
        mile1: 0,
        timestamp1: 0,
        mile2: 0,
        timestamp2: 0,
        speed: 0,
    };
    assert!(!too_long.fits_wire());
    assert!(ServerFrames::Heartbeat.fits_wire());
}

#[test]
fn encode_tests_the_length_first() {
    assert_eq!(&ServerFrames::Heartbeat.encode().unwrap()[..], &[0x41u8]);
    assert_eq!(ticket_frame().encode().unwrap()[..].to_vec(), encode(&ticket_frame()));
    assert!(ServerFrames::Error { msg: "a".repeat(256) }.encode().is_none());
    assert_eq!(ServerFrames::Error { msg: "a".repeat(255) }.encode().unwrap().len(), 257);
}

#[test]
fn decoding_undoes_encoding() {
    let frames = vec![
        ServerFrames::Heartbeat,
        ServerFrames::Error { msg: "not identified".to_string() },
        ServerFrames::Error { msg: String::new() },
        ticket_frame(),
        ServerFrames::Ticket {
            plate: "ÄÖ".to_string(),
            road: 65535,
            mile1: 0,
            timestamp1: u32::MAX,
            mile2: 65535,
            timestamp2: 0,
            speed: 65535,
        },
    ];
    for frame in frames.iter() {
        let bytes = encode(frame);
        let mut src = Cursor::new(&bytes);
        let back = ServerFrames::parse(&mut src).unwrap();
        assert_eq!(src.position(), bytes.len());
        assert_eq!(format!("{:?}", back), format!("{:?}", frame));
        assert_eq!(encode(&back), bytes);
    }
}

#[test]
fn encoding_undoes_decoding() {
    let bytes: Vec<u8> = vec![
        0x21, 0x04, 0x55, 0x4e, 0x31, 0x58, 0x00, 0x7b, 0x00, 0x08, 0x00, 0x00, 0x00, 0x00, 0x00,
        0x09, 0x00, 0x00, 0x00, 0x2d, 0x1f, 0x40,
    ];
    let mut src = Cursor::new(&bytes);
    let frame = ServerFrames::parse(&mut src).unwrap();
    match &frame {
        ServerFrames::Ticket { plate, road, mile1, timestamp1, mile2, timestamp2, speed } => {
            assert_eq!(plate, "UN1X");
            assert_eq!(
                (*road, *mile1, *timestamp1, *mile2, *timestamp2, *speed),
                (123, 8, 0, 9, 45, 8000)
            );
        }
        other => panic!("unexpected: {:?}", other),
    }
    assert_eq!(encode(&frame), bytes);
    for k in 0..bytes.len() {
        let mut src = Cursor::new(&bytes[..k]);
        assert!(matches!(ServerFrames::parse(&mut src), Err(Error::Incomplete)));
        assert_eq!(src.position(), 0);
    }
}

#[test]
fn server_decoder_refuses_client_tags() {
    let bytes = [0x80u8, 0x00, 0x7b, 0x00, 0x08, 0x00, 0x3c];
    let mut src = Cursor::new(&bytes);
    assert!(matches!(ServerFrames::parse(&mut src), Err(Error::Other(_))));
    let bytes = [0x10u8, 0x01, 0xff];
    let mut src = Cursor::new(&bytes);
    assert!(matches!(ServerFrames::parse(&mut src), Err(Error::Other(_))));
}

#[test]
fn buffer_hands_out_frames_in_order() {
    let mut buffer = ReadBuffer::new();
    assert!(buffer.is_empty());
    assert!(buffer.end_of_stream().is_ok());
    assert!(matches!(buffer.parse_frame(), Ok(None)));
    buffer.extend(&[0x40, 0x00, 0x00]);
    assert!(matches!(buffer.parse_frame(), Ok(None)));
    assert!(!buffer.is_empty());
    assert!(matches!(buffer.end_of_stream(), Err(Error::Other(_))));
    buffer.extend(&[0x00, 0x0a, 0x81, 0x01, 0x00, 0x7b, 0x20]);
    match buffer.parse_frame() {
        Ok(Some(ClientFrames::WantHeartbeat { interval })) => assert_eq!(interval, 10),
        other => panic!("unexpected: {:?}", other),
    }
    match buffer.parse_frame() {
        Ok(Some(ClientFrames::IAmDispatcher { roads })) => assert_eq!(roads, vec![123]),
        other => panic!("unexpected: {:?}", other),
    }
    assert!(matches!(buffer.parse_frame(), Ok(None)));
    assert!(!buffer.is_empty());
}

#[test]
fn buffer_keeps_bytes_that_are_no_frame() {
    let mut buffer = ReadBuffer::new();
    buffer.extend(&[0xff, 0x01]);
    assert!(matches!(buffer.parse_frame(), Err(Error::Other(_))));
    assert!(!buffer.is_empty());
    assert!(matches!(buffer.parse_frame(), Err(Error::Other(_))));
}

#[test]
fn diagnostics_name_the_byte() {
    assert_eq!(invalid_type_message(255), "protocol error; invalid frame type byte `255`");
    assert_eq!(invalid_type_message(100), "protocol error; invalid frame type byte `100`");
    assert_eq!(invalid_type_message(99), "protocol error; invalid frame type byte `99`");
    assert_eq!(invalid_type_message(10), "protocol error; invalid frame type byte `10`");
    assert_eq!(invalid_type_message(9), "protocol error; invalid frame type byte `9`");
    assert_eq!(invalid_type_message(0), "protocol error; invalid frame type byte `0`");
    assert_eq!(invalid_type_message(207), "protocol error; invalid frame type byte `207`");
    assert_eq!(invalid_format_message(), "protocol error; invalid frame format");
    for tag in 0..=255u8 {
        assert_eq!(
            invalid_type_message(tag),
            format!("protocol error; invalid frame type byte `{}`", tag)
        );
    }
    match decode(&[0xff]) {
        Err(Error::Other(text)) => {
            assert_eq!(text, "protocol error; invalid frame type byte `255`")
        }
        other => panic!("unexpected: {:?}", other),
    }
    match decode(&[0x20, 0x01, 0xff, 0, 0, 0, 0]) {
        Err(Error::Other(text)) => assert_eq!(text, "protocol error; invalid frame format"),
        other => panic!("unexpected: {:?}", other),
    }
    let mut buffer = ReadBuffer::new();
    buffer.extend(&[0x40]);
    match buffer.end_of_stream() {
        Err(Error::Other(text)) => assert_eq!(text, "connection reset by peer"),
        other => panic!("unexpected: {:?}", other),
    }
    assert_eq!(buffer.len(), 1);
    assert!(buffer.try_extend(&[0x00, 0x00, 0x00, 0x07]));
    assert_eq!(buffer.len(), 5);
    match buffer.parse_frame() {
        Ok(Some(ClientFrames::WantHeartbeat { interval })) => assert_eq!(interval, 7),
        other => panic!("unexpected: {:?}", other),
    }
    assert_eq!(buffer.len(), 0);
}

#[test]
fn errors_say_what_went_wrong() {
    assert_eq!(Error::Incomplete.message(), "stream ended early");
    assert_eq!(Error::Other("bad".to_string()).message(), "bad");
    let e: Error = "no frame".to_string().into();
    assert!(matches!(&e, Error::Other(text) if text == "no frame"));
    assert_eq!(Error::from(String::new()).message(), "");
}
