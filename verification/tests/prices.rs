use speed_daemon::cursor::Cursor;
use speed_daemon::prices::{Error, Frame};

#[test]
fn parse_insert() {
    let bytes = [0x49u8, 0x00, 0x00, 0x30, 0x39, 0x00, 0x00, 0x00, 0x65];
    let mut src = Cursor::new(&bytes);
    assert!(Frame::check(&mut src).is_ok());
    assert_eq!(src.position(), 9);
    src.set_position(0);
    assert_eq!(
        Frame::parse(&mut src).unwrap(),
        Frame::Insert { timestamp: 12345, price: 101 }
    );
    assert_eq!(src.position(), 9);
}

#[test]
fn parse_query() {
    let bytes = [0x51u8, 0x00, 0x00, 0x03, 0xe8, 0x00, 0x01, 0x86, 0xa0];
    let mut src = Cursor::new(&bytes);
    assert_eq!(
        Frame::parse(&mut src).unwrap(),
        Frame::Query { mintime: 1000, maxtime: 100000 }
    );
}

#[test]
fn numbers_are_signed() {
    let bytes = [0x49u8, 0xff, 0xff, 0xff, 0xff, 0x80, 0x00, 0x00, 0x00];
    let mut src = Cursor::new(&bytes);
    assert_eq!(
        Frame::parse(&mut src).unwrap(),
        Frame::Insert { timestamp: -1, price: i32::MIN }
    );
    let bytes = [0x51u8, 0x7f, 0xff, 0xff, 0xff, 0xff, 0xff, 0xff, 0x85];
    let mut src = Cursor::new(&bytes);
    assert_eq!(
        Frame::parse(&mut src).unwrap(),
        Frame::Query { mintime: i32::MAX, maxtime: -123 }
    );
}

#[test]
fn short_message_is_incomplete() {
    let bytes = [0x49u8, 0x00, 0x00, 0x30, 0x39, 0x00, 0x00, 0x00, 0x65];
    for k in 0..bytes.len() {
        let mut src = Cursor::new(&bytes[..k]);
        assert!(matches!(Frame::check(&mut src), Err(Error::Incomplete)));
        assert_eq!(src.position(), 0);
        assert!(matches!(Frame::parse(&mut src), Err(Error::Incomplete)));
        assert_eq!(src.position(), 0);
    }
}

#[test]
fn unknown_type_is_refused() {
    let bytes = [0x58u8, 0x00, 0x00, 0x30, 0x39, 0x00, 0x00, 0x00, 0x65];
    let mut src = Cursor::new(&bytes);
    assert!(matches!(Frame::check(&mut src), Err(Error::Other(_))));
    assert_eq!(src.position(), 0);
    assert!(matches!(Frame::parse(&mut src), Err(Error::Other(_))));
    assert_eq!(src.position(), 0);
    let mut src = Cursor::new(&bytes[..1]);
    assert!(matches!(Frame::parse(&mut src), Err(Error::Other(_))));
}

#[test]
fn messages_follow_each_other() {
    let bytes = [
        0x49u8, 0x00, 0x00, 0x00, 0x01, 0x00, 0x00, 0x00, 0x02, 0x51, 0x00, 0x00, 0x00, 0x03,
        0x00, 0x00, 0x00, 0x04, 0x49,
    ];
    let mut src = Cursor::new(&bytes);
    assert_eq!(Frame::parse(&mut src).unwrap(), Frame::Insert { timestamp: 1, price: 2 });
    assert_eq!(Frame::parse(&mut src).unwrap(), Frame::Query { mintime: 3, maxtime: 4 });
    assert_eq!(src.position(), 18);
    assert!(matches!(Frame::parse(&mut src), Err(Error::Incomplete)));
    assert_eq!(src.position(), 18);
}

#[test]
fn price_errors_say_what_went_wrong() {
    assert_eq!(Error::Incomplete.message(), "stream ended early");
    let e: Error = "no message".to_string().into();
    assert_eq!(e.message(), "no message");
    let bytes = [0x58u8];
    let mut src = Cursor::new(&bytes);
    match Frame::parse(&mut src) {
        Err(e) => assert_eq!(e.message(), "protocol error; invalid frame type byte `88`"),
        other => panic!("unexpected: {:?}", other),
    }
}
