use speed_daemon::connection::ReadBuffer;
use speed_daemon::db::Db;
use speed_daemon::frame::{ClientFrames, Error, ServerFrames};
use speed_daemon::heartbeat::Heartbeat;
use speed_daemon::server::{Backoff, DEFAULT_IP, DEFAULT_PORT, MAX_CONNECTIONS, OUTBOUND_CAPACITY};
use speed_daemon::session::{
    heartbeat_period_ms, Event, Reaction, Role, Session, Violation,
};

const CAMERA_MILE_8: [u8; 7] = [0x80, 0x00, 0x7b, 0x00, 0x08, 0x00, 0x3c];
const CAMERA_MILE_9: [u8; 7] = [0x80, 0x00, 0x7b, 0x00, 0x09, 0x00, 0x3c];
const CAMERA_MILE_10: [u8; 7] = [0x80, 0x00, 0x7b, 0x00, 0x0a, 0x00, 0x3c];
const PLATE_AT_0: [u8; 10] = [0x20, 0x04, 0x55, 0x4e, 0x31, 0x58, 0x00, 0x00, 0x00, 0x00];
const PLATE_AT_45: [u8; 10] = [0x20, 0x04, 0x55, 0x4e, 0x31, 0x58, 0x00, 0x00, 0x00, 0x2d];
const PLATE_AT_90: [u8; 10] = [0x20, 0x04, 0x55, 0x4e, 0x31, 0x58, 0x00, 0x00, 0x00, 0x5a];
const DISPATCHER_123: [u8; 4] = [0x81, 0x01, 0x00, 0x7b];
const WANT_HEARTBEAT_10: [u8; 5] = [0x40, 0x00, 0x00, 0x00, 0x0a];

/// One connection as the server sees it.
struct Peer {
    session: Session,
    buffer: ReadBuffer,
}

impl Peer {
    fn new(id: u64) -> Peer {
        Peer { session: Session::new(id), buffer: ReadBuffer::new() }
    }

    /// Feeds bytes and handles every frame that they complete.
    fn receive(&mut self, db: &mut Db, bytes: &[u8]) -> Vec<Reaction> {
        self.buffer.extend(bytes);
        let mut reactions = Vec::new();
        loop {
            match self.buffer.parse_frame() {
                Ok(Some(frame)) => reactions.push(self.session.handle_client_frame(db, frame)),
                Ok(None) => break,
                Err(Error::Incomplete) => break,
                Err(Error::Other(_)) => {
                    reactions.push(self.session.handle_bad_frame());
                    break;
                }
            }
        }
        reactions
    }
}

fn is_quiet(r: &Reaction) -> bool {
    r.sent.is_empty() && r.reply.is_none() && r.heartbeat.is_none() && !r.close
}

fn is_rejection(r: &Reaction, text: &str) -> bool {
    let said = match &r.reply {
        Some(ServerFrames::Error { msg }) => msg == text,
        _ => false,
    };
    said && r.close && r.sent.is_empty() && r.heartbeat.is_none()
}

fn ticket_bytes(frame: ServerFrames) -> Vec<u8> {
    assert!(frame.fits_wire());
    frame.convert_to_bytes()[..].to_vec()
}

const EXPECTED_TICKET: [u8; 22] = [
    0x21, 0x04, 0x55, 0x4e, 0x31, 0x58, 0x00, 0x7b, 0x00, 0x08, 0x00, 0x00, 0x00, 0x00, 0x00,
    0x09, 0x00, 0x00, 0x00, 0x2d, 0x1f, 0x40,
];

#[test]
fn single_camera_no_ticket() {
    let mut db = Db::new();
    let mut a = Peer::new(1);
    let r = a.receive(&mut db, &CAMERA_MILE_8);
    assert_eq!(r.len(), 1);
    assert!(is_quiet(&r[0]));
    assert_eq!(a.session.role(), Role::Camera);
    let r = a.receive(&mut db, &PLATE_AT_0);
    assert_eq!(r.len(), 1);
    assert!(is_quiet(&r[0]));
    assert!(db.get_open_tickets().is_empty());
}

#[test]
fn two_camera_ticket_same_road() {
    let mut db = Db::new();
    let mut a = Peer::new(1);
    let mut b = Peer::new(2);
    let mut c = Peer::new(3);
    a.receive(&mut db, &CAMERA_MILE_8);
    a.receive(&mut db, &PLATE_AT_0);
    b.receive(&mut db, &CAMERA_MILE_9);
    let r = c.receive(&mut db, &DISPATCHER_123);
    assert_eq!(r.len(), 1);
    assert!(is_quiet(&r[0]));
    assert_eq!(c.session.role(), Role::Dispatcher);
    let mut r = b.receive(&mut db, &PLATE_AT_45);
    assert_eq!(r.len(), 1);
    let mut reaction = r.remove(0);
    assert!(reaction.reply.is_none() && !reaction.close && reaction.heartbeat.is_none());
    assert_eq!(reaction.sent.len(), 1);
    let delivery = reaction.sent.remove(0);
    assert_eq!(delivery.dispatcher, c.session.id());
    assert_eq!(delivery.ticket.plate, "UN1X");
    assert_eq!(delivery.ticket.road, 123);
    assert_eq!((delivery.ticket.mile1, delivery.ticket.timestamp1), (8, 0));
    assert_eq!((delivery.ticket.mile2, delivery.ticket.timestamp2), (9, 45));
    assert_eq!(delivery.ticket.speed, 8000);
    assert_eq!(ticket_bytes(ServerFrames::from(delivery.ticket)), EXPECTED_TICKET.to_vec());
}

#[test]
fn deferred_delivery() {
    let mut db = Db::new();
    let mut a = Peer::new(1);
    let mut b = Peer::new(2);
    let mut c = Peer::new(3);
    a.receive(&mut db, &CAMERA_MILE_8);
    a.receive(&mut db, &PLATE_AT_0);
    b.receive(&mut db, &CAMERA_MILE_9);
    let r = b.receive(&mut db, &PLATE_AT_45);
    assert_eq!(r.len(), 1);
    assert!(is_quiet(&r[0]));
    assert_eq!(db.get_open_tickets().len(), 1);
    let mut r = c.receive(&mut db, &DISPATCHER_123);
    assert_eq!(r.len(), 1);
    let mut reaction = r.remove(0);
    assert_eq!(reaction.sent.len(), 1);
    let delivery = reaction.sent.remove(0);
    assert_eq!(delivery.dispatcher, 3);
    assert_eq!(ticket_bytes(ServerFrames::from(delivery.ticket)), EXPECTED_TICKET.to_vec());
    assert!(db.get_open_tickets().is_empty());
    // A dispatcher that registers later gets nothing.
    let mut d = Peer::new(4);
    let r = d.receive(&mut db, &DISPATCHER_123);
    assert!(is_quiet(&r[0]));
}

#[test]
fn one_per_day() {
    let mut db = Db::new();
    let mut a = Peer::new(1);
    let mut b = Peer::new(2);
    let mut c = Peer::new(3);
    let mut d = Peer::new(4);
    a.receive(&mut db, &CAMERA_MILE_8);
    a.receive(&mut db, &PLATE_AT_0);
    b.receive(&mut db, &CAMERA_MILE_9);
    c.receive(&mut db, &DISPATCHER_123);
    assert_eq!(b.receive(&mut db, &PLATE_AT_45)[0].sent.len(), 1);
    d.receive(&mut db, &CAMERA_MILE_10);
    let r = d.receive(&mut db, &PLATE_AT_90);
    assert_eq!(r.len(), 1);
    assert!(is_quiet(&r[0]));
    assert!(db.get_open_tickets().is_empty());
}

#[test]
fn heartbeat() {
    let mut db = Db::new();
    let mut a = Peer::new(1);
    let r = a.receive(&mut db, &WANT_HEARTBEAT_10);
    assert_eq!(r.len(), 1);
    assert_eq!(r[0].heartbeat, Some(1000));
    assert!(r[0].reply.is_none() && !r[0].close && r[0].sent.is_empty());
    assert_eq!(a.session.role(), Role::Unidentified);
    let r = a.receive(&mut db, &WANT_HEARTBEAT_10);
    assert_eq!(r.len(), 1);
    assert!(is_rejection(&r[0], "heartbeat already requested"));
    assert!(a.session.is_closed());
    let bytes = ticket_bytes(Violation::SecondHeartbeat.into_frame());
    assert_eq!(bytes[0], 0x10);
    assert_eq!(bytes[1] as usize, bytes.len() - 2);
    assert_eq!(&bytes[2..], "heartbeat already requested".as_bytes());
}

#[test]
fn malformed_frame() {
    let mut db = Db::new();
    let mut a = Peer::new(1);
    let r = a.receive(&mut db, &[0xff]);
    assert_eq!(r.len(), 1);
    assert!(is_rejection(&r[0], "bad frame"));
    assert!(a.session.is_closed());
    assert_eq!(
        ticket_bytes(Violation::BadFrame.into_frame()),
        vec![0x10, 0x09, b'b', b'a', b'd', b' ', b'f', b'r', b'a', b'm', b'e']
    );
}

#[test]
fn heartbeat_interval_zero_starts_nothing() {
    let mut db = Db::new();
    let mut a = Peer::new(1);
    let r = a.receive(&mut db, &[0x40, 0x00, 0x00, 0x00, 0x00]);
    assert_eq!(r.len(), 1);
    assert!(is_quiet(&r[0]));
    assert!(!a.session.is_closed());
    // It still counts as the one request that a connection may make.
    let r = a.receive(&mut db, &WANT_HEARTBEAT_10);
    assert!(is_rejection(&r[0], "heartbeat already requested"));
}

#[test]
fn heartbeat_is_allowed_in_every_role() {
    let mut db = Db::new();
    let mut a = Peer::new(1);
    a.receive(&mut db, &CAMERA_MILE_8);
    let r = a.receive(&mut db, &WANT_HEARTBEAT_10);
    assert_eq!(r[0].heartbeat, Some(1000));
    assert_eq!(a.session.role(), Role::Camera);
    let mut b = Peer::new(2);
    b.receive(&mut db, &DISPATCHER_123);
    let r = b.receive(&mut db, &[0x40, 0x00, 0x00, 0x00, 0x19]);
    assert_eq!(r[0].heartbeat, Some(2500));
    assert_eq!(b.session.role(), Role::Dispatcher);
}

#[test]
fn heartbeat_period_is_a_hundred_milliseconds_per_unit() {
    assert_eq!(heartbeat_period_ms(0), None);
    assert_eq!(heartbeat_period_ms(1), Some(100));
    assert_eq!(heartbeat_period_ms(10), Some(1000));
    assert_eq!(heartbeat_period_ms(u32::MAX), Some(429_496_729_500));
}

#[test]
fn heartbeat_starts_once() {
    let mut h = Heartbeat::new(10);
    assert!(matches!(h.start(), Ok(Some(1000))));
    match h.start() {
        Err(ServerFrames::Error { msg }) => assert_eq!(msg, "heartbeat already requested"),
        other => panic!("unexpected: {:?}", other),
    }
    assert!(matches!(h.beat(), ServerFrames::Heartbeat));
    let mut h = Heartbeat::new(0);
    assert!(matches!(h.start(), Ok(None)));
    assert!(h.start().is_err());
}

#[test]
fn plate_before_identification_is_refused() {
    let mut db = Db::new();
    let mut a = Peer::new(1);
    let r = a.receive(&mut db, &PLATE_AT_0);
    assert!(is_rejection(&r[0], "not identified"));
    assert!(a.session.is_closed());
}

#[test]
fn second_identification_is_refused() {
    let mut db = Db::new();
    for first in [&CAMERA_MILE_8[..], &DISPATCHER_123[..]] {
        for second in [&CAMERA_MILE_9[..], &DISPATCHER_123[..]] {
            let mut a = Peer::new(1);
            assert!(is_quiet(&a.receive(&mut db, first)[0]));
            let r = a.receive(&mut db, second);
            assert_eq!(r.len(), 1);
            assert!(r[0].close);
            assert!(matches!(r[0].reply, Some(ServerFrames::Error { .. })));
            assert!(a.session.is_closed());
        }
    }
    let mut a = Peer::new(5);
    a.receive(&mut db, &CAMERA_MILE_8);
    assert!(is_rejection(&a.receive(&mut db, &CAMERA_MILE_9)[0], "already identified"));
    // The first registration stands.
    assert_eq!(db.get_camera(5).map(|c| c.mile), Some(8));
}

#[test]
fn dispatcher_may_only_ask_for_heartbeats() {
    let mut db = Db::new();
    let mut a = Peer::new(1);
    a.receive(&mut db, &DISPATCHER_123);
    assert!(is_rejection(&a.receive(&mut db, &PLATE_AT_0)[0], "invalid from dispatcher"));
    let mut b = Peer::new(2);
    b.receive(&mut db, &DISPATCHER_123);
    assert!(is_rejection(&b.receive(&mut db, &CAMERA_MILE_8)[0], "invalid from dispatcher"));
    assert_eq!(db.get_camera(2), None);
}

#[test]
fn closed_connection_ignores_frames() {
    let mut db = Db::new();
    let mut a = Peer::new(1);
    a.receive(&mut db, &[0xff]);
    let r = a.session.handle_client_frame(
        &mut db,
        ClientFrames::IAmCamera { road: 1, mile: 2, limit: 3 },
    );
    assert!(is_quiet(&r));
    assert_eq!(db.get_camera(1), None);
    assert!(is_quiet(&a.session.handle_bad_frame()));
    let mut b = Peer::new(2);
    b.session.handle_eof();
    assert!(b.session.is_closed());
    assert!(is_quiet(&b.session.handle_client_frame(
        &mut db,
        ClientFrames::WantHeartbeat { interval: 5 }
    )));
}

#[test]
fn dispatcher_without_roads_registers_and_gets_nothing() {
    let mut db = Db::new();
    let mut a = Peer::new(1);
    let mut b = Peer::new(2);
    a.receive(&mut db, &CAMERA_MILE_8);
    a.receive(&mut db, &PLATE_AT_0);
    b.receive(&mut db, &CAMERA_MILE_9);
    b.receive(&mut db, &PLATE_AT_45);
    let mut c = Peer::new(3);
    let r = c.receive(&mut db, &[0x81, 0x00]);
    assert_eq!(r.len(), 1);
    assert!(is_quiet(&r[0]));
    assert_eq!(c.session.role(), Role::Dispatcher);
    assert_eq!(db.get_open_tickets().len(), 1);
    assert_eq!(db.get_dispatcher_for_road(123), None);
}

#[test]
fn camera_that_the_store_lost_is_closed() {
    let mut db = Db::new();
    let mut a = Peer::new(1);
    a.receive(&mut db, &CAMERA_MILE_8);
    let mut other = Db::new();
    let r = a.receive(&mut other, &PLATE_AT_0);
    assert!(is_rejection(&r[0], "camera not registered"));
}

#[test]
fn frames_that_arrive_together_are_handled_in_order() {
    let mut db = Db::new();
    let mut a = Peer::new(1);
    let mut bytes = Vec::new();
    bytes.extend_from_slice(&CAMERA_MILE_8);
    bytes.extend_from_slice(&WANT_HEARTBEAT_10);
    bytes.extend_from_slice(&PLATE_AT_0);
    bytes.extend_from_slice(&PLATE_AT_45[..4]);
    let r = a.receive(&mut db, &bytes);
    assert_eq!(r.len(), 3);
    assert!(is_quiet(&r[0]));
    assert_eq!(r[1].heartbeat, Some(1000));
    assert!(is_quiet(&r[2]));
    assert!(!a.buffer.is_empty());
    assert!(a.buffer.end_of_stream().is_err());
    let r = a.receive(&mut db, &PLATE_AT_45[4..]);
    assert_eq!(r.len(), 1);
    assert!(a.buffer.is_empty());
    assert!(a.buffer.end_of_stream().is_ok());
}

#[test]
fn violation_texts() {
    assert_eq!(Violation::NotIdentified.text(), "not identified");
    assert_eq!(Violation::AlreadyIdentified.text(), "already identified");
    assert_eq!(Violation::InvalidFromDispatcher.text(), "invalid from dispatcher");
    assert_eq!(Violation::BadFrame.text(), "bad frame");
    assert_eq!(Violation::SecondHeartbeat.text(), "heartbeat already requested");
    assert_eq!(Violation::UnknownCamera.text(), "camera not registered");
}

#[test]
fn accept_backs_off_from_one_second_to_sixty_four() {
    let mut backoff = Backoff::new();
    let mut waits = Vec::new();
    while let Some(seconds) = backoff.on_error() {
        waits.push(seconds);
        assert!(waits.len() <= 7);
    }
    assert_eq!(waits, vec![1, 2, 4, 8, 16, 32, 64]);
    assert_eq!(backoff.on_error(), None);
    backoff.reset();
    assert_eq!(backoff.on_error(), Some(1));
    assert_eq!(backoff.on_error(), Some(2));
    backoff.reset();
    assert_eq!(backoff.on_error(), Some(1));
}

#[test]
fn listener_defaults() {
    assert_eq!(DEFAULT_IP, "0.0.0.0");
    assert_eq!(DEFAULT_PORT, 1222);
    assert_eq!(MAX_CONNECTIONS, 1500);
    assert_eq!(OUTBOUND_CAPACITY, 1024);
}

#[test]
fn events_are_handled_by_kind() {
    let mut db = Db::new();
    let mut s = Session::new(1);
    let r = s.handle(&mut db, Event::Frame(ClientFrames::IAmDispatcher { roads: vec![5] }));
    assert!(is_quiet(&r));
    assert_eq!(s.role(), Role::Dispatcher);
    // What waits in the queue is sent on.
    let r = s.handle(&mut db, Event::Outbound(ServerFrames::Heartbeat));
    assert!(matches!(r.reply, Some(ServerFrames::Heartbeat)));
    assert!(!r.close && r.sent.is_empty() && r.heartbeat.is_none());
    assert!(!s.is_closed());
    let r = s.handle(&mut db, Event::BadFrame);
    assert!(is_rejection(&r, "bad frame"));
    assert!(s.is_closed());
    // A closed connection takes no notice of anything.
    for event in [
        Event::Outbound(ServerFrames::Heartbeat),
        Event::BadFrame,
        Event::Eof,
        Event::Shutdown,
        Event::Frame(ClientFrames::WantHeartbeat { interval: 1 }),
    ] {
        assert!(is_quiet(&s.handle(&mut db, event)));
        assert!(s.is_closed());
    }
}

#[test]
fn end_of_stream_and_shutdown_close_without_a_word() {
    let mut db = Db::new();
    for closing in [Event::Eof, Event::Shutdown] {
        let mut s = Session::new(1);
        s.handle(&mut db, Event::Frame(ClientFrames::WantHeartbeat { interval: 3 }));
        let r = s.handle(&mut db, closing);
        assert!(is_quiet(&r));
        assert!(s.is_closed());
    }
}
