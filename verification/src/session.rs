//! The state machine of one connection.
//!
//! A connection starts unidentified and may become a camera or a dispatcher,
//! once and for good. What a frame does depends on that role; a frame that the
//! role does not allow is answered with an error frame and the connection is
//! closed. The machine decides; sending, timing and closing are for its owner.
use crate::db::{first_dispatcher, Camera, Db, DbView, DispatcherView, Plate};
use crate::frame::{text_fits, ClientFrameView, ClientFrames, ServerFrameView, ServerFrames};
use crate::ticketing::{
    delivery_views, drain_roads, issue, issue_possible_ticket, send_out_waiting_tickets, Delivery,
    DeliveryView, Outcome,
};
use vstd::prelude::*;
use vstd::string::StringExecFns;

verus! {

/// What a connection is.
#[derive(Clone, Copy, Debug, PartialEq, Eq, Structural)]
pub enum Role {
    Unidentified,
    Camera,
    Dispatcher,
    Closed,
}

/// Why a connection is closed with an error frame.
#[derive(Clone, Copy, Debug, PartialEq, Eq, Structural)]
pub enum Violation {
    /// A plate from a connection that is no camera yet.
    NotIdentified,
    /// A second identification.
    AlreadyIdentified,
    /// A plate or an identification from a dispatcher.
    InvalidFromDispatcher,
    /// Bytes that are no frame.
    BadFrame,
    /// A second request for heartbeats.
    SecondHeartbeat,
    /// A plate from a camera that the store does not know.
    UnknownCamera,
}

impl Violation {
    /// The text of the error frame.
    pub open spec fn message(self) -> Seq<char> {
        match self {
            Violation::NotIdentified => "not identified"@,
            Violation::AlreadyIdentified => "already identified"@,
            Violation::InvalidFromDispatcher => "invalid from dispatcher"@,
            Violation::BadFrame => "bad frame"@,
            Violation::SecondHeartbeat => "heartbeat already requested"@,
            Violation::UnknownCamera => "camera not registered"@,
        }
    }

    /// The text of the error frame.
    pub fn text(self) -> (s: &'static str)
        ensures
            s@ == self.message(),
    {
        match self {
            Violation::NotIdentified => "not identified",
            Violation::AlreadyIdentified => "already identified",
            Violation::InvalidFromDispatcher => "invalid from dispatcher",
            Violation::BadFrame => "bad frame",
            Violation::SecondHeartbeat => "heartbeat already requested",
            Violation::UnknownCamera => "camera not registered",
        }
    }

    /// The error frame for the violation.
    pub fn into_frame(self) -> (frame: ServerFrames)
        ensures
            frame@ == (ServerFrameView::Error { msg: self.message() }),
            frame@.fits(),
    {
        proof {
            self.lemma_message_fits();
        }
        ServerFrames::Error { msg: String::from_str(self.text()) }
    }

    /// Every error text is short enough for an error frame.
    pub proof fn lemma_message_fits(self)
        ensures
            text_fits(self.message()),
    {
        reveal_strlit("not identified");
        reveal_strlit("already identified");
        reveal_strlit("invalid from dispatcher");
        reveal_strlit("bad frame");
        reveal_strlit("heartbeat already requested");
        reveal_strlit("camera not registered");
        let m = self.message();
        assert(m.len() <= 27);
        assert(vstd::utf8::is_ascii_chars(m));
        vstd::utf8::is_ascii_chars_encode_utf8(m);
    }
}

/// The state of a connection as a mathematical value.
pub struct SessionView {
    /// The number that names the connection in the store.
    pub id: u64,
    pub role: Role,
    /// Whether the connection has asked for heartbeats before.
    pub heartbeat_requested: bool,
}

/// What the owner of a connection has to do after a step.
pub struct ReactionView {
    /// Tickets to send, each to the connection of its dispatcher.
    pub sent: Seq<DeliveryView>,
    /// A frame to send to this connection.
    pub reply: Option<ServerFrameView>,
    /// The period, in milliseconds, at which to send heartbeats from now on.
    pub heartbeat: Option<u64>,
    /// Whether to close the connection once the reply is sent.
    pub close: bool,
}

impl ReactionView {
    /// Nothing to do.
    pub open spec fn nothing() -> ReactionView {
        ReactionView { sent: Seq::empty(), reply: None, heartbeat: None, close: false }
    }

    /// Send the error frame of `v` and close.
    pub open spec fn reject(v: Violation) -> ReactionView {
        ReactionView {
            sent: Seq::empty(),
            reply: Some(ServerFrameView::Error { msg: v.message() }),
            heartbeat: None,
            close: true,
        }
    }
}

/// A step of the machine: the connection and the store afterwards, and what
/// there is to do.
pub struct StepView {
    pub session: SessionView,
    pub db: DbView,
    pub reaction: ReactionView,
}

/// The period of the heartbeats for an interval in tenths of a second, in
/// milliseconds; none for the interval zero.
pub open spec fn heartbeat_period(interval: u32) -> Option<u64> {
    if interval == 0 {
        None
    } else {
        Some((interval * 100) as u64)
    }
}

/// The connection is closed with the error frame of `v`; the store stays as
/// it is.
pub open spec fn rejected(s: SessionView, db: DbView, v: Violation) -> StepView {
    StepView {
        session: SessionView { role: Role::Closed, ..s },
        db,
        reaction: ReactionView::reject(v),
    }
}

/// What a frame does to a connection in state `s` and to the store.
pub open spec fn step(s: SessionView, db: DbView, frame: ClientFrameView) -> StepView {
    match s.role {
        Role::Closed => StepView { session: s, db, reaction: ReactionView::nothing() },
        _ => match frame {
            ClientFrameView::WantHeartbeat { interval } => {
                if s.heartbeat_requested {
                    rejected(s, db, Violation::SecondHeartbeat)
                } else {
                    StepView {
                        session: SessionView { heartbeat_requested: true, ..s },
                        db,
                        reaction: ReactionView {
                            heartbeat: heartbeat_period(interval),
                            ..ReactionView::nothing()
                        },
                    }
                }
            },
            ClientFrameView::IAmCamera { road, mile, limit } => {
                if s.role == Role::Unidentified {
                    StepView {
                        session: SessionView { role: Role::Camera, ..s },
                        db: DbView {
                            cameras: db.cameras.insert(s.id, Camera { road, mile, limit }),
                            ..db
                        },
                        reaction: ReactionView::nothing(),
                    }
                } else if s.role == Role::Camera {
                    rejected(s, db, Violation::AlreadyIdentified)
                } else {
                    rejected(s, db, Violation::InvalidFromDispatcher)
                }
            },
            ClientFrameView::IAmDispatcher { roads } => {
                if s.role == Role::Unidentified {
                    let registered = DbView {
                        dispatchers: db.dispatchers.push(DispatcherView { id: s.id, roads }),
                        ..db
                    };
                    let out = drain_roads(
                        Outcome { db: registered, sent: Seq::empty() },
                        s.id,
                        roads,
                    );
                    StepView {
                        session: SessionView { role: Role::Dispatcher, ..s },
                        db: out.db,
                        reaction: ReactionView { sent: out.sent, ..ReactionView::nothing() },
                    }
                } else if s.role == Role::Camera {
                    rejected(s, db, Violation::AlreadyIdentified)
                } else {
                    rejected(s, db, Violation::InvalidFromDispatcher)
                }
            },
            ClientFrameView::Plate { plate, timestamp } => {
                if s.role == Role::Unidentified {
                    rejected(s, db, Violation::NotIdentified)
                } else if s.role == Role::Dispatcher {
                    rejected(s, db, Violation::InvalidFromDispatcher)
                } else {
                    match issue(db, s.id, plate, timestamp) {
                        Some(out) => StepView {
                            session: s,
                            db: out.db,
                            reaction: ReactionView { sent: out.sent, ..ReactionView::nothing() },
                        },
                        None => rejected(s, db, Violation::UnknownCamera),
                    }
                }
            },
        },
    }
}

/// What can happen to a connection, as a mathematical value.
pub enum EventView {
    /// A frame has arrived.
    Frame(ClientFrameView),
    /// Bytes have arrived that are no frame.
    BadFrame,
    /// The stream has ended.
    Eof,
    /// A frame waits in the queue of the connection: a ticket for this
    /// dispatcher, or a heartbeat.
    Outbound(ServerFrameView),
    /// The server is shutting down.
    Shutdown,
}

/// What an event does to a connection in state `s` and to the store. A
/// closed connection takes no notice of anything. An open one handles a
/// frame by its role, is closed with an error frame by bytes that are no frame,
/// is closed without a word by the end of the stream and by the shutdown of the
/// server, and sends on what waits in its queue.
pub open spec fn react(s: SessionView, db: DbView, event: EventView) -> StepView {
    if s.role == Role::Closed {
        StepView { session: s, db, reaction: ReactionView::nothing() }
    } else {
        match event {
            EventView::Frame(frame) => step(s, db, frame),
            EventView::BadFrame => rejected(s, db, Violation::BadFrame),
            EventView::Eof | EventView::Shutdown => StepView {
                session: SessionView { role: Role::Closed, ..s },
                db,
                reaction: ReactionView::nothing(),
            },
            EventView::Outbound(frame) => StepView {
                session: s,
                db,
                reaction: ReactionView { reply: Some(frame), ..ReactionView::nothing() },
            },
        }
    }
}

/// What can happen to a connection.
#[derive(Debug)]
pub enum Event {
    /// A frame has arrived.
    Frame(ClientFrames),
    /// Bytes have arrived that are no frame.
    BadFrame,
    /// The stream has ended.
    Eof,
    /// A frame waits in the queue of the connection: a ticket for this
    /// dispatcher, or a heartbeat.
    Outbound(ServerFrames),
    /// The server is shutting down.
    Shutdown,
}

impl View for Event {
    type V = EventView;

    open spec fn view(&self) -> EventView {
        match *self {
            Event::Frame(frame) => EventView::Frame(frame@),
            Event::BadFrame => EventView::BadFrame,
            Event::Eof => EventView::Eof,
            Event::Outbound(frame) => EventView::Outbound(frame@),
            Event::Shutdown => EventView::Shutdown,
        }
    }
}

/// What the owner of a connection has to do after a step.
#[derive(Debug)]
pub struct Reaction {
    /// Tickets to send, each to the connection of its dispatcher.
    pub sent: Vec<Delivery>,
    /// A frame to send to this connection.
    pub reply: Option<ServerFrames>,
    /// The period, in milliseconds, at which to send heartbeats from now on.
    pub heartbeat: Option<u64>,
    /// Whether to close the connection once the reply is sent.
    pub close: bool,
}

impl View for Reaction {
    type V = ReactionView;

    open spec fn view(&self) -> ReactionView {
        ReactionView {
            sent: delivery_views(self.sent@),
            reply: match self.reply {
                Some(f) => Some(f@),
                None => None,
            },
            heartbeat: self.heartbeat,
            close: self.close,
        }
    }
}

impl Reaction {
    /// Nothing to do.
    pub fn nothing() -> (r: Reaction)
        ensures
            r@ == ReactionView::nothing(),
    {
        let r = Reaction { sent: Vec::new(), reply: None, heartbeat: None, close: false };
        assert(delivery_views(r.sent@) =~= Seq::empty());
        r
    }

    /// Send the error frame of `v` and close.
    pub fn reject(v: Violation) -> (r: Reaction)
        ensures
            r@ == ReactionView::reject(v),
    {
        let r = Reaction {
            sent: Vec::new(),
            reply: Some(v.into_frame()),
            heartbeat: None,
            close: true,
        };
        assert(delivery_views(r.sent@) =~= Seq::empty());
        r
    }
}

/// One connection: the number that names it in the store, its role, and
/// whether it has asked for heartbeats.
#[derive(Debug)]
pub struct Session {
    id: u64,
    role: Role,
    heartbeat_requested: bool,
}

impl View for Session {
    type V = SessionView;

    closed spec fn view(&self) -> SessionView {
        SessionView {
            id: self.id,
            role: self.role,
            heartbeat_requested: self.heartbeat_requested,
        }
    }
}

impl Session {
    /// A new connection, not yet identified.
    pub fn new(id: u64) -> (s: Session)
        ensures
            s@ == (SessionView { id, role: Role::Unidentified, heartbeat_requested: false }),
    {
        Session { id, role: Role::Unidentified, heartbeat_requested: false }
    }

    /// The number that names the connection in the store.
    pub fn id(&self) -> (id: u64)
        ensures
            id == self@.id,
    {
        self.id
    }

    /// What the connection is.
    pub fn role(&self) -> (role: Role)
        ensures
            role == self@.role,
    {
        self.role
    }

    /// Whether the connection is closed.
    pub fn is_closed(&self) -> (closed: bool)
        ensures
            closed == (self@.role == Role::Closed),
    {
        self.role == Role::Closed
    }

    /// Closes the connection with the error frame of `v`.
    fn reject(&mut self, v: Violation) -> (r: Reaction)
        ensures
            final(self)@ == (SessionView { role: Role::Closed, ..old(self)@ }),
            r@ == ReactionView::reject(v),
    {
        self.role = Role::Closed;
        Reaction::reject(v)
    }

    /// Takes one frame from the connection: moves the machine, changes the
    /// store, and says what to send, whether to start heartbeats and whether to
    /// close.
    pub fn handle_client_frame(&mut self, db: &mut Db, frame: ClientFrames) -> (r: Reaction)
        ensures
            (StepView { session: final(self)@, db: final(db)@, reaction: r@ }) == step(
                old(self)@,
                old(db)@,
                frame@,
            ),
    {
        if self.role == Role::Closed {
            return Reaction::nothing();
        }
        match frame {
            ClientFrames::WantHeartbeat { interval } => {
                if self.heartbeat_requested {
                    self.reject(Violation::SecondHeartbeat)
                } else {
                    self.heartbeat_requested = true;
                    let mut r = Reaction::nothing();
                    r.heartbeat = heartbeat_period_ms(interval);
                    r
                }
            },
            ClientFrames::IAmCamera { road, mile, limit } => {
                if self.role == Role::Unidentified {
                    self.role = Role::Camera;
                    db.add_camera(self.id, Camera { road, mile, limit });
                    Reaction::nothing()
                } else if self.role == Role::Camera {
                    self.reject(Violation::AlreadyIdentified)
                } else {
                    self.reject(Violation::InvalidFromDispatcher)
                }
            },
            ClientFrames::IAmDispatcher { roads } => {
                if self.role == Role::Unidentified {
                    self.role = Role::Dispatcher;
                    let listed = roads.clone();
                    db.add_dispatcher(self.id, roads);
                    let sent = send_out_waiting_tickets(db, self.id, &listed);
                    Reaction { sent, reply: None, heartbeat: None, close: false }
                } else if self.role == Role::Camera {
                    self.reject(Violation::AlreadyIdentified)
                } else {
                    self.reject(Violation::InvalidFromDispatcher)
                }
            },
            ClientFrames::Plate { plate, timestamp } => {
                if self.role == Role::Unidentified {
                    self.reject(Violation::NotIdentified)
                } else if self.role == Role::Dispatcher {
                    self.reject(Violation::InvalidFromDispatcher)
                } else {
                    match issue_possible_ticket(db, Plate { plate, timestamp }, self.id) {
                        Some(sent) => Reaction { sent, reply: None, heartbeat: None, close: false },
                        None => self.reject(Violation::UnknownCamera),
                    }
                }
            },
        }
    }

    /// Takes whatever happens to the connection: moves the machine, changes
    /// the store, and says what to send, whether to start heartbeats and whether
    /// to close.
    pub fn handle(&mut self, db: &mut Db, event: Event) -> (r: Reaction)
        ensures
            (StepView { session: final(self)@, db: final(db)@, reaction: r@ }) == react(
                old(self)@,
                old(db)@,
                event@,
            ),
    {
        if self.role == Role::Closed {
            return Reaction::nothing();
        }
        match event {
            Event::Frame(frame) => self.handle_client_frame(db, frame),
            Event::BadFrame => self.handle_bad_frame(),
            Event::Eof => {
                self.handle_eof();
                Reaction::nothing()
            },
            Event::Shutdown => {
                self.handle_eof();
                Reaction::nothing()
            },
            Event::Outbound(frame) => {
                let mut r = Reaction::nothing();
                r.reply = Some(frame);
                r
            },
        }
    }

    /// Takes bytes that are no frame: the connection is closed with an error
    /// frame, unless it is closed already.
    pub fn handle_bad_frame(&mut self) -> (r: Reaction)
        ensures
            old(self)@.role == Role::Closed ==> final(self)@ == old(self)@ && r@
                == ReactionView::nothing(),
            old(self)@.role != Role::Closed ==> final(self)@ == (SessionView {
                role: Role::Closed,
                ..old(self)@
            }) && r@ == ReactionView::reject(Violation::BadFrame),
    {
        if self.role == Role::Closed {
            Reaction::nothing()
        } else {
            self.reject(Violation::BadFrame)
        }
    }

    /// Takes the end of the stream: the connection is closed without a word.
    pub fn handle_eof(&mut self)
        ensures
            final(self)@ == (SessionView { role: Role::Closed, ..old(self)@ }),
    {
        self.role = Role::Closed;
    }
}

/// The connection after the frames, one after the other.
pub open spec fn run(s: SessionView, db: DbView, frames: Seq<ClientFrameView>) -> StepView
    decreases frames.len(),
{
    if frames.len() == 0 {
        StepView { session: s, db, reaction: ReactionView::nothing() }
    } else {
        let before = run(s, db, frames.drop_last());
        step(before.session, before.db, frames.last())
    }
}

/// A role is for good: a camera stays a camera and a dispatcher a dispatcher
/// until the connection is closed, and a closed connection stays closed. The
/// connection keeps its number throughout.
pub proof fn lemma_role_is_kept(s: SessionView, db: DbView, frame: ClientFrameView)
    ensures
        step(s, db, frame).session.id == s.id,
        s.role != Role::Unidentified ==> step(s, db, frame).session.role == s.role || step(s, db, frame).session.role == Role::Closed,
        s.role == Role::Closed ==> step(s, db, frame) == (StepView {
            session: s,
            db,
            reaction: ReactionView::nothing(),
        }),
{
}

/// Whatever frames follow, a connection that has a role keeps it or is
/// closed.
pub proof fn lemma_role_is_kept_throughout(
    s: SessionView,
    db: DbView,
    frames: Seq<ClientFrameView>,
)
    requires
        s.role != Role::Unidentified,
    ensures
        run(s, db, frames).session.role == s.role || run(s, db, frames).session.role
            == Role::Closed,
    decreases frames.len(),
{
    if frames.len() > 0 {
        lemma_role_is_kept_throughout(s, db, frames.drop_last());
        let before = run(s, db, frames.drop_last());
        lemma_role_is_kept(before.session, before.db, frames.last());
    }
}

/// A second identification is refused: a camera or a dispatcher that sends an
/// identification frame gets an error frame and is closed, and the store
/// stays as it is.
pub proof fn lemma_second_identification_refused(
    s: SessionView,
    db: DbView,
    frame: ClientFrameView,
)
    requires
        s.role == Role::Camera || s.role == Role::Dispatcher,
        frame is IAmCamera || frame is IAmDispatcher,
    ensures
        step(s, db, frame).session.role == Role::Closed,
        step(s, db, frame).db == db,
        step(s, db, frame).reaction.close,
        step(s, db, frame).reaction.reply matches Some(ServerFrameView::Error { .. }),
        step(s, db, frame).reaction.sent.len() == 0,
        step(s, db, frame).reaction.heartbeat is None,
{
}

/// A dispatcher may ask for heartbeats and nothing else: any other frame
/// from it is refused.
pub proof fn lemma_dispatcher_only_asks_for_heartbeats(
    s: SessionView,
    db: DbView,
    frame: ClientFrameView,
)
    requires
        s.role == Role::Dispatcher,
        !(frame is WantHeartbeat),
    ensures
        step(s, db, frame) == rejected(s, db, Violation::InvalidFromDispatcher),
{
}

/// A plate from a connection that has not said what it is is refused.
pub proof fn lemma_plate_needs_a_camera(
    s: SessionView,
    db: DbView,
    plate: Seq<char>,
    timestamp: u32,
)
    requires
        s.role == Role::Unidentified,
    ensures
        step(s, db, ClientFrameView::Plate { plate, timestamp }) == rejected(
            s,
            db,
            Violation::NotIdentified,
        ),
{
}

/// A request for heartbeats at the interval zero is accepted and starts
/// none: nothing is sent, nothing is closed.
pub proof fn lemma_zero_interval_is_silent(s: SessionView, db: DbView)
    requires
        s.role != Role::Closed,
        !s.heartbeat_requested,
    ensures
        step(s, db, ClientFrameView::WantHeartbeat { interval: 0 }) == (StepView {
            session: SessionView { heartbeat_requested: true, ..s },
            db,
            reaction: ReactionView::nothing(),
        }),
{
}

/// A second request for heartbeats is refused, whatever the intervals.
pub proof fn lemma_second_heartbeat_refused(s: SessionView, db: DbView, interval: u32)
    requires
        s.role != Role::Closed,
        s.heartbeat_requested,
    ensures
        step(s, db, ClientFrameView::WantHeartbeat { interval }) == rejected(
            s,
            db,
            Violation::SecondHeartbeat,
        ),
{
}

/// A dispatcher may register without roads: it becomes a dispatcher, is
/// handed nothing, takes no parked ticket, and is never the dispatcher of any
/// road.
pub proof fn lemma_dispatcher_without_roads(s: SessionView, db: DbView, road: u16)
    requires
        s.role == Role::Unidentified,
    ensures
        step(s, db, ClientFrameView::IAmDispatcher { roads: Seq::empty() }) == (StepView {
            session: SessionView { role: Role::Dispatcher, ..s },
            db: DbView {
                dispatchers: db.dispatchers.push(
                    DispatcherView { id: s.id, roads: Seq::empty() },
                ),
                ..db
            },
            reaction: ReactionView::nothing(),
        }),
        first_dispatcher(
            db.dispatchers.push(DispatcherView { id: s.id, roads: Seq::empty() }),
            road,
        ) == first_dispatcher(db.dispatchers, road),
{
    let roads = Seq::<u16>::empty();
    let pushed = db.dispatchers.push(DispatcherView { id: s.id, roads });
    assert(pushed.drop_last() =~= db.dispatchers);
    assert(!roads.contains(road));
}

/// The period of the heartbeats for an interval in tenths of a second, in
/// milliseconds; none for the interval zero.
pub fn heartbeat_period_ms(interval: u32) -> (period: Option<u64>)
    ensures
        period == heartbeat_period(interval),
{
    if interval == 0 {
        None
    } else {
        Some((interval as u64) * 100)
    }
}

} // verus!
