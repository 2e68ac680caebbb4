//! The server as a whole: many connections, one store.
//!
//! Frames arrive from any connection in any order. Each is a step of the
//! machine of its connection, and each step is at most one thing that happens
//! to the store. So what holds of every history of the store holds of the
//! server, whatever its clients send.
use crate::db::{Camera, DbView};
use crate::frame::ClientFrameView;
use crate::db::sightings_on;
use crate::db::DispatcherView;
use crate::frame::ServerFrameView;
use crate::ledger::{
    apply, issued, lemma_consider_all_marks_more, lemma_one_ticket_per_day, replay,
    ticket_covers, Op, World,
};
use crate::ticketing::{lemma_consider_all_keeps, Outcome};
use crate::routing::{
    accounted, lemma_drain_roads_parts, lemma_replay_accounted, lemma_replay_settled,
    lemma_replay_well_routed, settled, well_routed,
};
use crate::session::{
    lemma_role_is_kept, lemma_second_identification_refused, step, Role, SessionView,
};
use vstd::prelude::*;

verus! {

/// A frame as it arrives: the connection that sent it, and the frame.
pub struct Arrival {
    pub connection: u64,
    pub frame: ClientFrameView,
}

/// The server: the state of every connection that has sent a frame, the
/// store, and every ticket issued so far.
pub struct System {
    pub sessions: Map<u64, SessionView>,
    pub world: World,
}

/// The state of connection `id`: as it was left, or that of a new
/// connection.
pub open spec fn session_of(sessions: Map<u64, SessionView>, id: u64) -> SessionView {
    if sessions.contains_key(id) {
        sessions[id]
    } else {
        SessionView { id, role: Role::Unidentified, heartbeat_requested: false }
    }
}

/// What a frame in state `s` amounts to for the store, if anything.
pub open spec fn op_of(s: SessionView, frame: ClientFrameView) -> Option<Op> {
    match frame {
        ClientFrameView::IAmCamera { road, mile, limit } => if s.role == Role::Unidentified {
            Some(Op::AddCamera { id: s.id, camera: Camera { road, mile, limit } })
        } else {
            None
        },
        ClientFrameView::IAmDispatcher { roads } => if s.role == Role::Unidentified {
            Some(Op::AddDispatcher { id: s.id, roads })
        } else {
            None
        },
        ClientFrameView::Plate { plate, timestamp } => if s.role == Role::Camera {
            Some(Op::Plate { id: s.id, plate, timestamp })
        } else {
            None
        },
        ClientFrameView::WantHeartbeat { .. } => None,
    }
}

/// The server after one more frame.
pub open spec fn arrive(sys: System, a: Arrival) -> System {
    let s = session_of(sys.sessions, a.connection);
    let st = step(s, sys.world.db, a.frame);
    System {
        sessions: sys.sessions.insert(a.connection, st.session),
        world: World {
            db: st.db,
            delivered: sys.world.delivered + st.reaction.sent,
            issued: match a.frame {
                ClientFrameView::Plate { plate, timestamp } => if s.role == Role::Camera {
                    sys.world.issued + issued(sys.world.db, s.id, plate, timestamp)
                } else {
                    sys.world.issued
                },
                _ => sys.world.issued,
            },
        },
    }
}

/// The server after the frames, from its start.
pub open spec fn serve(arrivals: Seq<Arrival>) -> System
    decreases arrivals.len(),
{
    if arrivals.len() == 0 {
        System {
            sessions: Map::empty(),
            world: World {
                db: DbView::empty(),
                issued: Seq::empty(),
                delivered: Seq::empty(),
            },
        }
    } else {
        arrive(serve(arrivals.drop_last()), arrivals.last())
    }
}

/// What the frames amount to for the store, one after the other.
pub open spec fn ops_of(arrivals: Seq<Arrival>) -> Seq<Op>
    decreases arrivals.len(),
{
    if arrivals.len() == 0 {
        Seq::empty()
    } else {
        let before = serve(arrivals.drop_last());
        let s = session_of(before.sessions, arrivals.last().connection);
        match op_of(s, arrivals.last().frame) {
            Some(op) => ops_of(arrivals.drop_last()).push(op),
            None => ops_of(arrivals.drop_last()),
        }
    }
}

/// A step of a connection changes the store as the one thing that the frame
/// amounts to, or not at all.
pub proof fn lemma_step_is_op(s: SessionView, w: World, frame: ClientFrameView)
    ensures
        step(s, w.db, frame).db == match op_of(s, frame) {
            Some(op) => apply(w, op).db,
            None => w.db,
        },
{
}

/// Whatever the clients send, the store and the tickets issued are those of
/// a history of the store.
pub proof fn lemma_serve_is_replay(arrivals: Seq<Arrival>)
    ensures
        serve(arrivals).world == replay(ops_of(arrivals)),
    decreases arrivals.len(),
{
    if arrivals.len() > 0 {
        let earlier = arrivals.drop_last();
        lemma_serve_is_replay(earlier);
        let before = serve(earlier);
        let a = arrivals.last();
        let s = session_of(before.sessions, a.connection);
        lemma_step_is_op(s, before.world, a.frame);
        match op_of(s, a.frame) {
            Some(op) => {
                assert(ops_of(arrivals).drop_last() =~= ops_of(earlier));
                match op {
                    Op::Plate { id, plate, timestamp } => {
                        if !before.world.db.cameras.contains_key(id) {
                            assert(before.world.issued + issued(
                                before.world.db,
                                id,
                                plate,
                                timestamp,
                            ) =~= before.world.issued);
                        }
                    },
                    _ => {},
                }
            },
            None => {
                match a.frame {
                    ClientFrameView::Plate { plate, timestamp } => {},
                    _ => {},
                }
            },
        }
    }
}

/// At most one ticket per plate and day, whatever the clients send: two
/// different tickets for the same plate never both cover the same day.
pub proof fn lemma_server_one_ticket_per_day(arrivals: Seq<Arrival>, i: int, j: int, day: u32)
    requires
        0 <= i < serve(arrivals).world.issued.len(),
        0 <= j < serve(arrivals).world.issued.len(),
        i != j,
        serve(arrivals).world.issued[i].plate == serve(arrivals).world.issued[j].plate,
    ensures
        !(ticket_covers(serve(arrivals).world.issued[i], day) && ticket_covers(
            serve(arrivals).world.issued[j],
            day,
        )),
{
    lemma_serve_is_replay(arrivals);
    lemma_one_ticket_per_day(ops_of(arrivals), i, j, day);
}

/// Whatever the clients send, a ticket waits only while its road has no
/// dispatcher.
pub proof fn lemma_server_settled(arrivals: Seq<Arrival>)
    ensures
        settled(serve(arrivals).world.db),
{
    lemma_serve_is_replay(arrivals);
    lemma_replay_settled(ops_of(arrivals));
}

/// Whatever the clients send, every ticket issued is either parked or has
/// been handed to a dispatcher, exactly once.
pub proof fn lemma_server_accounted(arrivals: Seq<Arrival>)
    ensures
        accounted(serve(arrivals).world),
{
    lemma_serve_is_replay(arrivals);
    lemma_replay_accounted(ops_of(arrivals));
}

/// Whatever the clients send, every ticket handed out has gone to a
/// dispatcher that had registered for the ticket's road.
pub proof fn lemma_server_well_routed(arrivals: Seq<Arrival>)
    ensures
        well_routed(serve(arrivals).world),
{
    lemma_serve_is_replay(arrivals);
    lemma_replay_well_routed(ops_of(arrivals));
}

/// A step changes the cameras only where an unidentified connection
/// registers as one, and then by that camera alone.
pub proof fn lemma_step_cameras(s: SessionView, db: DbView, frame: ClientFrameView)
    ensures
        step(s, db, frame).db.cameras == match frame {
            ClientFrameView::IAmCamera { road, mile, limit } => if s.role == Role::Unidentified {
                db.cameras.insert(s.id, Camera { road, mile, limit })
            } else {
                db.cameras
            },
            _ => db.cameras,
        },
{
    match frame {
        ClientFrameView::IAmDispatcher { roads } => {
            if s.role == Role::Unidentified {
                lemma_drain_roads_parts(
                    Outcome {
                        db: DbView {
                            dispatchers: db.dispatchers.push(
                                DispatcherView { id: s.id, roads },
                            ),
                            ..db
                        },
                        sent: Seq::empty(),
                    },
                    s.id,
                    roads,
                );
            }
        },
        ClientFrameView::Plate { plate, timestamp } => {
            if s.role == Role::Camera && db.cameras.contains_key(s.id) && plate.len() > 0 {
                let camera = db.cameras[s.id];
                lemma_consider_all_keeps(
                    Outcome { db, sent: Seq::empty() },
                    camera,
                    plate,
                    timestamp,
                    sightings_on(db.sightings, plate, camera.road),
                );
            }
        },
        _ => {},
    }
}

/// Every connection is known by its own number, and a connection whose
/// camera is in the store is no longer unidentified.
pub open spec fn coherent(sys: System) -> bool {
    &&& forall|c: u64| (#[trigger] session_of(sys.sessions, c)).id == c
    &&& forall|c: u64| #[trigger]
        sys.world.db.cameras.contains_key(c) ==> session_of(sys.sessions, c).role
            != Role::Unidentified
}

/// Whatever the clients send, the server stays coherent.
pub proof fn lemma_serve_coherent(arrivals: Seq<Arrival>)
    ensures
        coherent(serve(arrivals)),
    decreases arrivals.len(),
{
    if arrivals.len() > 0 {
        let before = serve(arrivals.drop_last());
        let a = arrivals.last();
        let after = serve(arrivals);
        let s = session_of(before.sessions, a.connection);
        lemma_serve_coherent(arrivals.drop_last());
        lemma_role_is_kept(s, before.world.db, a.frame);
        lemma_step_cameras(s, before.world.db, a.frame);
        assert(s.id == a.connection);
        assert forall|c: u64| (#[trigger] session_of(after.sessions, c)).id == c by {
            if c != a.connection {
                assert(session_of(after.sessions, c) == session_of(before.sessions, c));
            }
        }
        assert forall|c: u64| #[trigger]
            after.world.db.cameras.contains_key(c) implies session_of(after.sessions, c).role
            != Role::Unidentified by {
            if c != a.connection {
                assert(session_of(after.sessions, c) == session_of(before.sessions, c));
                assert(before.world.db.cameras.contains_key(c));
            }
        }
    }
}

/// One more frame takes nothing out of the store but parked tickets: the
/// cameras and their places stay, the dispatchers and the sightings are
/// followed by new ones at most, the marked days stay marked, and what was
/// issued and handed out stays so.
pub proof fn lemma_arrival_only_adds(sys: System, a: Arrival)
    ensures
        forall|c: u64| #[trigger]
            sys.world.db.cameras.contains_key(c) ==> arrive(sys, a).world.db.cameras.contains_key(
                c,
            ),
        sys.world.db.dispatchers.is_prefix_of(arrive(sys, a).world.db.dispatchers),
        sys.world.db.sightings.is_prefix_of(arrive(sys, a).world.db.sightings),
        sys.world.db.ticketed.subset_of(arrive(sys, a).world.db.ticketed),
        sys.world.issued.is_prefix_of(arrive(sys, a).world.issued),
        sys.world.delivered.is_prefix_of(arrive(sys, a).world.delivered),
{
    let s = session_of(sys.sessions, a.connection);
    let db = sys.world.db;
    let after = arrive(sys, a).world;
    lemma_step_is_op(s, sys.world, a.frame);
    match op_of(s, a.frame) {
        Some(Op::AddCamera { id, camera }) => {},
        Some(Op::AddDispatcher { id, roads }) => {
            lemma_drain_roads_parts(
                Outcome {
                    db: DbView {
                        dispatchers: db.dispatchers.push(DispatcherView { id, roads }),
                        ..db
                    },
                    sent: Seq::empty(),
                },
                id,
                roads,
            );
        },
        Some(Op::Plate { id, plate, timestamp }) => {
            if db.cameras.contains_key(id) && plate.len() > 0 {
                let camera = db.cameras[id];
                let start = Outcome { db, sent: Seq::empty() };
                let priors = sightings_on(db.sightings, plate, camera.road);
                lemma_consider_all_keeps(start, camera, plate, timestamp, priors);
                lemma_consider_all_marks_more(start, camera, plate, timestamp, priors);
            }
        },
        None => {},
    }
}

/// A camera is for good: once a connection has registered as a camera, no
/// frame from anyone changes where the camera stands or what its limit is.
pub proof fn lemma_server_cameras_stay(arrivals: Seq<Arrival>, a: Arrival, c: u64)
    requires
        serve(arrivals).world.db.cameras.contains_key(c),
    ensures
        arrive(serve(arrivals), a).world.db.cameras.contains_key(c),
        arrive(serve(arrivals), a).world.db.cameras[c] == serve(arrivals).world.db.cameras[c],
{
    let sys = serve(arrivals);
    let s = session_of(sys.sessions, a.connection);
    lemma_serve_coherent(arrivals);
    lemma_step_cameras(s, sys.world.db, a.frame);
    assert(s.id == a.connection);
    if a.connection == c {
        assert(s.role != Role::Unidentified);
    }
}

/// A connection identifies itself once: whatever the clients have sent, an
/// identification frame from a connection that is a camera or a dispatcher
/// closes that connection with an error frame, and the store, the tickets
/// issued and the tickets handed out stay as they are.
pub proof fn lemma_server_identifies_once(arrivals: Seq<Arrival>, a: Arrival)
    requires
        session_of(serve(arrivals).sessions, a.connection).role == Role::Camera || session_of(
            serve(arrivals).sessions,
            a.connection,
        ).role == Role::Dispatcher,
        a.frame is IAmCamera || a.frame is IAmDispatcher,
    ensures
        session_of(arrive(serve(arrivals), a).sessions, a.connection).role == Role::Closed,
        arrive(serve(arrivals), a).world == serve(arrivals).world,
        ({
            let sys = serve(arrivals);
            let reaction = step(
                session_of(sys.sessions, a.connection),
                sys.world.db,
                a.frame,
            ).reaction;
            reaction.close && reaction.reply matches Some(
                ServerFrameView::Error { .. },
            )
        }),
{
    let sys = serve(arrivals);
    let s = session_of(sys.sessions, a.connection);
    lemma_second_identification_refused(s, sys.world.db, a.frame);
    assert(sys.world.delivered + step(s, sys.world.db, a.frame).reaction.sent
        =~= sys.world.delivered);
}

} // verus!
