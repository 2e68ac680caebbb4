//! The tickets that the engine issues, taken together.
//!
//! The store is followed from its empty start through any sequence of
//! registrations and plate reports, and every ticket issued on the way is
//! noted. What is proved here holds of all such histories.
use crate::db::{
    first_dispatcher, plate_days, sightings_on, Camera, DbView, DispatcherView, SightingView,
    TicketView,
};
use crate::ticketing::{
    candidate, consider_all, day_of, deliveries_to, drain_roads, emit, issue, pair_ticket,
    speed_hundredths, DeliveryView, Outcome, MAX_TICKET_SPEED,
};
use vstd::prelude::*;

verus! {

/// Whether `day` lies between the days of the two sightings of the ticket.
pub open spec fn ticket_covers(t: TicketView, day: u32) -> bool {
    day_of(t.timestamp1) <= day <= day_of(t.timestamp2)
}

/// The tickets issued while the new sighting is held against the earlier
/// ones, in the order of issue.
pub open spec fn issued_all(
    st: Outcome,
    camera: Camera,
    plate: Seq<char>,
    timestamp: u32,
    priors: Seq<(u16, u32)>,
) -> Seq<TicketView>
    decreases priors.len(),
{
    if priors.len() == 0 {
        Seq::empty()
    } else {
        let before = issued_all(st, camera, plate, timestamp, priors.drop_last());
        let reached = consider_all(st, camera, plate, timestamp, priors.drop_last());
        match candidate(reached.db, camera, plate, timestamp, priors.last()) {
            Some(t) => before.push(t),
            None => before,
        }
    }
}

/// The tickets that a plate report from connection `camera_id` issues.
pub open spec fn issued(db: DbView, camera_id: u64, plate: Seq<char>, timestamp: u32) -> Seq<
    TicketView,
> {
    if !db.cameras.contains_key(camera_id) || plate.len() == 0 {
        Seq::empty()
    } else {
        issued_all(
            Outcome { db, sent: Seq::empty() },
            db.cameras[camera_id],
            plate,
            timestamp,
            sightings_on(db.sightings, plate, db.cameras[camera_id].road),
        )
    }
}

/// What holds of a ticket that the sighting `seen` by `camera` makes with
/// an earlier one: it names the plate and the camera's road, its first
/// sighting is strictly earlier than its second, the speed between them is
/// over the camera's limit, and it carries that speed, cut off at the highest
/// that fits.
pub open spec fn well_issued(t: TicketView, camera: Camera, plate: Seq<char>) -> bool {
    &&& t.plate == plate
    &&& t.road == camera.road
    &&& t.timestamp1 < t.timestamp2
    &&& speed_hundredths(t.mile1, t.timestamp1, t.mile2, t.timestamp2) > camera.limit * 100
    &&& t.speed as int == if speed_hundredths(t.mile1, t.timestamp1, t.mile2, t.timestamp2)
        > MAX_TICKET_SPEED {
        MAX_TICKET_SPEED as int
    } else {
        speed_hundredths(t.mile1, t.timestamp1, t.mile2, t.timestamp2)
    }
}

/// A pair of sightings makes a ticket only where the ticket is well issued,
/// one of its sightings is the new one and the other the earlier one.
pub proof fn lemma_candidate_well_issued(
    db: DbView,
    camera: Camera,
    plate: Seq<char>,
    timestamp: u32,
    prior: (u16, u32),
)
    requires
        candidate(db, camera, plate, timestamp, prior) is Some,
    ensures
        well_issued(candidate(db, camera, plate, timestamp, prior)->0, camera, plate),
        ({
            let t = candidate(db, camera, plate, timestamp, prior)->0;
            let seen = (camera.mile, timestamp);
            ||| ((t.mile1, t.timestamp1) == prior && (t.mile2, t.timestamp2) == seen)
            ||| ((t.mile1, t.timestamp1) == seen && (t.mile2, t.timestamp2) == prior)
        }),
{
    let t = pair_ticket(plate, camera.road, (camera.mile, timestamp), prior);
    let speed = speed_hundredths(t.mile1, t.timestamp1, t.mile2, t.timestamp2);
    assert(speed >= 0) by (nonlinear_arith)
        requires
            speed == (if t.mile1 <= t.mile2 {
                t.mile2 - t.mile1
            } else {
                t.mile1 - t.mile2
            }) * 360000 / (t.timestamp2 - t.timestamp1),
            t.timestamp2 - t.timestamp1 > 0,
    ;
}

/// Sightings taken at the same time make no ticket, wherever they were
/// taken.
pub proof fn lemma_same_time_no_ticket(
    db: DbView,
    camera: Camera,
    plate: Seq<char>,
    timestamp: u32,
    mile: u16,
)
    ensures
        candidate(db, camera, plate, timestamp, (mile, timestamp)) is None,
{
}

/// Every ticket issued for a plate report is well issued for the reporting
/// camera. Where the camera's limit is at most 655 miles per hour, so that
/// a hundred times the limit fits in a ticket, the speed on the ticket is over
/// a hundred times the limit.
pub proof fn lemma_issued_well(
    db: DbView,
    camera_id: u64,
    plate: Seq<char>,
    timestamp: u32,
    k: int,
)
    requires
        0 <= k < issued(db, camera_id, plate, timestamp).len(),
    ensures
        db.cameras.contains_key(camera_id),
        well_issued(issued(db, camera_id, plate, timestamp)[k], db.cameras[camera_id], plate),
        db.cameras[camera_id].limit <= 655 ==> issued(db, camera_id, plate, timestamp)[k].speed
            > db.cameras[camera_id].limit * 100,
{
    let camera = db.cameras[camera_id];
    lemma_issued_all_well(
        Outcome { db, sent: Seq::empty() },
        camera,
        plate,
        timestamp,
        sightings_on(db.sightings, plate, camera.road),
        k,
    );
}

/// Every ticket issued while a sighting is held against earlier ones is
/// well issued.
proof fn lemma_issued_all_well(
    st: Outcome,
    camera: Camera,
    plate: Seq<char>,
    timestamp: u32,
    priors: Seq<(u16, u32)>,
    k: int,
)
    requires
        0 <= k < issued_all(st, camera, plate, timestamp, priors).len(),
    ensures
        well_issued(issued_all(st, camera, plate, timestamp, priors)[k], camera, plate),
    decreases priors.len(),
{
    let shorter = priors.drop_last();
    let before = issued_all(st, camera, plate, timestamp, shorter);
    if k < before.len() {
        lemma_issued_all_well(st, camera, plate, timestamp, shorter, k);
    } else {
        let reached = consider_all(st, camera, plate, timestamp, shorter);
        lemma_candidate_well_issued(reached.db, camera, plate, timestamp, priors.last());
    }
}

/// Where the tickets of a plate report go: all of them, in the order of
/// issue, to the dispatcher that registered first for the camera's road, or,
/// where there is none, behind the tickets that are parked already.
pub proof fn lemma_issue_routes(db: DbView, camera_id: u64, plate: Seq<char>, timestamp: u32)
    requires
        db.cameras.contains_key(camera_id),
    ensures
        issue(db, camera_id, plate, timestamp) is Some,
        ({
            let out = issue(db, camera_id, plate, timestamp)->0;
            let log = issued(db, camera_id, plate, timestamp);
            match first_dispatcher(db.dispatchers, db.cameras[camera_id].road) {
                Some(id) => out.sent == deliveries_to(id, log) && out.db.pending == db.pending,
                None => out.sent == Seq::<DeliveryView>::empty()
                    && out.db.pending == db.pending + log,
            }
        }),
{
    let camera = db.cameras[camera_id];
    let start = Outcome { db, sent: Seq::empty() };
    let log = issued(db, camera_id, plate, timestamp);
    if plate.len() == 0 {
        assert(db.pending + log =~= db.pending);
        assert(deliveries_to(0, log) =~= Seq::empty());
        match first_dispatcher(db.dispatchers, camera.road) {
            Some(id) => {
                assert(deliveries_to(id, log) =~= Seq::empty());
            },
            None => {},
        }
    } else {
        lemma_consider_all_routes(
            start,
            camera,
            plate,
            timestamp,
            sightings_on(db.sightings, plate, camera.road),
        );
        match first_dispatcher(db.dispatchers, camera.road) {
            Some(id) => {
                assert(Seq::<DeliveryView>::empty() + deliveries_to(id, log)
                    =~= deliveries_to(id, log));
            },
            None => {},
        }
    }
}

/// Where the tickets go that are issued while a sighting is held against
/// earlier ones.
proof fn lemma_consider_all_routes(
    st: Outcome,
    camera: Camera,
    plate: Seq<char>,
    timestamp: u32,
    priors: Seq<(u16, u32)>,
)
    ensures
        consider_all(st, camera, plate, timestamp, priors).db.dispatchers == st.db.dispatchers,
        ({
            let out = consider_all(st, camera, plate, timestamp, priors);
            let log = issued_all(st, camera, plate, timestamp, priors);
            match first_dispatcher(st.db.dispatchers, camera.road) {
                Some(id) => out.sent == st.sent + deliveries_to(id, log) && out.db.pending
                    == st.db.pending,
                None => out.sent == st.sent && out.db.pending == st.db.pending + log,
            }
        }),
    decreases priors.len(),
{
    let out = consider_all(st, camera, plate, timestamp, priors);
    let log = issued_all(st, camera, plate, timestamp, priors);
    if priors.len() == 0 {
        assert(st.db.pending + log =~= st.db.pending);
        match first_dispatcher(st.db.dispatchers, camera.road) {
            Some(id) => {
                assert(st.sent + deliveries_to(id, log) =~= st.sent);
            },
            None => {},
        }
    } else {
        let shorter = priors.drop_last();
        lemma_consider_all_routes(st, camera, plate, timestamp, shorter);
        let reached = consider_all(st, camera, plate, timestamp, shorter);
        let before = issued_all(st, camera, plate, timestamp, shorter);
        match candidate(reached.db, camera, plate, timestamp, priors.last()) {
            Some(t) => {
                assert(log == before.push(t));
                match first_dispatcher(st.db.dispatchers, camera.road) {
                    Some(id) => {
                        assert(deliveries_to(id, log) =~= deliveries_to(id, before).push(
                            DeliveryView { dispatcher: id, ticket: t },
                        ));
                        assert(out.sent =~= st.sent + deliveries_to(id, log));
                    },
                    None => {
                        assert(out.db.pending =~= st.db.pending + log);
                    },
                }
            },
            None => {},
        }
    }
}

/// A report of the empty plate issues nothing: the sighting is recorded and
/// that is all.
pub proof fn lemma_empty_plate_only_recorded(db: DbView, camera_id: u64, timestamp: u32)
    requires
        db.cameras.contains_key(camera_id),
    ensures
        issued(db, camera_id, Seq::<char>::empty(), timestamp) == Seq::<TicketView>::empty(),
        issue(db, camera_id, Seq::<char>::empty(), timestamp) == Some(
            Outcome {
                db: DbView {
                    sightings: db.sightings.push(
                        SightingView {
                            plate: Seq::<char>::empty(),
                            road: db.cameras[camera_id].road,
                            mile: db.cameras[camera_id].mile,
                            timestamp,
                        },
                    ),
                    ..db
                },
                sent: Seq::<DeliveryView>::empty(),
            },
        ),
{
}

/// Something that happens to the store.
pub enum Op {
    /// Connection `id` registers as a camera.
    AddCamera { id: u64, camera: Camera },
    /// Connection `id` registers as a dispatcher and is handed the tickets
    /// that wait for its roads.
    AddDispatcher { id: u64, roads: Seq<u16> },
    /// Connection `id` reports a plate.
    Plate { id: u64, plate: Seq<char>, timestamp: u32 },
}

/// The store together with what has come of it so far.
pub struct World {
    pub db: DbView,
    /// Every ticket issued, in the order of issue.
    pub issued: Seq<TicketView>,
    /// Every ticket handed to a dispatcher, in the order of the handing.
    pub delivered: Seq<DeliveryView>,
}

/// What the registration of dispatcher `id` for `roads` does: the dispatcher
/// joins those that registered before, and is handed the tickets that wait for
/// its roads.
pub open spec fn register(db: DbView, id: u64, roads: Seq<u16>) -> Outcome {
    drain_roads(
        Outcome {
            db: DbView { dispatchers: db.dispatchers.push(DispatcherView { id, roads }), ..db },
            sent: Seq::empty(),
        },
        id,
        roads,
    )
}

/// The world after `op`.
pub open spec fn apply(w: World, op: Op) -> World {
    match op {
        Op::AddCamera { id, camera } => World {
            db: DbView { cameras: w.db.cameras.insert(id, camera), ..w.db },
            ..w
        },
        Op::AddDispatcher { id, roads } => {
            let out = register(w.db, id, roads);
            World { db: out.db, issued: w.issued, delivered: w.delivered + out.sent }
        },
        Op::Plate { id, plate, timestamp } => match issue(w.db, id, plate, timestamp) {
            Some(out) => World {
                db: out.db,
                issued: w.issued + issued(w.db, id, plate, timestamp),
                delivered: w.delivered + out.sent,
            },
            None => w,
        },
    }
}

/// The world after `ops`, one after the other, from the empty store.
pub open spec fn replay(ops: Seq<Op>) -> World
    decreases ops.len(),
{
    if ops.len() == 0 {
        World { db: DbView::empty(), issued: Seq::empty(), delivered: Seq::empty() }
    } else {
        apply(replay(ops.drop_last()), ops.last())
    }
}

/// Every day of every issued ticket is marked in the store for the ticket's
/// plate.
pub open spec fn days_marked(ticketed: Set<(u32, Seq<char>)>, log: Seq<TicketView>) -> bool {
    forall|k: int, d: u32|
        0 <= k < log.len() && #[trigger] ticket_covers(log[k], d) ==> ticketed.contains(
            (d, log[k].plate),
        )
}

/// No two issued tickets for one plate share a day.
pub open spec fn days_apart(log: Seq<TicketView>) -> bool {
    forall|i: int, j: int, d: u32|
        0 <= i < j < log.len() && log[i].plate == log[j].plate && #[trigger] ticket_covers(
            log[i],
            d,
        ) ==> !#[trigger] ticket_covers(log[j], d)
}

/// Issuing one more ticket whose days were free keeps the days marked and
/// the tickets apart.
proof fn lemma_emit_keeps(st: Outcome, log: Seq<TicketView>, t: TicketView)
    requires
        days_marked(st.db.ticketed, log),
        days_apart(log),
        st.db.days_free(t.plate, day_of(t.timestamp1), day_of(t.timestamp2)),
    ensures
        days_marked(emit(st, t).db.ticketed, log.push(t)),
        days_apart(log.push(t)),
{
    let after = emit(st, t).db.ticketed;
    let more = log.push(t);
    assert(after == st.db.ticketed.union(
        plate_days(t.plate, day_of(t.timestamp1), day_of(t.timestamp2)),
    ));
    assert forall|k: int, d: u32|
        0 <= k < more.len() && #[trigger] ticket_covers(more[k], d) implies after.contains(
        (d, more[k].plate),
    ) by {
        if k < log.len() {
            assert(ticket_covers(log[k], d));
        } else {
            assert(plate_days(t.plate, day_of(t.timestamp1), day_of(t.timestamp2)).contains(
                (d, t.plate),
            ));
        }
    }
    assert forall|i: int, j: int, d: u32|
        0 <= i < j < more.len() && more[i].plate == more[j].plate && #[trigger] ticket_covers(
            more[i],
            d,
        ) implies !#[trigger] ticket_covers(more[j], d) by {
        if j < log.len() {
            assert(ticket_covers(log[i], d));
        } else {
            assert(ticket_covers(log[i], d));
            assert(st.db.ticketed.contains((d, log[i].plate)));
        }
    }
}

/// Holding a sighting against the earlier ones keeps the days marked and
/// the tickets apart.
proof fn lemma_consider_all_keeps_apart(
    st: Outcome,
    log: Seq<TicketView>,
    camera: Camera,
    plate: Seq<char>,
    timestamp: u32,
    priors: Seq<(u16, u32)>,
)
    requires
        days_marked(st.db.ticketed, log),
        days_apart(log),
    ensures
        days_marked(
            consider_all(st, camera, plate, timestamp, priors).db.ticketed,
            log + issued_all(st, camera, plate, timestamp, priors),
        ),
        days_apart(log + issued_all(st, camera, plate, timestamp, priors)),
    decreases priors.len(),
{
    if priors.len() == 0 {
        assert(log + issued_all(st, camera, plate, timestamp, priors) =~= log);
    } else {
        let shorter = priors.drop_last();
        lemma_consider_all_keeps_apart(st, log, camera, plate, timestamp, shorter);
        let reached = consider_all(st, camera, plate, timestamp, shorter);
        let before = log + issued_all(st, camera, plate, timestamp, shorter);
        match candidate(reached.db, camera, plate, timestamp, priors.last()) {
            Some(t) => {
                lemma_emit_keeps(reached, before, t);
                assert(log + issued_all(st, camera, plate, timestamp, priors) =~= before.push(t));
            },
            None => {
                assert(log + issued_all(st, camera, plate, timestamp, priors) =~= before);
            },
        }
    }
}

/// Holding a sighting against the earlier ones clears no day: what was
/// marked stays marked.
pub proof fn lemma_consider_all_marks_more(
    st: Outcome,
    camera: Camera,
    plate: Seq<char>,
    timestamp: u32,
    priors: Seq<(u16, u32)>,
)
    ensures
        st.db.ticketed.subset_of(consider_all(st, camera, plate, timestamp, priors).db.ticketed),
    decreases priors.len(),
{
    if priors.len() > 0 {
        lemma_consider_all_marks_more(st, camera, plate, timestamp, priors.drop_last());
    }
}

/// Handing parked tickets to a dispatcher marks no day and clears none.
proof fn lemma_drain_keeps_days(st: Outcome, id: u64, roads: Seq<u16>)
    ensures
        drain_roads(st, id, roads).db.ticketed == st.db.ticketed,
    decreases roads.len(),
{
    if roads.len() > 0 {
        lemma_drain_keeps_days(st, id, roads.drop_last());
    }
}

/// Whatever happens to the store, the days of the issued tickets stay marked
/// and the tickets stay apart.
proof fn lemma_apply_keeps_apart(w: World, op: Op)
    requires
        days_marked(w.db.ticketed, w.issued),
        days_apart(w.issued),
    ensures
        days_marked(apply(w, op).db.ticketed, apply(w, op).issued),
        days_apart(apply(w, op).issued),
{
    match op {
        Op::AddCamera { id, camera } => {},
        Op::AddDispatcher { id, roads } => {
            lemma_drain_keeps_days(
                Outcome {
                    db: DbView {
                        dispatchers: w.db.dispatchers.push(DispatcherView { id, roads }),
                        ..w.db
                    },
                    sent: Seq::empty(),
                },
                id,
                roads,
            );
        },
        Op::Plate { id, plate, timestamp } => {
            if w.db.cameras.contains_key(id) {
                if plate.len() == 0 {
                    assert(w.issued + issued(w.db, id, plate, timestamp) =~= w.issued);
                } else {
                    let camera = w.db.cameras[id];
                    lemma_consider_all_keeps_apart(
                        Outcome { db: w.db, sent: Seq::empty() },
                        w.issued,
                        camera,
                        plate,
                        timestamp,
                        sightings_on(w.db.sightings, plate, camera.road),
                    );
                }
            }
        },
    }
}

/// In every history the days of the issued tickets are marked and the
/// tickets are apart.
proof fn lemma_replay_keeps_apart(ops: Seq<Op>)
    ensures
        days_marked(replay(ops).db.ticketed, replay(ops).issued),
        days_apart(replay(ops).issued),
    decreases ops.len(),
{
    if ops.len() > 0 {
        lemma_replay_keeps_apart(ops.drop_last());
        lemma_apply_keeps_apart(replay(ops.drop_last()), ops.last());
    }
}

/// At most one ticket per plate and day: in every history, two different
/// tickets for the same plate never both cover the same day.
pub proof fn lemma_one_ticket_per_day(ops: Seq<Op>, i: int, j: int, day: u32)
    requires
        0 <= i < replay(ops).issued.len(),
        0 <= j < replay(ops).issued.len(),
        i != j,
        replay(ops).issued[i].plate == replay(ops).issued[j].plate,
    ensures
        !(ticket_covers(replay(ops).issued[i], day) && ticket_covers(replay(ops).issued[j], day)),
{
    lemma_replay_keeps_apart(ops);
    let log = replay(ops).issued;
    if i < j {
        if ticket_covers(log[i], day) {
            assert(!ticket_covers(log[j], day));
        }
    } else {
        if ticket_covers(log[j], day) {
            assert(!ticket_covers(log[i], day));
        }
    }
}

} // verus!
