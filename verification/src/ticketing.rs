//! The ticketing engine: which pairs of sightings make a ticket, which days a
//! ticket uses up, and where a ticket goes.
//!
//! A new sighting is held against every earlier sighting of the same plate on
//! the same road, in the order in which those arrived. A pair whose average
//! speed is over the limit makes a ticket unless a ticket already covers one
//! of the days that the pair spans. The ticket goes to the dispatcher that
//! registered first for the road, or waits in the store until one registers.
use crate::db::{
    first_dispatcher, plate_days, sightings_on, ticket_views, tickets_off, tickets_on, Camera, Db,
    DbView, Plate, SightingView, Ticket, TicketView,
};
use vstd::prelude::*;

verus! {

/// The length of a day in seconds.
pub const SECONDS_PER_DAY: u32 = 86400;

/// The highest speed that a ticket can carry, in hundredths of a mile per
/// hour.
pub const MAX_TICKET_SPEED: u64 = 65535;

/// A ticket on its way to a dispatcher's connection.
#[derive(Debug)]
pub struct Delivery {
    pub dispatcher: u64,
    pub ticket: Ticket,
}

/// A delivery as a mathematical value.
pub struct DeliveryView {
    pub dispatcher: u64,
    pub ticket: TicketView,
}

impl View for Delivery {
    type V = DeliveryView;

    open spec fn view(&self) -> DeliveryView {
        DeliveryView { dispatcher: self.dispatcher, ticket: self.ticket@ }
    }
}

/// The views of the deliveries, in order.
pub open spec fn delivery_views(v: Seq<Delivery>) -> Seq<DeliveryView> {
    v.map_values(|d: Delivery| d@)
}

/// The store and what has been handed to dispatchers so far.
pub struct Outcome {
    pub db: DbView,
    pub sent: Seq<DeliveryView>,
}

/// The day on which a timestamp falls.
pub open spec fn day_of(timestamp: u32) -> u32 {
    (timestamp / SECONDS_PER_DAY) as u32
}

/// The average speed between two sightings, in hundredths of a mile per
/// hour, rounded down. The first sighting is the earlier one.
pub open spec fn speed_hundredths(mile1: u16, timestamp1: u32, mile2: u16, timestamp2: u32) -> int
    recommends
        timestamp1 < timestamp2,
{
    let distance: int = if mile1 <= mile2 {
        mile2 - mile1
    } else {
        mile1 - mile2
    };
    distance * 360000 / (timestamp2 - timestamp1)
}

/// The ticket that two sightings of `plate` on `road` would make: the
/// earlier sighting first, and the speed cut off at what a ticket can carry.
pub open spec fn pair_ticket(
    plate: Seq<char>,
    road: u16,
    seen: (u16, u32),
    prior: (u16, u32),
) -> TicketView
    recommends
        seen.1 != prior.1,
{
    let first = if prior.1 < seen.1 {
        prior
    } else {
        seen
    };
    let second = if prior.1 < seen.1 {
        seen
    } else {
        prior
    };
    let speed = speed_hundredths(first.0, first.1, second.0, second.1);
    TicketView {
        plate,
        road,
        mile1: first.0,
        timestamp1: first.1,
        mile2: second.0,
        timestamp2: second.1,
        speed: if speed > MAX_TICKET_SPEED {
            MAX_TICKET_SPEED as u16
        } else {
            speed as u16
        },
    }
}

/// The ticket, if any, that the new sighting `seen` by `camera` makes with
/// the earlier sighting `prior`: none where the two were taken at the same
/// time, where the speed is within the limit, or where a ticket already
/// covers one of the days from the first sighting to the second.
pub open spec fn candidate(
    db: DbView,
    camera: Camera,
    plate: Seq<char>,
    timestamp: u32,
    prior: (u16, u32),
) -> Option<TicketView> {
    let t = pair_ticket(plate, camera.road, (camera.mile, timestamp), prior);
    if prior.1 != timestamp && speed_hundredths(t.mile1, t.timestamp1, t.mile2, t.timestamp2)
        > camera.limit * 100 && db.days_free(plate, day_of(t.timestamp1), day_of(t.timestamp2)) {
        Some(t)
    } else {
        None
    }
}

/// Issues ticket `t`: its days are used up, and it goes to the first
/// dispatcher of its road or, without one, to the parked tickets.
pub open spec fn emit(st: Outcome, t: TicketView) -> Outcome {
    let ticketed = st.db.ticketed.union(
        plate_days(t.plate, day_of(t.timestamp1), day_of(t.timestamp2)),
    );
    match first_dispatcher(st.db.dispatchers, t.road) {
        Some(id) => Outcome {
            db: DbView { ticketed, ..st.db },
            sent: st.sent.push(DeliveryView { dispatcher: id, ticket: t }),
        },
        None => Outcome {
            db: DbView { ticketed, pending: st.db.pending.push(t), ..st.db },
            sent: st.sent,
        },
    }
}

/// Holds the new sighting against one earlier sighting.
pub open spec fn consider(
    st: Outcome,
    camera: Camera,
    plate: Seq<char>,
    timestamp: u32,
    prior: (u16, u32),
) -> Outcome {
    match candidate(st.db, camera, plate, timestamp, prior) {
        Some(t) => emit(st, t),
        None => st,
    }
}

/// Holds the new sighting against the earlier sightings, first to last.
pub open spec fn consider_all(
    st: Outcome,
    camera: Camera,
    plate: Seq<char>,
    timestamp: u32,
    priors: Seq<(u16, u32)>,
) -> Outcome
    decreases priors.len(),
{
    if priors.len() == 0 {
        st
    } else {
        consider(
            consider_all(st, camera, plate, timestamp, priors.drop_last()),
            camera,
            plate,
            timestamp,
            priors.last(),
        )
    }
}

/// What a plate report from connection `camera_id` does: nothing where the
/// connection has no camera. Otherwise the sighting is held against the
/// earlier ones of that plate on the camera's road, unless the plate is the
/// empty string, and is then recorded.
pub open spec fn issue(db: DbView, camera_id: u64, plate: Seq<char>, timestamp: u32) -> Option<
    Outcome,
> {
    if !db.cameras.contains_key(camera_id) {
        None
    } else {
        let camera = db.cameras[camera_id];
        let start = Outcome { db, sent: Seq::empty() };
        let st = if plate.len() == 0 {
            start
        } else {
            consider_all(
                start,
                camera,
                plate,
                timestamp,
                sightings_on(db.sightings, plate, camera.road),
            )
        };
        Some(
            Outcome {
                db: DbView {
                    sightings: st.db.sightings.push(
                        SightingView { plate, road: camera.road, mile: camera.mile, timestamp },
                    ),
                    ..st.db
                },
                sent: st.sent,
            },
        )
    }
}

/// Holds the new sighting against one earlier sighting, and issues the
/// ticket if the pair makes one.
fn consider_pair(
    db: &mut Db,
    sent: &mut Vec<Delivery>,
    camera: Camera,
    plate: &String,
    timestamp: u32,
    prior: (u16, u32),
)
    ensures
        (Outcome { db: final(db)@, sent: delivery_views(final(sent)@) }) == consider(
            Outcome { db: old(db)@, sent: delivery_views(old(sent)@) },
            camera,
            plate@,
            timestamp,
            prior,
        ),
{
    if prior.1 == timestamp {
        return ;
    }
    let first: (u16, u32) = if prior.1 < timestamp {
        prior
    } else {
        (camera.mile, timestamp)
    };
    let second: (u16, u32) = if prior.1 < timestamp {
        (camera.mile, timestamp)
    } else {
        prior
    };
    let distance: u64 = if first.0 <= second.0 {
        (second.0 - first.0) as u64
    } else {
        (first.0 - second.0) as u64
    };
    let time: u64 = (second.1 - first.1) as u64;
    let speed: u64 = distance * 360000 / time;
    if speed > (camera.limit as u64) * 100 {
        let first_day: u32 = first.1 / SECONDS_PER_DAY;
        let last_day: u32 = second.1 / SECONDS_PER_DAY;
        if db.days_free(plate, first_day, last_day) {
            let ticket = Ticket {
                plate: plate.clone(),
                road: camera.road,
                mile1: first.0,
                timestamp1: first.1,
                mile2: second.0,
                timestamp2: second.1,
                speed: if speed > MAX_TICKET_SPEED {
                    MAX_TICKET_SPEED as u16
                } else {
                    speed as u16
                },
            };
            db.mark_days(plate.clone(), first_day, last_day);
            match db.get_dispatcher_for_road(camera.road) {
                Some(id) => {
                    let ghost d = DeliveryView { dispatcher: id, ticket: ticket@ };
                    sent.push(Delivery { dispatcher: id, ticket });
                    assert(delivery_views(sent@) =~= delivery_views(old(sent)@).push(d));
                },
                None => {
                    db.add_open_ticket(ticket);
                },
            }
        }
    }
}

/// Takes a plate report from the camera of connection `camera_id`: issues
/// the tickets that the new sighting makes with earlier ones, then records
/// the sighting. Hands back the tickets that go to a dispatcher now, each with
/// the dispatcher's connection; tickets for a road without a dispatcher are
/// parked in the store. Without a camera on the connection nothing happens
/// and nothing is handed back.
pub fn issue_possible_ticket(db: &mut Db, plate: Plate, camera_id: u64) -> (sent: Option<
    Vec<Delivery>,
>)
    ensures
        match issue(old(db)@, camera_id, plate.plate@, plate.timestamp) {
            Some(out) => sent matches Some(v) && delivery_views(v@) == out.sent && final(db)@
                == out.db,
            None => sent is None && final(db)@ == old(db)@,
        },
{
    let camera = match db.get_camera(camera_id) {
        Some(camera) => camera,
        None => {
            return None;
        },
    };
    let mut sent: Vec<Delivery> = Vec::new();
    let ghost start = Outcome { db: db@, sent: Seq::empty() };
    assert(delivery_views(sent@) =~= Seq::empty());
    if !plate.plate.as_str().is_empty() {
        let priors = db.get_plates_by_road(&plate.plate, camera.road);
        let mut i: usize = 0;
        while i < priors.len()
            invariant
                i <= priors.len(),
                (Outcome { db: db@, sent: delivery_views(sent@) }) == consider_all(
                    start,
                    camera,
                    plate.plate@,
                    plate.timestamp,
                    priors@.take(i as int),
                ),
            decreases priors.len() - i,
        {
            assert(priors@.take(i + 1).drop_last() =~= priors@.take(i as int));
            consider_pair(db, &mut sent, camera, &plate.plate, plate.timestamp, priors[i]);
            i = i + 1;
        }
        assert(priors@.take(i as int) =~= priors@);
        proof {
            lemma_consider_all_keeps(
                start,
                camera,
                plate.plate@,
                plate.timestamp,
                priors@,
            );
        }
    }
    let known = db.add_plate(camera_id, plate);
    Some(sent)
}

/// The tickets, each on its way to dispatcher `id`.
pub open spec fn deliveries_to(id: u64, tickets: Seq<TicketView>) -> Seq<DeliveryView> {
    tickets.map_values(|t: TicketView| DeliveryView { dispatcher: id, ticket: t })
}

/// Hands the parked tickets of each of `roads`, taken in order, to
/// dispatcher `id`. Within a road the tickets keep the order in which they
/// were parked.
pub open spec fn drain_roads(st: Outcome, id: u64, roads: Seq<u16>) -> Outcome
    decreases roads.len(),
{
    if roads.len() == 0 {
        st
    } else {
        let prev = drain_roads(st, id, roads.drop_last());
        Outcome {
            db: DbView { pending: tickets_off(prev.db.pending, roads.last()), ..prev.db },
            sent: prev.sent + deliveries_to(id, tickets_on(prev.db.pending, roads.last())),
        }
    }
}

/// Takes the parked tickets for the roads of a dispatcher that has just
/// registered out of the store, and hands them back for delivery to it, road
/// by road in the order of `roads`.
pub fn send_out_waiting_tickets(db: &mut Db, dispatcher_id: u64, roads: &Vec<u16>) -> (sent: Vec<
    Delivery,
>)
    ensures
        (Outcome { db: final(db)@, sent: delivery_views(sent@) }) == drain_roads(
            Outcome { db: old(db)@, sent: Seq::empty() },
            dispatcher_id,
            roads@,
        ),
{
    let ghost start = Outcome { db: db@, sent: Seq::empty() };
    let mut sent: Vec<Delivery> = Vec::new();
    assert(delivery_views(sent@) =~= Seq::empty());
    let mut i: usize = 0;
    while i < roads.len()
        invariant
            i <= roads.len(),
            (Outcome { db: db@, sent: delivery_views(sent@) }) == drain_roads(
                start,
                dispatcher_id,
                roads@.take(i as int),
            ),
        decreases roads.len() - i,
    {
        assert(roads@.take(i + 1).drop_last() =~= roads@.take(i as int));
        let ghost before = delivery_views(sent@);
        let tickets = db.drain_tickets_for_road(roads[i]);
        let ghost drained = ticket_views(tickets@);
        let mut k: usize = 0;
        while k < tickets.len()
            invariant
                k <= tickets.len(),
                drained == ticket_views(tickets@),
                delivery_views(sent@) == before + deliveries_to(
                    dispatcher_id,
                    drained.take(k as int),
                ),
            decreases tickets.len() - k,
        {
            let ticket = tickets[k].clone();
            let ghost d = DeliveryView { dispatcher: dispatcher_id, ticket: ticket@ };
            let ghost sent_before = delivery_views(sent@);
            sent.push(Delivery { dispatcher: dispatcher_id, ticket });
            assert(delivery_views(sent@) =~= sent_before.push(d));
            assert(drained.take(k + 1) =~= drained.take(k as int).push(drained[k as int]));
            assert(deliveries_to(dispatcher_id, drained.take(k + 1)) =~= deliveries_to(
                dispatcher_id,
                drained.take(k as int),
            ).push(d));
            assert(delivery_views(sent@) =~= before + deliveries_to(
                dispatcher_id,
                drained.take(k + 1),
            ));
            k = k + 1;
        }
        assert(drained.take(k as int) =~= drained);
        i = i + 1;
    }
    assert(roads@.take(i as int) =~= roads@);
    sent
}

/// Issuing tickets changes neither the cameras, the dispatchers nor the
/// sightings.
pub proof fn lemma_consider_all_keeps(
    st: Outcome,
    camera: Camera,
    plate: Seq<char>,
    timestamp: u32,
    priors: Seq<(u16, u32)>,
)
    ensures
        consider_all(st, camera, plate, timestamp, priors).db.cameras == st.db.cameras,
        consider_all(st, camera, plate, timestamp, priors).db.dispatchers == st.db.dispatchers,
        consider_all(st, camera, plate, timestamp, priors).db.sightings == st.db.sightings,
    decreases priors.len(),
{
    if priors.len() > 0 {
        lemma_consider_all_keeps(st, camera, plate, timestamp, priors.drop_last());
    }
}

} // verus!
