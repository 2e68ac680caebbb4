//! The world store: the cameras and dispatchers that have registered, the
//! sightings of plates, the days for which a plate already has a ticket, and
//! the tickets that wait for a dispatcher.
//!
//! The store holds plain values only. A connection is named by a number that
//! its owner picks; what is sent to a connection is for the owner to deliver.
use crate::frame::{ServerFrameView, ServerFrames};
use std::collections::HashMap;
use vstd::prelude::*;

verus! {

broadcast use vstd::std_specs::hash::group_hash_axioms;

/// A roadside camera: where it stands and the speed limit there, in miles per
/// hour.
#[derive(Clone, Copy, Debug, PartialEq, Eq, Structural)]
pub struct Camera {
    pub road: u16,
    pub mile: u16,
    pub limit: u16,
}

/// A plate as a camera reports it.
#[derive(Debug)]
pub struct Plate {
    pub plate: String,
    pub timestamp: u32,
}

/// A speeding ticket. The speed is in hundredths of a mile per hour.
#[derive(Debug)]
pub struct Ticket {
    pub plate: String,
    pub road: u16,
    pub mile1: u16,
    pub timestamp1: u32,
    pub mile2: u16,
    pub timestamp2: u32,
    pub speed: u16,
}

/// A ticket as a mathematical value.
pub struct TicketView {
    pub plate: Seq<char>,
    pub road: u16,
    pub mile1: u16,
    pub timestamp1: u32,
    pub mile2: u16,
    pub timestamp2: u32,
    pub speed: u16,
}

impl View for Ticket {
    type V = TicketView;

    open spec fn view(&self) -> TicketView {
        TicketView {
            plate: self.plate@,
            road: self.road,
            mile1: self.mile1,
            timestamp1: self.timestamp1,
            mile2: self.mile2,
            timestamp2: self.timestamp2,
            speed: self.speed,
        }
    }
}

impl Clone for Ticket {
    fn clone(&self) -> (t: Self)
        ensures
            t@ == self@,
    {
        Ticket {
            plate: self.plate.clone(),
            road: self.road,
            mile1: self.mile1,
            timestamp1: self.timestamp1,
            mile2: self.mile2,
            timestamp2: self.timestamp2,
            speed: self.speed,
        }
    }
}

impl TicketView {
    /// The frame that carries the ticket.
    pub open spec fn frame(self) -> ServerFrameView {
        ServerFrameView::Ticket {
            plate: self.plate,
            road: self.road,
            mile1: self.mile1,
            timestamp1: self.timestamp1,
            mile2: self.mile2,
            timestamp2: self.timestamp2,
            speed: self.speed,
        }
    }
}

impl From<Ticket> for ServerFrames {
    /// The frame that carries the ticket.
    fn from(ticket: Ticket) -> (frame: ServerFrames) {
        ServerFrames::Ticket {
            plate: ticket.plate,
            road: ticket.road,
            mile1: ticket.mile1,
            timestamp1: ticket.timestamp1,
            mile2: ticket.mile2,
            timestamp2: ticket.timestamp2,
            speed: ticket.speed,
        }
    }
}

impl vstd::std_specs::convert::FromSpecImpl<Ticket> for ServerFrames {
    open spec fn obeys_from_spec() -> bool {
        true
    }

    open spec fn from_spec(ticket: Ticket) -> ServerFrames {
        ServerFrames::Ticket {
            plate: ticket.plate,
            road: ticket.road,
            mile1: ticket.mile1,
            timestamp1: ticket.timestamp1,
            mile2: ticket.mile2,
            timestamp2: ticket.timestamp2,
            speed: ticket.speed,
        }
    }
}

/// The frame made from a ticket carries the ticket, field by field.
pub proof fn lemma_ticket_frame(ticket: Ticket)
    ensures
        <ServerFrames as vstd::std_specs::convert::FromSpec<Ticket>>::from_spec(ticket)@
            == ticket@.frame(),
{
}

/// One observation of a plate on a road.
pub struct Sighting {
    pub plate: String,
    pub road: u16,
    pub mile: u16,
    pub timestamp: u32,
}

/// A sighting as a mathematical value.
pub struct SightingView {
    pub plate: Seq<char>,
    pub road: u16,
    pub mile: u16,
    pub timestamp: u32,
}

impl View for Sighting {
    type V = SightingView;

    open spec fn view(&self) -> SightingView {
        SightingView {
            plate: self.plate@,
            road: self.road,
            mile: self.mile,
            timestamp: self.timestamp,
        }
    }
}

/// A registered dispatcher: the connection and the roads it answers for.
pub struct Dispatcher {
    pub id: u64,
    pub roads: Vec<u16>,
}

/// A dispatcher as a mathematical value.
pub struct DispatcherView {
    pub id: u64,
    pub roads: Seq<u16>,
}

impl View for Dispatcher {
    type V = DispatcherView;

    open spec fn view(&self) -> DispatcherView {
        DispatcherView { id: self.id, roads: self.roads@ }
    }
}

/// A run of days, both ends included, for which a plate has a ticket.
pub struct DayRange {
    pub plate: String,
    pub first: u32,
    pub last: u32,
}

/// A run of days as a mathematical value.
pub struct DayRangeView {
    pub plate: Seq<char>,
    pub first: u32,
    pub last: u32,
}

impl View for DayRange {
    type V = DayRangeView;

    open spec fn view(&self) -> DayRangeView {
        DayRangeView { plate: self.plate@, first: self.first, last: self.last }
    }
}

/// The first dispatcher, in order of registration, that answers for `road`.
pub open spec fn first_dispatcher(ds: Seq<DispatcherView>, road: u16) -> Option<u64>
    decreases ds.len(),
{
    if ds.len() == 0 {
        None
    } else {
        match first_dispatcher(ds.drop_last(), road) {
            Some(id) => Some(id),
            None => if ds.last().roads.contains(road) {
                Some(ds.last().id)
            } else {
                None
            },
        }
    }
}

/// Where and when `plate` was seen on `road`, in the order of arrival.
pub open spec fn sightings_on(s: Seq<SightingView>, plate: Seq<char>, road: u16) -> Seq<
    (u16, u32),
>
    decreases s.len(),
{
    if s.len() == 0 {
        Seq::empty()
    } else {
        let before = sightings_on(s.drop_last(), plate, road);
        if s.last().plate == plate && s.last().road == road {
            before.push((s.last().mile, s.last().timestamp))
        } else {
            before
        }
    }
}

/// The tickets of `p` for `road`, in order.
pub open spec fn tickets_on(p: Seq<TicketView>, road: u16) -> Seq<TicketView>
    decreases p.len(),
{
    if p.len() == 0 {
        Seq::empty()
    } else {
        let before = tickets_on(p.drop_last(), road);
        if p.last().road == road {
            before.push(p.last())
        } else {
            before
        }
    }
}

/// The tickets of `p` for other roads than `road`, in order.
pub open spec fn tickets_off(p: Seq<TicketView>, road: u16) -> Seq<TicketView>
    decreases p.len(),
{
    if p.len() == 0 {
        Seq::empty()
    } else {
        let before = tickets_off(p.drop_last(), road);
        if p.last().road != road {
            before.push(p.last())
        } else {
            before
        }
    }
}

/// The days `first..=last` of one plate, as pairs of day and plate.
pub open spec fn plate_days(plate: Seq<char>, first: u32, last: u32) -> Set<(u32, Seq<char>)> {
    Set::new(|p: (u32, Seq<char>)| p.1 == plate && first <= p.0 <= last)
}

impl DayRangeView {
    /// Whether the run holds `day` for `plate`.
    pub open spec fn covers(self, day: u32, plate: Seq<char>) -> bool {
        self.plate == plate && self.first <= day <= self.last
    }
}

/// All the pairs of day and plate that the runs cover.
pub open spec fn covered(ranges: Seq<DayRangeView>) -> Set<(u32, Seq<char>)> {
    Set::new(
        |p: (u32, Seq<char>)|
            exists|i: int| 0 <= i < ranges.len() && #[trigger] ranges[i].covers(p.0, p.1),
    )
}

/// The views of the tickets, in order.
pub open spec fn ticket_views(v: Seq<Ticket>) -> Seq<TicketView> {
    v.map_values(|t: Ticket| t@)
}

/// A dispatcher found among the first `n` is the one found among all.
pub proof fn lemma_first_dispatcher_prefix(ds: Seq<DispatcherView>, n: int, road: u16)
    requires
        0 <= n <= ds.len(),
        first_dispatcher(ds.take(n), road) is Some,
    ensures
        first_dispatcher(ds, road) == first_dispatcher(ds.take(n), road),
    decreases ds.len(),
{
    if n == ds.len() {
        assert(ds.take(n) =~= ds);
    } else {
        assert(ds.drop_last().take(n) =~= ds.take(n));
        lemma_first_dispatcher_prefix(ds.drop_last(), n, road);
    }
}

/// The store as a mathematical value.
pub struct DbView {
    /// The camera of each connection that registered as one.
    pub cameras: Map<u64, Camera>,
    /// The dispatchers in order of registration.
    pub dispatchers: Seq<DispatcherView>,
    /// The sightings in order of arrival.
    pub sightings: Seq<SightingView>,
    /// The pairs of day and plate that a ticket already covers.
    pub ticketed: Set<(u32, Seq<char>)>,
    /// The tickets that wait for a dispatcher, in the order they were parked.
    pub pending: Seq<TicketView>,
}

impl DbView {
    /// The store in which nothing has happened yet.
    pub open spec fn empty() -> DbView {
        DbView {
            cameras: Map::empty(),
            dispatchers: Seq::empty(),
            sightings: Seq::empty(),
            ticketed: Set::empty(),
            pending: Seq::empty(),
        }
    }

    /// No day of `first..=last` is covered for `plate`.
    pub open spec fn days_free(self, plate: Seq<char>, first: u32, last: u32) -> bool {
        forall|d: u32| first <= d <= last ==> !self.ticketed.contains((d, plate))
    }
}

/// The store.
pub struct Db {
    cameras: HashMap<u64, Camera>,
    dispatchers: Vec<Dispatcher>,
    sightings: Vec<Sighting>,
    ticketed: Vec<DayRange>,
    pending: Vec<Ticket>,
}

impl View for Db {
    type V = DbView;

    closed spec fn view(&self) -> DbView {
        DbView {
            cameras: self.cameras@,
            dispatchers: self.dispatchers@.map_values(|d: Dispatcher| d@),
            sightings: self.sightings@.map_values(|s: Sighting| s@),
            ticketed: covered(self.ticketed@.map_values(|r: DayRange| r@)),
            pending: self.pending@.map_values(|t: Ticket| t@),
        }
    }
}

impl Db {
    /// A store in which nothing has happened yet.
    pub fn new() -> (db: Db)
        ensures
            db@ == DbView::empty(),
    {
        let db = Db {
            cameras: HashMap::new(),
            dispatchers: Vec::new(),
            sightings: Vec::new(),
            ticketed: Vec::new(),
            pending: Vec::new(),
        };
        assert(db@.dispatchers =~= Seq::empty());
        assert(db@.sightings =~= Seq::empty());
        assert(db@.pending =~= Seq::empty());
        assert(db@.ticketed =~= Set::empty());
        db
    }

    /// The camera that the connection registered as, if it did.
    pub fn get_camera(&self, camera_id: u64) -> (camera: Option<Camera>)
        ensures
            camera == if self@.cameras.contains_key(camera_id) {
                Some(self@.cameras[camera_id])
            } else {
                None
            },
    {
        match self.cameras.get(&camera_id) {
            Some(c) => Some(*c),
            None => None,
        }
    }

    /// Registers the connection as a camera.
    pub fn add_camera(&mut self, camera_id: u64, camera: Camera)
        ensures
            final(self)@ == (DbView {
                cameras: old(self)@.cameras.insert(camera_id, camera),
                ..old(self)@
            }),
    {
        self.cameras.insert(camera_id, camera);
    }

    /// Registers the connection as a dispatcher for `roads`, behind those
    /// that registered before.
    pub fn add_dispatcher(&mut self, dispatcher_id: u64, roads: Vec<u16>)
        ensures
            final(self)@ == (DbView {
                dispatchers: old(self)@.dispatchers.push(
                    DispatcherView { id: dispatcher_id, roads: roads@ },
                ),
                ..old(self)@
            }),
    {
        let ghost added = DispatcherView { id: dispatcher_id, roads: roads@ };
        self.dispatchers.push(Dispatcher { id: dispatcher_id, roads });
        assert(self@.dispatchers =~= old(self)@.dispatchers.push(added));
    }

    /// The dispatcher that registered first for `road`, if any did.
    pub fn get_dispatcher_for_road(&self, road: u16) -> (dispatcher: Option<u64>)
        ensures
            dispatcher == first_dispatcher(self@.dispatchers, road),
    {
        let ghost ds = self@.dispatchers;
        let mut i: usize = 0;
        while i < self.dispatchers.len()
            invariant
                i <= self.dispatchers.len(),
                ds == self@.dispatchers,
                ds.len() == self.dispatchers.len(),
                first_dispatcher(ds.take(i as int), road) is None,
            decreases self.dispatchers.len() - i,
        {
            assert(ds.take(i + 1).drop_last() =~= ds.take(i as int));
            assert(ds.take(i + 1).last() == self.dispatchers[i as int]@);
            let found = roads_contain(&self.dispatchers[i].roads, road);
            if found {
                proof {
                    lemma_first_dispatcher_prefix(ds, i + 1, road);
                }
                return Some(self.dispatchers[i].id);
            }
            i = i + 1;
        }
        assert(ds.take(i as int) =~= ds);
        None
    }

    /// Parks a ticket until a dispatcher for its road registers.
    pub fn add_open_ticket(&mut self, ticket: Ticket)
        ensures
            final(self)@ == (DbView {
                pending: old(self)@.pending.push(ticket@),
                ..old(self)@
            }),
    {
        self.pending.push(ticket);
        assert(self@.pending =~= old(self)@.pending.push(ticket@));
    }

    /// The parked tickets, in the order they were parked.
    pub fn get_open_tickets(&self) -> (tickets: Vec<Ticket>)
        ensures
            ticket_views(tickets@) == self@.pending,
    {
        let mut out: Vec<Ticket> = Vec::new();
        let mut i: usize = 0;
        while i < self.pending.len()
            invariant
                i <= self.pending.len(),
                ticket_views(out@) == self@.pending.take(i as int),
            decreases self.pending.len() - i,
        {
            let t = self.pending[i].clone();
            out.push(t);
            assert(self@.pending.take(i + 1) =~= self@.pending.take(i as int).push(
                self.pending[i as int]@,
            ));
            assert(ticket_views(out@) =~= self@.pending.take(i + 1));
            i = i + 1;
        }
        assert(self@.pending.take(i as int) =~= self@.pending);
        out
    }

    /// Takes the parked tickets for `road` out of the store and hands them
    /// over in the order they were parked. The others stay as they were.
    pub fn drain_tickets_for_road(&mut self, road: u16) -> (tickets: Vec<Ticket>)
        ensures
            ticket_views(tickets@) == tickets_on(old(self)@.pending, road),
            final(self)@ == (DbView {
                pending: tickets_off(old(self)@.pending, road),
                ..old(self)@
            }),
    {
        let ghost all = self@.pending;
        let mut taken: Vec<Ticket> = Vec::new();
        let mut kept: Vec<Ticket> = Vec::new();
        let mut i: usize = 0;
        while i < self.pending.len()
            invariant
                i <= self.pending.len(),
                *self == *old(self),
                all == self@.pending,
                ticket_views(taken@) == tickets_on(all.take(i as int), road),
                ticket_views(kept@) == tickets_off(all.take(i as int), road),
            decreases self.pending.len() - i,
        {
            assert(all.take(i + 1).drop_last() =~= all.take(i as int));
            assert(all.take(i + 1).last() == self.pending[i as int]@);
            let t = self.pending[i].clone();
            if t.road == road {
                taken.push(t);
                assert(ticket_views(taken@) =~= tickets_on(all.take(i + 1), road));
            } else {
                kept.push(t);
                assert(ticket_views(kept@) =~= tickets_off(all.take(i + 1), road));
            }
            i = i + 1;
        }
        assert(all.take(i as int) =~= all);
        self.pending = kept;
        taken
    }

    /// Where and when `plate` was seen on `road`, in the order of arrival.
    pub fn get_plates_by_road(&self, plate: &String, road: u16) -> (seen: Vec<(u16, u32)>)
        ensures
            seen@ == sightings_on(self@.sightings, plate@, road),
    {
        let ghost all = self@.sightings;
        let mut seen: Vec<(u16, u32)> = Vec::new();
        let mut i: usize = 0;
        while i < self.sightings.len()
            invariant
                i <= self.sightings.len(),
                all == self@.sightings,
                seen@ == sightings_on(all.take(i as int), plate@, road),
            decreases self.sightings.len() - i,
        {
            assert(all.take(i + 1).drop_last() =~= all.take(i as int));
            assert(all.take(i + 1).last() == self.sightings[i as int]@);
            let s = &self.sightings[i];
            if s.road == road && s.plate == *plate {
                seen.push((s.mile, s.timestamp));
            }
            i = i + 1;
        }
        assert(all.take(i as int) =~= all);
        seen
    }

    /// Records that the camera of connection `camera_id` saw `plate`. Tells
    /// whether the connection has a camera; without one nothing is recorded.
    pub fn add_plate(&mut self, camera_id: u64, plate: Plate) -> (known: bool)
        ensures
            known == old(self)@.cameras.contains_key(camera_id),
            known ==> final(self)@ == (DbView {
                sightings: old(self)@.sightings.push(
                    SightingView {
                        plate: plate.plate@,
                        road: old(self)@.cameras[camera_id].road,
                        mile: old(self)@.cameras[camera_id].mile,
                        timestamp: plate.timestamp,
                    },
                ),
                ..old(self)@
            }),
            !known ==> final(self)@ == old(self)@,
    {
        match self.get_camera(camera_id) {
            Some(camera) => {
                let ghost added = SightingView {
                    plate: plate.plate@,
                    road: camera.road,
                    mile: camera.mile,
                    timestamp: plate.timestamp,
                };
                self.sightings.push(
                    Sighting {
                        plate: plate.plate,
                        road: camera.road,
                        mile: camera.mile,
                        timestamp: plate.timestamp,
                    },
                );
                assert(self@.sightings =~= old(self)@.sightings.push(added));
                true
            },
            None => false,
        }
    }

    /// Whether a ticket already covers `day` for `plate`.
    pub fn is_plate_ticketed_for_day(&self, day: u32, plate: &String) -> (ticketed: bool)
        ensures
            ticketed == self@.ticketed.contains((day, plate@)),
    {
        let ghost ranges = self.ticketed@.map_values(|r: DayRange| r@);
        let mut i: usize = 0;
        while i < self.ticketed.len()
            invariant
                i <= self.ticketed.len(),
                ranges == self.ticketed@.map_values(|r: DayRange| r@),
                forall|j: int| 0 <= j < i ==> !(#[trigger] ranges[j].covers(day, plate@)),
            decreases self.ticketed.len() - i,
        {
            let r = &self.ticketed[i];
            if r.first <= day && day <= r.last && r.plate == *plate {
                let ghost p = (day, plate@);
                assert(ranges[i as int].covers(p.0, p.1));
                assert(covered(ranges).contains(p));
                return true;
            }
            i = i + 1;
        }
        false
    }

    /// Whether no ticket covers any day of `first..=last` for `plate`.
    pub fn days_free(&self, plate: &String, first: u32, last: u32) -> (free: bool)
        ensures
            free == self@.days_free(plate@, first, last),
    {
        if first > last {
            return true;
        }
        let ghost ranges = self.ticketed@.map_values(|r: DayRange| r@);
        let mut i: usize = 0;
        while i < self.ticketed.len()
            invariant
                first <= last,
                i <= self.ticketed.len(),
                ranges == self.ticketed@.map_values(|r: DayRange| r@),
                forall|j: int, d: u32|
                    0 <= j < i && first <= d <= last ==> !(#[trigger] ranges[j].covers(d, plate@)),
            decreases self.ticketed.len() - i,
        {
            let r = &self.ticketed[i];
            if r.first <= last && first <= r.last && r.first <= r.last && r.plate == *plate {
                let ghost d: u32 = if first >= r.first {
                    first
                } else {
                    r.first
                };
                let ghost p = (d, plate@);
                assert(ranges[i as int].covers(p.0, p.1));
                assert(covered(ranges).contains(p));
                assert(first <= d <= last && self@.ticketed.contains((d, plate@)));
                return false;
            }
            i = i + 1;
        }
        true
    }

    /// Records that a ticket covers every day of `first..=last` for `plate`.
    pub fn mark_days(&mut self, plate: String, first: u32, last: u32)
        ensures
            final(self)@ == (DbView {
                ticketed: old(self)@.ticketed.union(plate_days(plate@, first, last)),
                ..old(self)@
            }),
    {
        let ghost before = self.ticketed@.map_values(|r: DayRange| r@);
        let ghost added = DayRangeView { plate: plate@, first, last };
        self.ticketed.push(DayRange { plate, first, last });
        let ghost after = self.ticketed@.map_values(|r: DayRange| r@);
        assert(after =~= before.push(added));
        assert forall|p: (u32, Seq<char>)|
            covered(after).contains(p) <==> covered(before).union(
                plate_days(added.plate, first, last),
            ).contains(p) by {
            if covered(after).contains(p) {
                let i = choose|i: int| 0 <= i < after.len() && #[trigger] after[i].covers(p.0, p.1);
                if i < before.len() {
                    assert(before[i].covers(p.0, p.1));
                }
            }
            if covered(before).contains(p) {
                let i = choose|i: int|
                    0 <= i < before.len() && #[trigger] before[i].covers(p.0, p.1);
                assert(after[i].covers(p.0, p.1));
            }
            if plate_days(added.plate, first, last).contains(p) {
                assert(after[before.len() as int].covers(p.0, p.1));
            }
        }
        assert(self@.ticketed =~= old(self)@.ticketed.union(plate_days(added.plate, first, last)));
    }

    /// Records that a ticket covers `day` for `plate`.
    pub fn ticket_plate(&mut self, day: u32, plate: String)
        ensures
            final(self)@ == (DbView {
                ticketed: old(self)@.ticketed.insert((day, plate@)),
                ..old(self)@
            }),
    {
        let ghost name = plate@;
        self.mark_days(plate, day, day);
        assert(self@.ticketed =~= old(self)@.ticketed.insert((day, name)));
    }

    /// Records that a ticket covers `day` for `plate`, and tells whether none
    /// did before.
    pub fn try_mark_ticketed(&mut self, day: u32, plate: String) -> (fresh: bool)
        ensures
            fresh == !old(self)@.ticketed.contains((day, plate@)),
            final(self)@ == (DbView {
                ticketed: old(self)@.ticketed.insert((day, plate@)),
                ..old(self)@
            }),
    {
        if self.is_plate_ticketed_for_day(day, &plate) {
            assert(self@.ticketed =~= self@.ticketed.insert((day, plate@)));
            false
        } else {
            self.ticket_plate(day, plate);
            true
        }
    }
}

/// Whether `road` is among `roads`.
fn roads_contain(roads: &Vec<u16>, road: u16) -> (found: bool)
    ensures
        found == roads@.contains(road),
{
    let mut i: usize = 0;
    while i < roads.len()
        invariant
            i <= roads.len(),
            forall|j: int| 0 <= j < i ==> roads@[j] != road,
        decreases roads.len() - i,
    {
        if roads[i] == road {
            return true;
        }
        i = i + 1;
    }
    false
}

} // verus!
