//! Where tickets go: every ticket that is handed out goes to the dispatcher
//! that registered first for its road, and a ticket waits only while its road
//! has no dispatcher.
use crate::db::{
    first_dispatcher, sightings_on, tickets_off, tickets_on, DbView, DispatcherView, TicketView,
};
use crate::ledger::{
    apply, issued, lemma_issue_routes, lemma_issued_well, register, replay, Op, World,
};
use crate::ticketing::{
    deliveries_to, drain_roads, issue, lemma_consider_all_keeps, DeliveryView, Outcome,
};
use vstd::seq_lib::{lemma_multiset_commutative, to_multiset_build};
use vstd::prelude::*;

verus! {

broadcast use vstd::multiset::group_multiset_axioms;

/// No parked ticket is for a road that has a dispatcher.
pub open spec fn settled(db: DbView) -> bool {
    forall|k: int|
        0 <= k < db.pending.len() ==> first_dispatcher(
            db.dispatchers,
            (#[trigger] db.pending[k]).road,
        ) is None
}

/// A sequence with one more element holds what it held before, and that
/// element.
proof fn lemma_push_contains<A>(s: Seq<A>, x: A, y: A)
    ensures
        s.push(x).contains(y) <==> s.contains(y) || y == x,
{
    if s.push(x).contains(y) {
        let i = choose|i: int| 0 <= i < s.push(x).len() && s.push(x)[i] == y;
        if i < s.len() {
            assert(s[i] == y);
        }
    }
    if s.contains(y) {
        let i = choose|i: int| 0 <= i < s.len() && s[i] == y;
        assert(s.push(x)[i] == y);
    }
    if y == x {
        assert(s.push(x)[s.len() as int] == y);
    }
}

/// The tickets for a road and the tickets for the other roads are the
/// tickets, parted by road.
pub proof fn lemma_tickets_parted(p: Seq<TicketView>, road: u16, t: TicketView)
    ensures
        tickets_on(p, road).contains(t) <==> p.contains(t) && t.road == road,
        tickets_off(p, road).contains(t) <==> p.contains(t) && t.road != road,
    decreases p.len(),
{
    if p.len() == 0 {
        assert(!p.contains(t));
        assert(!tickets_on(p, road).contains(t));
        assert(!tickets_off(p, road).contains(t));
    } else {
        lemma_tickets_parted(p.drop_last(), road, t);
        assert(p =~= p.drop_last().push(p.last()));
        lemma_push_contains(p.drop_last(), p.last(), t);
        lemma_push_contains(tickets_on(p.drop_last(), road), p.last(), t);
        lemma_push_contains(tickets_off(p.drop_last(), road), p.last(), t);
    }
}

/// The first dispatcher of a road after one more dispatcher registered: the
/// one from before, or else the new one if it answers for the road.
pub proof fn lemma_first_dispatcher_push(ds: Seq<DispatcherView>, d: DispatcherView, road: u16)
    ensures
        first_dispatcher(ds.push(d), road) == match first_dispatcher(ds, road) {
            Some(id) => Some(id),
            None => if d.roads.contains(road) {
                Some(d.id)
            } else {
                None
            },
        },
{
    assert(ds.push(d).drop_last() =~= ds);
}

/// The first dispatcher of a road is a dispatcher that registered for the
/// road.
pub proof fn lemma_first_dispatcher_registered(ds: Seq<DispatcherView>, road: u16)
    requires
        first_dispatcher(ds, road) is Some,
    ensures
        exists|k: int|
            0 <= k < ds.len() && (#[trigger] ds[k]).id == first_dispatcher(ds, road)->0
                && ds[k].roads.contains(road),
    decreases ds.len(),
{
    if first_dispatcher(ds.drop_last(), road) is Some {
        lemma_first_dispatcher_registered(ds.drop_last(), road);
        let k = choose|k: int|
            0 <= k < ds.drop_last().len() && (#[trigger] ds.drop_last()[k]).id
                == first_dispatcher(ds.drop_last(), road)->0 && ds.drop_last()[k].roads.contains(
                road,
            );
        assert(ds[k] == ds.drop_last()[k]);
    } else {
        assert(ds[ds.len() - 1] == ds.last());
    }
}

/// What handing out the parked tickets of some roads does: only the parked
/// tickets change; those for the roads leave, in full, to the dispatcher; the
/// others stay.
pub proof fn lemma_drain_roads_parts(st: Outcome, id: u64, roads: Seq<u16>)
    ensures
        drain_roads(st, id, roads).db == (DbView {
            pending: drain_roads(st, id, roads).db.pending,
            ..st.db
        }),
        forall|t: TicketView| #[trigger]
            drain_roads(st, id, roads).db.pending.contains(t) <==> st.db.pending.contains(t)
                && !roads.contains(t.road),
        drain_roads(st, id, roads).sent.len() >= st.sent.len(),
        drain_roads(st, id, roads).sent.take(st.sent.len() as int) == st.sent,
        forall|k: int|
            st.sent.len() <= k < drain_roads(st, id, roads).sent.len() ==> {
                let d = #[trigger] drain_roads(st, id, roads).sent[k];
                &&& d.dispatcher == id
                &&& roads.contains(d.ticket.road)
                &&& st.db.pending.contains(d.ticket)
            },
    decreases roads.len(),
{
    let out = drain_roads(st, id, roads);
    if roads.len() == 0 {
        assert(out.sent.take(st.sent.len() as int) =~= st.sent);
        assert forall|t: TicketView| #[trigger]
            out.db.pending.contains(t) <==> st.db.pending.contains(t) && !roads.contains(
                t.road,
            ) by {
            assert(!roads.contains(t.road));
        }
    } else {
        let shorter = roads.drop_last();
        let road = roads.last();
        let prev = drain_roads(st, id, shorter);
        lemma_drain_roads_parts(st, id, shorter);
        let added = deliveries_to(id, tickets_on(prev.db.pending, road));
        assert(out.sent == prev.sent + added);
        assert(out.sent.take(st.sent.len() as int) =~= prev.sent.take(st.sent.len() as int));
        assert(roads =~= shorter.push(road));
        assert forall|t: TicketView| #[trigger]
            out.db.pending.contains(t) <==> st.db.pending.contains(t) && !roads.contains(
                t.road,
            ) by {
            lemma_tickets_parted(prev.db.pending, road, t);
            lemma_push_contains(shorter, road, t.road);
        }
        assert forall|k: int| st.sent.len() <= k < out.sent.len() implies {
            let d = #[trigger] out.sent[k];
            &&& d.dispatcher == id
            &&& roads.contains(d.ticket.road)
            &&& st.db.pending.contains(d.ticket)
        } by {
            let d = out.sent[k];
            if k < prev.sent.len() {
                assert(d == prev.sent[k]);
                lemma_push_contains(shorter, road, d.ticket.road);
            } else {
                let j = k - prev.sent.len();
                let t = tickets_on(prev.db.pending, road)[j];
                assert(d == added[j]);
                assert(d.ticket == t);
                assert(tickets_on(prev.db.pending, road).contains(t));
                lemma_tickets_parted(prev.db.pending, road, t);
                lemma_push_contains(shorter, road, road);
                assert(prev.db.pending.contains(t));
            }
        }
    }
}

/// A dispatcher that registers is handed the parked tickets of its roads and
/// no others, and is from then on the first dispatcher of each of those
/// tickets' roads, provided that no ticket waited for a road that had a
/// dispatcher. No such ticket waits afterwards either.
pub proof fn lemma_registration_settles(db: DbView, id: u64, roads: Seq<u16>)
    requires
        settled(db),
    ensures
        ({
            let registered = DbView {
                dispatchers: db.dispatchers.push(DispatcherView { id, roads }),
                ..db
            };
            let out = drain_roads(Outcome { db: registered, sent: Seq::empty() }, id, roads);
            &&& settled(out.db)
            &&& out.db.dispatchers == registered.dispatchers
            &&& forall|k: int|
                0 <= k < out.sent.len() ==> {
                    let d = #[trigger] out.sent[k];
                    &&& db.pending.contains(d.ticket)
                    &&& roads.contains(d.ticket.road)
                    &&& first_dispatcher(out.db.dispatchers, d.ticket.road) == Some(d.dispatcher)
                }
            &&& forall|t: TicketView|
                db.pending.contains(t) && roads.contains(t.road) ==> !#[trigger] out.db.pending.contains(
                    t,
                )
        }),
{
    let joined = DispatcherView { id, roads };
    let registered = DbView { dispatchers: db.dispatchers.push(joined), ..db };
    let start = Outcome { db: registered, sent: Seq::empty() };
    let out = drain_roads(start, id, roads);
    lemma_drain_roads_parts(start, id, roads);
    assert forall|k: int| 0 <= k < out.db.pending.len() implies first_dispatcher(
        out.db.dispatchers,
        (#[trigger] out.db.pending[k]).road,
    ) is None by {
        let t = out.db.pending[k];
        assert(out.db.pending.contains(t));
        assert(db.pending.contains(t) && !roads.contains(t.road));
        let j = choose|j: int| 0 <= j < db.pending.len() && db.pending[j] == t;
        assert(first_dispatcher(db.dispatchers, db.pending[j].road) is None);
        lemma_first_dispatcher_push(db.dispatchers, joined, t.road);
    }
    assert forall|k: int| 0 <= k < out.sent.len() implies {
        let d = #[trigger] out.sent[k];
        &&& db.pending.contains(d.ticket)
        &&& roads.contains(d.ticket.road)
        &&& first_dispatcher(out.db.dispatchers, d.ticket.road) == Some(d.dispatcher)
    } by {
        let d = out.sent[k];
        assert(db.pending.contains(d.ticket));
        let j = choose|j: int| 0 <= j < db.pending.len() && db.pending[j] == d.ticket;
        assert(first_dispatcher(db.dispatchers, db.pending[j].road) is None);
        lemma_first_dispatcher_push(db.dispatchers, joined, d.ticket.road);
    }
}

/// A plate report hands every ticket that it does not park to the first
/// dispatcher of the ticket's road, a dispatcher that registered for that
/// road; and it parks a ticket only where the road has no dispatcher.
pub proof fn lemma_report_settles(db: DbView, camera_id: u64, plate: Seq<char>, timestamp: u32)
    requires
        settled(db),
        db.cameras.contains_key(camera_id),
    ensures
        issue(db, camera_id, plate, timestamp) is Some,
        ({
            let out = issue(db, camera_id, plate, timestamp)->0;
            &&& settled(out.db)
            &&& out.db.dispatchers == db.dispatchers
            &&& forall|k: int|
                0 <= k < out.sent.len() ==> first_dispatcher(
                    db.dispatchers,
                    (#[trigger] out.sent[k]).ticket.road,
                ) == Some(out.sent[k].dispatcher)
        }),
{
    let out = issue(db, camera_id, plate, timestamp)->0;
    let log = issued(db, camera_id, plate, timestamp);
    let camera = db.cameras[camera_id];
    lemma_issue_routes(db, camera_id, plate, timestamp);
    if plate.len() > 0 {
        lemma_consider_all_keeps(
            Outcome { db, sent: Seq::empty() },
            camera,
            plate,
            timestamp,
            sightings_on(db.sightings, plate, camera.road),
        );
    }
    assert(out.db.dispatchers == db.dispatchers);
    assert forall|k: int| 0 <= k < log.len() implies (#[trigger] log[k]).road == camera.road by {
        lemma_issued_well(db, camera_id, plate, timestamp, k);
    }
    match first_dispatcher(db.dispatchers, camera.road) {
        Some(id) => {
            assert forall|k: int| 0 <= k < out.sent.len() implies first_dispatcher(
                db.dispatchers,
                (#[trigger] out.sent[k]).ticket.road,
            ) == Some(out.sent[k].dispatcher) by {
                assert(out.sent[k].ticket == log[k]);
            }
        },
        None => {
            assert forall|k: int| 0 <= k < out.db.pending.len() implies first_dispatcher(
                out.db.dispatchers,
                (#[trigger] out.db.pending[k]).road,
            ) is None by {
                if k < db.pending.len() {
                    assert(out.db.pending[k] == db.pending[k]);
                } else {
                    assert(out.db.pending[k] == log[k - db.pending.len()]);
                }
            }
        },
    }
}

/// Whatever happens to the store, no ticket comes to wait for a road that
/// has a dispatcher.
pub proof fn lemma_apply_keeps_settled(w: World, op: Op)
    requires
        settled(w.db),
    ensures
        settled(apply(w, op).db),
{
    match op {
        Op::AddCamera { id, camera } => {
            assert forall|k: int| 0 <= k < apply(w, op).db.pending.len() implies first_dispatcher(
                apply(w, op).db.dispatchers,
                (#[trigger] apply(w, op).db.pending[k]).road,
            ) is None by {
                assert(apply(w, op).db.pending[k] == w.db.pending[k]);
            }
        },
        Op::AddDispatcher { id, roads } => {
            lemma_registration_settles(w.db, id, roads);
        },
        Op::Plate { id, plate, timestamp } => {
            if w.db.cameras.contains_key(id) {
                lemma_report_settles(w.db, id, plate, timestamp);
            }
        },
    }
}

/// In every history a ticket waits only while its road has no dispatcher.
pub proof fn lemma_replay_settled(ops: Seq<Op>)
    ensures
        settled(replay(ops).db),
    decreases ops.len(),
{
    if ops.len() > 0 {
        lemma_replay_settled(ops.drop_last());
        lemma_apply_keeps_settled(replay(ops.drop_last()), ops.last());
    }
}

/// The tickets of the deliveries, in order.
pub open spec fn tickets_of(sent: Seq<DeliveryView>) -> Seq<TicketView> {
    sent.map_values(|d: DeliveryView| d.ticket)
}

/// Whether a dispatcher on connection `id` has registered for `road`.
pub open spec fn registered_for(ds: Seq<DispatcherView>, id: u64, road: u16) -> bool {
    exists|k: int| 0 <= k < ds.len() && (#[trigger] ds[k]).id == id && ds[k].roads.contains(road)
}

/// Every ticket issued is either parked or has been handed to a dispatcher,
/// and none is in both places or in one of them twice over.
pub open spec fn accounted(w: World) -> bool {
    w.issued.to_multiset() == w.db.pending.to_multiset().add(
        tickets_of(w.delivered).to_multiset(),
    )
}

/// Every ticket handed out went to a dispatcher that had registered for the
/// ticket's road.
pub open spec fn well_routed(w: World) -> bool {
    forall|k: int|
        0 <= k < w.delivered.len() ==> registered_for(
            w.db.dispatchers,
            (#[trigger] w.delivered[k]).dispatcher,
            w.delivered[k].ticket.road,
        )
}

/// No tickets make an empty multiset.
proof fn lemma_no_tickets()
    ensures
        Seq::<TicketView>::empty().to_multiset() =~= vstd::multiset::Multiset::<TicketView>::empty(),
        tickets_of(Seq::<DeliveryView>::empty()) =~= Seq::<TicketView>::empty(),
{
    let none = Seq::<TicketView>::empty();
    none.to_multiset_ensures();
    assert forall|t: TicketView| none.to_multiset().count(t) == 0 by {
        assert(!none.contains(t));
    }
}

/// Parting the parked tickets by road loses none and adds none.
pub proof fn lemma_parting_conserves(p: Seq<TicketView>, road: u16)
    ensures
        tickets_on(p, road).to_multiset().add(tickets_off(p, road).to_multiset())
            =~= p.to_multiset(),
    decreases p.len(),
{
    if p.len() == 0 {
        lemma_no_tickets();
        assert(tickets_on(p, road) =~= Seq::<TicketView>::empty());
        assert(tickets_off(p, road) =~= Seq::<TicketView>::empty());
        assert(p =~= Seq::<TicketView>::empty());
    } else {
        let q = p.drop_last();
        let x = p.last();
        lemma_parting_conserves(q, road);
        assert(p =~= q.push(x));
        to_multiset_build(q, x);
        to_multiset_build(tickets_on(q, road), x);
        to_multiset_build(tickets_off(q, road), x);
    }
}

/// The tickets of deliveries that follow each other follow each other.
proof fn lemma_tickets_of_add(a: Seq<DeliveryView>, b: Seq<DeliveryView>)
    ensures
        tickets_of(a + b) == tickets_of(a) + tickets_of(b),
        tickets_of(a + b).to_multiset() =~= tickets_of(a).to_multiset().add(
            tickets_of(b).to_multiset(),
        ),
{
    assert(tickets_of(a + b) =~= tickets_of(a) + tickets_of(b));
    lemma_multiset_commutative(tickets_of(a), tickets_of(b));
}

/// The tickets of the deliveries of some tickets are those tickets.
proof fn lemma_tickets_of_deliveries(id: u64, tickets: Seq<TicketView>)
    ensures
        tickets_of(deliveries_to(id, tickets)) == tickets,
{
    assert(tickets_of(deliveries_to(id, tickets)) =~= tickets);
}

/// Handing out the parked tickets of some roads loses no ticket and adds
/// none: what was parked or handed out before is parked or handed out after.
pub proof fn lemma_drain_conserves(st: Outcome, id: u64, roads: Seq<u16>)
    ensures
        drain_roads(st, id, roads).db.pending.to_multiset().add(
            tickets_of(drain_roads(st, id, roads).sent).to_multiset(),
        ) =~= st.db.pending.to_multiset().add(tickets_of(st.sent).to_multiset()),
    decreases roads.len(),
{
    if roads.len() > 0 {
        let prev = drain_roads(st, id, roads.drop_last());
        let road = roads.last();
        let out = drain_roads(st, id, roads);
        let taken = tickets_on(prev.db.pending, road);
        lemma_drain_conserves(st, id, roads.drop_last());
        lemma_parting_conserves(prev.db.pending, road);
        lemma_tickets_of_add(prev.sent, deliveries_to(id, taken));
        lemma_tickets_of_deliveries(id, taken);
        assert(out.db.pending.to_multiset().add(tickets_of(out.sent).to_multiset())
            =~= prev.db.pending.to_multiset().add(tickets_of(prev.sent).to_multiset()));
    }
}

/// Whatever happens to the store, every ticket issued stays accounted for.
pub proof fn lemma_apply_keeps_accounted(w: World, op: Op)
    requires
        accounted(w),
    ensures
        accounted(apply(w, op)),
{
    let after = apply(w, op);
    match op {
        Op::AddCamera { id, camera } => {
            assert(after.db.pending == w.db.pending);
            assert(after.issued == w.issued);
            assert(after.delivered == w.delivered);
        },
        Op::AddDispatcher { id, roads } => {
            let out = register(w.db, id, roads);
            lemma_drain_conserves(
                Outcome {
                    db: DbView {
                        dispatchers: w.db.dispatchers.push(DispatcherView { id, roads }),
                        ..w.db
                    },
                    sent: Seq::empty(),
                },
                id,
                roads,
            );
            lemma_tickets_of_add(w.delivered, out.sent);
            lemma_no_tickets();
            assert(w.db.pending.to_multiset() =~= out.db.pending.to_multiset().add(
                tickets_of(out.sent).to_multiset(),
            ));
            assert(after.issued.to_multiset() =~= after.db.pending.to_multiset().add(
                tickets_of(after.delivered).to_multiset(),
            ));
        },
        Op::Plate { id, plate, timestamp } => {
            if w.db.cameras.contains_key(id) {
                let out = issue(w.db, id, plate, timestamp)->0;
                let log = issued(w.db, id, plate, timestamp);
                lemma_issue_routes(w.db, id, plate, timestamp);
                lemma_multiset_commutative(w.issued, log);
                lemma_tickets_of_add(w.delivered, out.sent);
                match first_dispatcher(w.db.dispatchers, w.db.cameras[id].road) {
                    Some(to) => {
                        lemma_tickets_of_deliveries(to, log);
                    },
                    None => {
                        lemma_multiset_commutative(w.db.pending, log);
                        assert(w.delivered + out.sent =~= w.delivered);
                    },
                }
                assert(after.issued.to_multiset() =~= after.db.pending.to_multiset().add(
                    tickets_of(after.delivered).to_multiset(),
                ));
            }
        },
    }
}

/// In every history every ticket issued is accounted for.
pub proof fn lemma_replay_accounted(ops: Seq<Op>)
    ensures
        accounted(replay(ops)),
    decreases ops.len(),
{
    if ops.len() == 0 {
        lemma_no_tickets();
        assert(Seq::<TicketView>::empty().to_multiset().add(
            Seq::<TicketView>::empty().to_multiset(),
        ) =~= Seq::<TicketView>::empty().to_multiset());
    } else {
        lemma_replay_accounted(ops.drop_last());
        lemma_apply_keeps_accounted(replay(ops.drop_last()), ops.last());
    }
}

/// A dispatcher that has registered for a road stays registered when another
/// registers.
proof fn lemma_registered_stays(ds: Seq<DispatcherView>, d: DispatcherView, id: u64, road: u16)
    requires
        registered_for(ds, id, road),
    ensures
        registered_for(ds.push(d), id, road),
{
    let k = choose|k: int|
        0 <= k < ds.len() && (#[trigger] ds[k]).id == id && ds[k].roads.contains(road);
    assert(ds.push(d)[k] == ds[k]);
}

/// Whatever happens to the store, every ticket handed out has gone to a
/// dispatcher that had registered for the ticket's road.
pub proof fn lemma_apply_keeps_well_routed(w: World, op: Op)
    requires
        well_routed(w),
        settled(w.db),
    ensures
        well_routed(apply(w, op)),
{
    let after = apply(w, op);
    match op {
        Op::AddCamera { id, camera } => {
            assert forall|k: int| 0 <= k < after.delivered.len() implies registered_for(
                after.db.dispatchers,
                (#[trigger] after.delivered[k]).dispatcher,
                after.delivered[k].ticket.road,
            ) by {
                assert(after.delivered[k] == w.delivered[k]);
            }
        },
        Op::AddDispatcher { id, roads } => {
            let joined = DispatcherView { id, roads };
            let out = register(w.db, id, roads);
            lemma_registration_settles(w.db, id, roads);
            assert(after.db.dispatchers == w.db.dispatchers.push(joined));
            assert forall|k: int| 0 <= k < after.delivered.len() implies registered_for(
                after.db.dispatchers,
                (#[trigger] after.delivered[k]).dispatcher,
                after.delivered[k].ticket.road,
            ) by {
                let d = after.delivered[k];
                if k < w.delivered.len() {
                    assert(d == w.delivered[k]);
                    lemma_registered_stays(w.db.dispatchers, joined, d.dispatcher, d.ticket.road);
                } else {
                    assert(d == out.sent[k - w.delivered.len()]);
                    lemma_first_dispatcher_registered(after.db.dispatchers, d.ticket.road);
                }
            }
        },
        Op::Plate { id, plate, timestamp } => {
            if w.db.cameras.contains_key(id) {
                let out = issue(w.db, id, plate, timestamp)->0;
                lemma_report_settles(w.db, id, plate, timestamp);
                assert forall|k: int| 0 <= k < after.delivered.len() implies registered_for(
                    after.db.dispatchers,
                    (#[trigger] after.delivered[k]).dispatcher,
                    after.delivered[k].ticket.road,
                ) by {
                    let d = after.delivered[k];
                    if k < w.delivered.len() {
                        assert(d == w.delivered[k]);
                    } else {
                        assert(d == out.sent[k - w.delivered.len()]);
                        lemma_first_dispatcher_registered(w.db.dispatchers, d.ticket.road);
                    }
                }
            }
        },
    }
}

/// In every history every ticket handed out has gone to a dispatcher that
/// had registered for the ticket's road.
pub proof fn lemma_replay_well_routed(ops: Seq<Op>)
    ensures
        well_routed(replay(ops)),
    decreases ops.len(),
{
    if ops.len() > 0 {
        lemma_replay_well_routed(ops.drop_last());
        lemma_replay_settled(ops.drop_last());
        lemma_apply_keeps_well_routed(replay(ops.drop_last()), ops.last());
    }
}

} // verus!
