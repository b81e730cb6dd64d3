//! The protocol laws, proved over the world's transition functions.
//!
//! Each lemma states a guarantee of the server as a whole: what a report
//! may emit, how the day ledger protects against double ticketing, whom a
//! ticket may be routed to, and what a registering dispatcher receives.

use vstd::prelude::*;

use crate::codec::MsgV;
use crate::server::adjudicate_step;
use crate::server::clamp16;
use crate::server::enqueue_step;
use crate::server::mile_gap;
use crate::server::pair_ticket;
use crate::server::register_step;
use crate::server::report_iter;
use crate::server::report_step;
use crate::server::ticket_days;
use crate::server::unregister_step;
use crate::server::PlateReport;
use crate::server::TicketV;
use crate::server::WorldModel;
use crate::session::rejected;
use crate::session::session_step;
use crate::session::text_already_identified;
use crate::session::ClientV;

verus! {

/// A ticket that covers one calendar day.
pub open spec fn single_day(t: TicketV) -> bool {
    t.timestamp1 / 86400 == t.timestamp2 / 86400
}

/// Whenever an observation pair yields a ticket: the two observations
/// stand in chronological order with their own mile markers, the average
/// speed strictly exceeds the reporting camera's limit, and the stored
/// speed is the truncated hundredths of miles per hour, clamped to 16
/// bits.
pub proof fn lemma_pair_ticket_sound(
    road: u16,
    mile: u16,
    limit: u16,
    plate: Seq<u8>,
    ts: u32,
    rep: PlateReport,
)
    requires
        pair_ticket(road, mile, limit, plate, ts, rep) is Some,
    ensures
        ({
            let t = pair_ticket(road, mile, limit, plate, ts, rep)->0;
            &&& t.road == road
            &&& t.plate == plate
            &&& t.timestamp1 < t.timestamp2
            &&& (t.timestamp1 == ts && t.mile1 == mile && t.timestamp2 == rep.timestamp && t.mile2
                == rep.mile) || (t.timestamp1 == rep.timestamp && t.mile1 == rep.mile
                && t.timestamp2 == ts && t.mile2 == mile)
            &&& mile_gap(t.mile2, t.mile1) * 3600 > (limit as int) * (t.timestamp2 - t.timestamp1)
            &&& t.speed == clamp16(
                mile_gap(t.mile2, t.mile1) * 360000 / (t.timestamp2 - t.timestamp1),
            )
        }),
{
}

/// Everything a single report leaves intact and guarantees of its output:
/// dispatchers and observations are untouched by the adjudication loop,
/// the day ledger only grows, every emitted ticket pairs the new
/// observation with a previously recorded one, is routed to the first
/// dispatcher of the reported road or queued there, has its boundary days
/// free in the starting ledger, its full day range recorded afterwards,
/// and later tickets of the same loop never touch days of earlier ones.
pub proof fn lemma_report_iter_sound(
    w: WorldModel,
    road: u16,
    mile: u16,
    limit: u16,
    plate: Seq<u8>,
    ts: u32,
    reps: Seq<PlateReport>,
)
    ensures
        ({
            let (w2, out) = report_iter(w, road, mile, limit, plate, ts, reps);
            &&& w2.dispatchers == w.dispatchers
            &&& w2.observations == w.observations
            &&& w.days.subset_of(w2.days)
            &&& forall|r: u16| w.pending[r].is_prefix_of(#[trigger] w2.pending[r])
            &&& forall|i: int|
                0 <= i < out.len() ==> exists|j: int|
                    0 <= j < reps.len() && pair_ticket(road, mile, limit, plate, ts, reps[j])
                        == Some((#[trigger] out[i]).ticket)
            &&& forall|i: int|
                0 <= i < out.len() ==> match (#[trigger] out[i]).dispatcher {
                    Some(id) => w.dispatchers[road].len() > 0 && id == w.dispatchers[road][0],
                    None => w.dispatchers[road].len() == 0,
                }
            &&& forall|i: int|
                0 <= i < out.len() ==> !w.days.contains(
                    (plate, ((#[trigger] out[i]).ticket.timestamp1 / 86400) as u32),
                ) && !w.days.contains((plate, (out[i].ticket.timestamp2 / 86400) as u32))
            &&& forall|i: int|
                0 <= i < out.len() ==> (ticket_days((#[trigger] out[i]).ticket)).subset_of(w2.days)
            &&& forall|i: int, j: int|
                0 <= i < j < out.len() ==> !ticket_days((#[trigger] out[i]).ticket).contains(
                    (plate, ((#[trigger] out[j]).ticket.timestamp1 / 86400) as u32),
                ) && !ticket_days(out[i].ticket).contains(
                    (plate, (out[j].ticket.timestamp2 / 86400) as u32),
                )
        }),
    decreases reps.len(),
{
    let (w2, out) = report_iter(w, road, mile, limit, plate, ts, reps);
    if reps.len() == 0 {
        assert(forall|r: u16| w.pending[r].is_prefix_of(#[trigger] w2.pending[r]));
    } else {
        let a = adjudicate_step(w, road, mile, limit, plate, ts, reps[0]);
        let b = report_iter(a.0, road, mile, limit, plate, ts, reps.drop_first());
        lemma_report_iter_sound(a.0, road, mile, limit, plate, ts, reps.drop_first());
        assert(w.days.subset_of(a.0.days));
        assert(forall|r: u16| w.pending[r].is_prefix_of(#[trigger] a.0.pending[r]));
        assert(forall|r: u16| w.pending[r].is_prefix_of(#[trigger] w2.pending[r]));
        assert forall|i: int| 0 <= i < out.len() implies exists|j: int|
            0 <= j < reps.len() && pair_ticket(road, mile, limit, plate, ts, reps[j]) == Some(
                (#[trigger] out[i]).ticket,
            ) by {
            if i < a.1.len() {
                assert(pair_ticket(road, mile, limit, plate, ts, reps[0]) == Some(out[i].ticket));
            } else {
                let bi = i - a.1.len();
                assert(b.1[bi] == out[i]);
                let j = choose|j: int|
                    0 <= j < reps.drop_first().len() && pair_ticket(
                        road,
                        mile,
                        limit,
                        plate,
                        ts,
                        reps.drop_first()[j],
                    ) == Some(b.1[bi].ticket);
                assert(reps.drop_first()[j] == reps[j + 1]);
            }
        }
        assert forall|i: int| 0 <= i < out.len() implies match (#[trigger] out[i]).dispatcher {
            Some(id) => w.dispatchers[road].len() > 0 && id == w.dispatchers[road][0],
            None => w.dispatchers[road].len() == 0,
        } by {
            if i >= a.1.len() {
                assert(b.1[i - a.1.len()] == out[i]);
                assert(a.0.dispatchers == w.dispatchers);
            }
        }
        assert forall|i: int| 0 <= i < out.len() implies !w.days.contains(
            (plate, ((#[trigger] out[i]).ticket.timestamp1 / 86400) as u32),
        ) && !w.days.contains((plate, (out[i].ticket.timestamp2 / 86400) as u32)) by {
            if i >= a.1.len() {
                assert(b.1[i - a.1.len()] == out[i]);
            }
        }
        assert forall|i: int| 0 <= i < out.len() implies (ticket_days(
            (#[trigger] out[i]).ticket,
        )).subset_of(w2.days) by {
            if i < a.1.len() {
                assert(ticket_days(out[i].ticket).subset_of(a.0.days));
                assert(a.0.days.subset_of(w2.days));
            } else {
                assert(b.1[i - a.1.len()] == out[i]);
            }
        }
        assert forall|i: int, j: int| 0 <= i < j < out.len() implies !ticket_days(
            (#[trigger] out[i]).ticket,
        ).contains((plate, ((#[trigger] out[j]).ticket.timestamp1 / 86400) as u32))
            && !ticket_days(out[i].ticket).contains(
            (plate, (out[j].ticket.timestamp2 / 86400) as u32),
        ) by {
            if i < a.1.len() {
                assert(j >= a.1.len());
                assert(b.1[j - a.1.len()] == out[j]);
                assert(ticket_days(out[i].ticket).subset_of(a.0.days));
                assert(!a.0.days.contains((plate, (out[j].ticket.timestamp1 / 86400) as u32)));
                assert(!a.0.days.contains((plate, (out[j].ticket.timestamp2 / 86400) as u32)));
            } else {
                assert(b.1[i - a.1.len()] == out[i]);
                assert(b.1[j - a.1.len()] == out[j]);
            }
        }
    }
}

/// The per-report guarantees, at the public entry point: tickets carry the
/// reported road and plate in chronological order, at a speed above the
/// reporting camera's limit (P2, P3); each is delivered to the road's
/// first registered dispatcher or queued (P4); its boundary days were
/// unticketed before and its whole range is ledgered after (P1's
/// mechanism); and the ledger only grows.
pub proof fn lemma_report_step_sound(
    w: WorldModel,
    road: u16,
    mile: u16,
    limit: u16,
    plate: Seq<u8>,
    ts: u32,
)
    ensures
        ({
            let (w2, out) = report_step(w, road, mile, limit, plate, ts);
            &&& w2.dispatchers == w.dispatchers
            &&& w.days.subset_of(w2.days)
            &&& forall|i: int|
                0 <= i < out.len() ==> (#[trigger] out[i]).ticket.road == road && out[i].ticket.plate
                    == plate && out[i].ticket.timestamp1 < out[i].ticket.timestamp2
            &&& forall|i: int|
                0 <= i < out.len() ==> mile_gap(
                    (#[trigger] out[i]).ticket.mile2,
                    out[i].ticket.mile1,
                ) * 3600 > (limit as int) * (out[i].ticket.timestamp2 - out[i].ticket.timestamp1)
            &&& forall|i: int|
                0 <= i < out.len() ==> (#[trigger] out[i]).ticket.speed == clamp16(
                    mile_gap(out[i].ticket.mile2, out[i].ticket.mile1) * 360000 / (
                    out[i].ticket.timestamp2 - out[i].ticket.timestamp1),
                )
            &&& forall|i: int|
                0 <= i < out.len() ==> match (#[trigger] out[i]).dispatcher {
                    Some(id) => w.dispatchers[road].len() > 0 && id == w.dispatchers[road][0],
                    None => w.dispatchers[road].len() == 0,
                }
            &&& forall|i: int|
                0 <= i < out.len() ==> !w.days.contains(
                    (plate, ((#[trigger] out[i]).ticket.timestamp1 / 86400) as u32),
                ) && !w.days.contains((plate, (out[i].ticket.timestamp2 / 86400) as u32))
            &&& forall|i: int|
                0 <= i < out.len() ==> (ticket_days((#[trigger] out[i]).ticket)).subset_of(w2.days)
        }),
{
    let reps = w.observations[(road, plate)];
    lemma_report_iter_sound(w, road, mile, limit, plate, ts, reps);
    let (w2, out) = report_step(w, road, mile, limit, plate, ts);
    assert forall|i: int| 0 <= i < out.len() implies (#[trigger] out[i]).ticket.road == road
        && out[i].ticket.plate == plate && out[i].ticket.timestamp1 < out[i].ticket.timestamp2 by {
        let j = choose|j: int|
            0 <= j < reps.len() && pair_ticket(road, mile, limit, plate, ts, reps[j]) == Some(
                out[i].ticket,
            );
        lemma_pair_ticket_sound(road, mile, limit, plate, ts, reps[j]);
    }
    assert forall|i: int| 0 <= i < out.len() implies mile_gap(
        (#[trigger] out[i]).ticket.mile2,
        out[i].ticket.mile1,
    ) * 3600 > (limit as int) * (out[i].ticket.timestamp2 - out[i].ticket.timestamp1) by {
        let j = choose|j: int|
            0 <= j < reps.len() && pair_ticket(road, mile, limit, plate, ts, reps[j]) == Some(
                out[i].ticket,
            );
        lemma_pair_ticket_sound(road, mile, limit, plate, ts, reps[j]);
    }
    assert forall|i: int| 0 <= i < out.len() implies (#[trigger] out[i]).ticket.speed == clamp16(
        mile_gap(out[i].ticket.mile2, out[i].ticket.mile1) * 360000 / (out[i].ticket.timestamp2
            - out[i].ticket.timestamp1),
    ) by {
        let j = choose|j: int|
            0 <= j < reps.len() && pair_ticket(road, mile, limit, plate, ts, reps[j]) == Some(
                out[i].ticket,
            );
        lemma_pair_ticket_sound(road, mile, limit, plate, ts, reps[j]);
    }
}

/// One ticket per plate per day, across two consecutive reports (P1): a
/// ticket of the second report never has a boundary day inside any day
/// covered by a ticket of the first, and two single-day tickets never
/// share their day. A multi-day ticket can wrap around days whose
/// boundary days are free, so only its boundary days are protected.
pub proof fn lemma_no_day_ticketed_twice(
    w: WorldModel,
    road1: u16,
    mile1: u16,
    limit1: u16,
    ts1: u32,
    road2: u16,
    mile2: u16,
    limit2: u16,
    ts2: u32,
    plate: Seq<u8>,
)
    ensures
        ({
            let (w1, out1) = report_step(w, road1, mile1, limit1, plate, ts1);
            let (w2, out2) = report_step(w1, road2, mile2, limit2, plate, ts2);
            forall|i: int, j: int|
                0 <= i < out1.len() && 0 <= j < out2.len() ==> (!ticket_days(
                    (#[trigger] out1[i]).ticket,
                ).contains((plate, ((#[trigger] out2[j]).ticket.timestamp1 / 86400) as u32))
                    && !ticket_days(out1[i].ticket).contains(
                    (plate, (out2[j].ticket.timestamp2 / 86400) as u32),
                ) && ((single_day(out1[i].ticket) && single_day(out2[j].ticket))
                    ==> ticket_days(out1[i].ticket).disjoint(ticket_days(out2[j].ticket))))
        }),
{
    let (w1, out1) = report_step(w, road1, mile1, limit1, plate, ts1);
    let (w2, out2) = report_step(w1, road2, mile2, limit2, plate, ts2);
    lemma_report_step_sound(w, road1, mile1, limit1, plate, ts1);
    lemma_report_step_sound(w1, road2, mile2, limit2, plate, ts2);
    assert forall|i: int, j: int| 0 <= i < out1.len() && 0 <= j < out2.len() implies (!ticket_days(
        (#[trigger] out1[i]).ticket,
    ).contains((plate, ((#[trigger] out2[j]).ticket.timestamp1 / 86400) as u32)) && !ticket_days(
        out1[i].ticket,
    ).contains((plate, (out2[j].ticket.timestamp2 / 86400) as u32)) && ((single_day(out1[i].ticket)
        && single_day(out2[j].ticket)) ==> ticket_days(out1[i].ticket).disjoint(
        ticket_days(out2[j].ticket),
    ))) by {
        assert(ticket_days(out1[i].ticket).subset_of(w1.days));
        assert(!w1.days.contains((plate, (out2[j].ticket.timestamp1 / 86400) as u32)));
        assert(!w1.days.contains((plate, (out2[j].ticket.timestamp2 / 86400) as u32)));
        if single_day(out1[i].ticket) && single_day(out2[j].ticket) {
            let t1 = out1[i].ticket;
            let t2 = out2[j].ticket;
            assert forall|p: (Seq<u8>, u32)| ticket_days(t1).contains(p) implies !ticket_days(
                t2,
            ).contains(p) by {
                assert(p.0 == t1.plate);
                if ticket_days(t2).contains(p) {
                    assert(p.1 == t2.timestamp1 / 86400);
                    assert(ticket_days(t1).contains((plate, (t2.timestamp1 / 86400) as u32)));
                }
            }
        }
    }
}

/// The ledger never shrinks: no later operation forgets a ticketed day.
pub proof fn lemma_days_monotone(w: WorldModel, id: u64, roads: Seq<u16>, road: u16, t: TicketV)
    ensures
        register_step(w, id, roads).0.days == w.days,
        unregister_step(w, id, roads).days == w.days,
        enqueue_step(w, road, t).days == w.days,
    decreases roads.len(),
{
    if roads.len() > 0 {
        let r = roads[0];
        let w1 = WorldModel {
            dispatchers: w.dispatchers.insert(r, w.dispatchers[r].push(id)),
            pending: w.pending.insert(r, Seq::empty()),
            ..w
        };
        let u1 = WorldModel {
            dispatchers: w.dispatchers.insert(r, crate::server::remove_first_swap(w.dispatchers[r], id)),
            ..w
        };
        lemma_days_monotone(w1, id, roads.drop_first(), road, t);
        lemma_days_monotone(u1, id, roads.drop_first(), road, t);
    }
}

/// Registration grows dispatcher lists: whoever was registered stays, and
/// the registering id is on every road of its list (with P4 this bounds
/// who can ever be handed a ticket).
pub proof fn lemma_register_keeps_dispatchers(w: WorldModel, id: u64, roads: Seq<u16>)
    ensures
        forall|r: u16, x: u64|
            #[trigger] w.dispatchers[r].contains(x) ==> register_step(
                w,
                id,
                roads,
            ).0.dispatchers[r].contains(x),
        forall|r: u16|
            roads.contains(r) ==> (#[trigger] register_step(w, id, roads).0.dispatchers[r]).contains(
                id,
            ),
    decreases roads.len(),
{
    if roads.len() > 0 {
        let r0 = roads[0];
        let w1 = WorldModel {
            dispatchers: w.dispatchers.insert(r0, w.dispatchers[r0].push(id)),
            pending: w.pending.insert(r0, Seq::empty()),
            ..w
        };
        lemma_register_keeps_dispatchers(w1, id, roads.drop_first());
        assert(w1.dispatchers[r0].contains(id)) by {
            assert(w1.dispatchers[r0].last() == id);
        }
        assert forall|r: u16, x: u64| #[trigger] w.dispatchers[r].contains(x) implies register_step(
            w,
            id,
            roads,
        ).0.dispatchers[r].contains(x) by {
            let k = choose|k: int| 0 <= k < w.dispatchers[r].len() && w.dispatchers[r][k] == x;
            assert(w1.dispatchers[r][k] == x);
            assert(w1.dispatchers[r].contains(x));
        }
        assert forall|r: u16| roads.contains(r) implies (#[trigger] register_step(
            w,
            id,
            roads,
        ).0.dispatchers[r]).contains(id) by {
            if r != r0 {
                let k = choose|k: int| 0 <= k < roads.len() && roads[k] == r;
                assert(roads.drop_first()[k - 1] == r);
                assert(roads.drop_first().contains(r));
            }
        }
    }
}

/// Every pending ticket of a registered road is handed, in insertion
/// order and as one contiguous run, to the dispatcher that registers it
/// (P5), and the road's queue is empty afterwards.
pub proof fn lemma_register_delivers_pending(w: WorldModel, id: u64, roads: Seq<u16>, r: u16)
    requires
        roads.contains(r),
    ensures
        register_step(w, id, roads).0.pending[r] == Seq::<TicketV>::empty(),
        exists|off: int|
            0 <= off && off + w.pending[r].len() <= register_step(w, id, roads).1.len() && (
            #[trigger] register_step(w, id, roads).1.subrange(off, off + w.pending[r].len()))
                == w.pending[r],
    decreases roads.len(),
{
    let r0 = roads[0];
    let drained = w.pending[r0];
    let w1 = WorldModel {
        dispatchers: w.dispatchers.insert(r0, w.dispatchers[r0].push(id)),
        pending: w.pending.insert(r0, Seq::empty()),
        ..w
    };
    let rec = register_step(w1, id, roads.drop_first());
    let out = register_step(w, id, roads).1;
    if r0 == r {
        lemma_register_pending_stays_empty(w1, id, roads.drop_first(), r);
        assert(out.subrange(0, drained.len() as int) =~= drained);
        assert(0 + w.pending[r].len() <= out.len());
    } else {
        let k = choose|k: int| 0 <= k < roads.len() && roads[k] == r;
        assert(roads.drop_first()[k - 1] == r);
        assert(roads.drop_first().contains(r));
        lemma_register_delivers_pending(w1, id, roads.drop_first(), r);
        assert(w1.pending[r] == w.pending[r]);
        let off = choose|off: int|
            0 <= off && off + w1.pending[r].len() <= rec.1.len() && (#[trigger] rec.1.subrange(
                off,
                off + w1.pending[r].len(),
            )) == w1.pending[r];
        assert(out.subrange(
            drained.len() + off,
            drained.len() + off + w.pending[r].len(),
        ) =~= rec.1.subrange(off, off + w.pending[r].len()));
    }
}

/// Once a road's queue is empty, registration keeps it empty.
proof fn lemma_register_pending_stays_empty(w: WorldModel, id: u64, roads: Seq<u16>, r: u16)
    requires
        w.pending[r] == Seq::<TicketV>::empty(),
    ensures
        register_step(w, id, roads).0.pending[r] == Seq::<TicketV>::empty(),
    decreases roads.len(),
{
    if roads.len() > 0 {
        let r0 = roads[0];
        let w1 = WorldModel {
            dispatchers: w.dispatchers.insert(r0, w.dispatchers[r0].push(id)),
            pending: w.pending.insert(r0, Seq::empty()),
            ..w
        };
        lemma_register_pending_stays_empty(w1, id, roads.drop_first(), r);
    }
}

/// A dispatcher is only handed tickets for roads it registered (P4): a
/// delivered report ticket goes to the first dispatcher registered for
/// the ticket's own road, and every ticket drained at registration is for
/// a road of the registering dispatcher's list.
pub proof fn lemma_dispatcher_receives_own_roads(
    w: WorldModel,
    id: u64,
    roads: Seq<u16>,
    road: u16,
    mile: u16,
    limit: u16,
    plate: Seq<u8>,
    ts: u32,
)
    requires
        w.pending_roads_consistent(),
    ensures
        ({
            let (wr, out) = report_step(w, road, mile, limit, plate, ts);
            forall|i: int|
                0 <= i < out.len() ==> match (#[trigger] out[i]).dispatcher {
                    Some(d) => out[i].ticket.road == road && w.dispatchers[out[i].ticket.road].len()
                        > 0 && d == w.dispatchers[out[i].ticket.road][0],
                    None => true,
                }
        }),
        forall|k: int|
            0 <= k < register_step(w, id, roads).1.len() ==> roads.contains(
                (#[trigger] register_step(w, id, roads).1[k]).road,
            ),
{
    lemma_report_step_sound(w, road, mile, limit, plate, ts);
    lemma_register_output_roads(w, id, roads);
}

/// Tickets drained at registration carry roads from the registered list.
proof fn lemma_register_output_roads(w: WorldModel, id: u64, roads: Seq<u16>)
    requires
        w.pending_roads_consistent(),
    ensures
        forall|k: int|
            0 <= k < register_step(w, id, roads).1.len() ==> roads.contains(
                (#[trigger] register_step(w, id, roads).1[k]).road,
            ),
    decreases roads.len(),
{
    if roads.len() > 0 {
        let r0 = roads[0];
        let drained = w.pending[r0];
        let w1 = WorldModel {
            dispatchers: w.dispatchers.insert(r0, w.dispatchers[r0].push(id)),
            pending: w.pending.insert(r0, Seq::empty()),
            ..w
        };
        assert(w1.pending_roads_consistent()) by {
            assert forall|r: u16, i: int| 0 <= i < w1.pending[r].len() implies (
            #[trigger] w1.pending[r][i]).road == r by {
                if r != r0 {
                    assert(w1.pending[r] == w.pending[r]);
                    assert(w.pending[r][i].road == r);
                }
            }
        }
        lemma_register_output_roads(w1, id, roads.drop_first());
        let out = register_step(w, id, roads).1;
        let rec = register_step(w1, id, roads.drop_first()).1;
        assert forall|k: int| 0 <= k < out.len() implies roads.contains(
            (#[trigger] out[k]).road,
        ) by {
            if k < drained.len() {
                assert(w.pending[r0][k].road == r0);
                assert(roads[0] == r0);
            } else {
                assert(out[k] == rec[k - drained.len()]);
                assert(roads.drop_first().contains(out[k].road));
                let m = choose|m: int|
                    0 <= m < roads.drop_first().len() && roads.drop_first()[m] == out[k].road;
                assert(roads[m + 1] == out[k].road);
            }
        }
    }
}

/// A heartbeat request of interval zero is accepted: no heartbeat task is
/// demanded and no error is raised; the request is still counted.
pub proof fn lemma_heartbeat_zero_quiet(c: ClientV)
    requires
        !c.is_heartbeat_running,
    ensures
        session_step(c, MsgV::WantHeartbeat { interval: 0 }).1 is Proceed,
        session_step(c, MsgV::WantHeartbeat { interval: 0 }).0.is_heartbeat_running,
{
}

/// Two observations with equal timestamps never yield a ticket.
pub proof fn lemma_equal_timestamps_no_ticket(
    road: u16,
    mile: u16,
    limit: u16,
    plate: Seq<u8>,
    ts: u32,
    rep: PlateReport,
)
    requires
        ts == rep.timestamp,
    ensures
        pair_ticket(road, mile, limit, plate, ts, rep) is None,
{
}

/// A second identify on an already identified connection is refused with
/// exactly one Error frame and the session closes; no world action is
/// demanded, so the world stays as it is (P7).
pub proof fn lemma_second_identify_rejected(c: ClientV, m: MsgV)
    requires
        !(c.typ is Unknown),
        m is IAmCamera || m is IAmDispatcher,
    ensures
        session_step(c, m) == rejected(c, text_already_identified()),
        session_step(c, m).1 is Reject,
{
}

} // verus!
