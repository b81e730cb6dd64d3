//! Shared world state: the observation ledger, the per-plate-per-day ticket
//! ledger, dispatcher registration and the pending-ticket queues.
//!
//! Every operation is specified against a mathematical [`WorldModel`]: the
//! executable state views to a model, and each operation's outcome equals a
//! pure transition function of the old model. The protocol laws are proved
//! about those transition functions.

use vstd::prelude::*;

use crate::codec::MsgV;
use crate::codec::SDMessage;
use crate::session::ActionV;
use crate::session::Client;
use crate::session::ClientV;
use crate::session::SessionAction;
use crate::session::session_step;

verus! {

/// An adjudicated speed violation, ready to frame as a Ticket message.
#[derive(Debug, PartialEq)]
pub struct Ticket {
    pub plate: Vec<u8>,
    pub road: u16,
    pub mile1: u16,
    pub timestamp1: u32,
    pub mile2: u16,
    pub timestamp2: u32,
    pub speed: u16,
}

/// Mathematical model of a ticket.
pub struct TicketV {
    pub plate: Seq<u8>,
    pub road: u16,
    pub mile1: u16,
    pub timestamp1: u32,
    pub mile2: u16,
    pub timestamp2: u32,
    pub speed: u16,
}

impl View for Ticket {
    type V = TicketV;

    open spec fn view(&self) -> TicketV {
        TicketV {
            plate: self.plate@,
            road: self.road,
            mile1: self.mile1,
            timestamp1: self.timestamp1,
            mile2: self.mile2,
            timestamp2: self.timestamp2,
            speed: self.speed,
        }
    }
}

/// One camera observation of a plate: when and at which mile marker.
#[derive(Debug, Clone, Copy, PartialEq, Eq, Structural)]
pub struct PlateReport {
    pub timestamp: u32,
    pub mile: u16,
}

/// A ticket together with the routing the world decided: delivery to the
/// first dispatcher registered for its road, or held in the road's pending
/// queue until one registers.
#[derive(Debug, PartialEq)]
pub struct RoutedTicket {
    pub ticket: Ticket,
    pub dispatcher: Option<u64>,
}

/// Mathematical model of a routed ticket.
pub struct RoutedTicketV {
    pub ticket: TicketV,
    pub dispatcher: Option<u64>,
}

impl View for RoutedTicket {
    type V = RoutedTicketV;

    open spec fn view(&self) -> RoutedTicketV {
        RoutedTicketV { ticket: self.ticket@, dispatcher: self.dispatcher }
    }
}

/// The views of a ticket list.
pub open spec fn ticket_views(s: Seq<Ticket>) -> Seq<TicketV> {
    s.map_values(|t: Ticket| t@)
}

/// The views of a routed-ticket list.
pub open spec fn routed_views(s: Seq<RoutedTicket>) -> Seq<RoutedTicketV> {
    s.map_values(|t: RoutedTicket| t@)
}

/// Mathematical model of the world: total maps from road (or road and
/// plate) to what the world holds for it, and the set of (plate, day)
/// pairs already covered by an issued ticket.
#[verifier::ext_equal]
pub struct WorldModel {
    pub dispatchers: Map<u16, Seq<u64>>,
    pub pending: Map<u16, Seq<TicketV>>,
    pub observations: Map<(u16, Seq<u8>), Seq<PlateReport>>,
    pub days: Set<(Seq<u8>, u32)>,
}

impl WorldModel {
    /// The world before any connection: nothing registered, nothing seen.
    pub open spec fn init() -> WorldModel {
        WorldModel {
            dispatchers: Map::new(|r: u16| true, |r: u16| Seq::empty()),
            pending: Map::new(|r: u16| true, |r: u16| Seq::empty()),
            observations: Map::new(|k: (u16, Seq<u8>)| true, |k: (u16, Seq<u8>)| Seq::empty()),
            days: Set::empty(),
        }
    }

    /// Every queued ticket sits in the queue of its own road.
    pub open spec fn pending_roads_consistent(self) -> bool {
        forall|r: u16, i: int|
            0 <= i < self.pending[r].len() ==> (#[trigger] self.pending[r][i]).road == r
    }
}

#[derive(Debug)]
struct RoadDispatchers {
    road: u16,
    ids: Vec<u64>,
}

#[derive(Debug)]
struct RoadPending {
    road: u16,
    tickets: Vec<Ticket>,
}

#[derive(Debug)]
struct CarReports {
    road: u16,
    plate: Vec<u8>,
    reports: Vec<PlateReport>,
}

#[derive(Debug)]
struct DayEntry {
    plate: Vec<u8>,
    day: u32,
}

/// The dispatcher list recorded for `road`: the first matching entry, or
/// empty where none is recorded.
spec fn ids_assoc(s: Seq<RoadDispatchers>, road: u16) -> Seq<u64>
    decreases s.len(),
{
    if s.len() == 0 {
        Seq::empty()
    } else if s[0].road == road {
        s[0].ids@
    } else {
        ids_assoc(s.drop_first(), road)
    }
}

/// The pending tickets recorded for `road`.
spec fn pending_assoc(s: Seq<RoadPending>, road: u16) -> Seq<TicketV>
    decreases s.len(),
{
    if s.len() == 0 {
        Seq::empty()
    } else if s[0].road == road {
        ticket_views(s[0].tickets@)
    } else {
        pending_assoc(s.drop_first(), road)
    }
}

/// The observations recorded for `(road, plate)`.
spec fn reports_assoc(s: Seq<CarReports>, road: u16, plate: Seq<u8>) -> Seq<PlateReport>
    decreases s.len(),
{
    if s.len() == 0 {
        Seq::empty()
    } else if s[0].road == road && s[0].plate@ == plate {
        s[0].reports@
    } else {
        reports_assoc(s.drop_first(), road, plate)
    }
}

/// Whether the day ledger holds `(plate, day)`.
spec fn day_in(s: Seq<DayEntry>, plate: Seq<u8>, day: u32) -> bool {
    exists|i: int| 0 <= i < s.len() && (#[trigger] s[i]).plate@ == plate && s[i].day == day
}

/// The shared world state. All bookkeeping is in plain vectors so that
/// every operation can be verified against [`WorldModel`] transitions.
#[derive(Debug)]
pub struct AppState {
    dispatchers_on_road: Vec<RoadDispatchers>,
    pending_tickets: Vec<RoadPending>,
    cars_on_road: Vec<CarReports>,
    tickets_per_day: Vec<DayEntry>,
}

impl View for AppState {
    type V = WorldModel;

    closed spec fn view(&self) -> WorldModel {
        WorldModel {
            dispatchers: Map::new(
                |r: u16| true,
                |r: u16| ids_assoc(self.dispatchers_on_road@, r),
            ),
            pending: Map::new(|r: u16| true, |r: u16| pending_assoc(self.pending_tickets@, r)),
            observations: Map::new(
                |k: (u16, Seq<u8>)| true,
                |k: (u16, Seq<u8>)| reports_assoc(self.cars_on_road@, k.0, k.1),
            ),
            days: Set::new(|p: (Seq<u8>, u32)| day_in(self.tickets_per_day@, p.0, p.1)),
        }
    }
}

impl AppState {
    /// Each road and each (road, plate) pair has at most one entry, and
    /// queued tickets carry the road they are queued under.
    pub closed spec fn wf(&self) -> bool {
        &&& forall|i: int, j: int|
            0 <= i < j < self.dispatchers_on_road@.len() ==> (
            #[trigger] self.dispatchers_on_road@[i]).road != (
            #[trigger] self.dispatchers_on_road@[j]).road
        &&& forall|i: int, j: int|
            0 <= i < j < self.pending_tickets@.len() ==> (
            #[trigger] self.pending_tickets@[i]).road != (#[trigger] self.pending_tickets@[j]).road
        &&& forall|i: int, j: int|
            0 <= i < j < self.cars_on_road@.len() ==> !((#[trigger] self.cars_on_road@[i]).road == (
            #[trigger] self.cars_on_road@[j]).road && self.cars_on_road@[i].plate@
                == self.cars_on_road@[j].plate@)
        &&& forall|i: int, k: int|
            0 <= i < self.pending_tickets@.len() && 0 <= k < (
            #[trigger] self.pending_tickets@[i]).tickets@.len() ==> (
            #[trigger] self.pending_tickets@[i].tickets@[k])@.road
                == self.pending_tickets@[i].road
    }

    /// An empty world.
    pub fn new() -> (s: AppState)
        ensures
            s.wf(),
            s@ == WorldModel::init(),
    {
        let s = AppState {
            dispatchers_on_road: Vec::new(),
            pending_tickets: Vec::new(),
            cars_on_road: Vec::new(),
            tickets_per_day: Vec::new(),
        };
        proof {
            assert(s@.dispatchers =~= WorldModel::init().dispatchers);
            assert(s@.pending =~= WorldModel::init().pending);
            assert(s@.observations =~= WorldModel::init().observations);
            assert(s@.days =~= WorldModel::init().days);
            assert(s@ =~= WorldModel::init());
        }
        s
    }
}

/// Queueing a ticket appends it to its road's pending queue and changes
/// nothing else.
pub open spec fn enqueue_step(w: WorldModel, road: u16, t: TicketV) -> WorldModel {
    WorldModel { pending: w.pending.insert(road, w.pending[road].push(t)), ..w }
}

impl AppState {
    /// The index of `road`'s pending queue, if the world holds one.
    fn find_pending(&self, road: u16) -> (r: Option<usize>)
        ensures
            match r {
                Some(i) => i < self.pending_tickets@.len() && self.pending_tickets@[i as int].road
                    == road && forall|k: int|
                    0 <= k < i ==> (#[trigger] self.pending_tickets@[k]).road != road,
                None => forall|k: int|
                    0 <= k < self.pending_tickets@.len() ==> (
                    #[trigger] self.pending_tickets@[k]).road != road,
            },
    {
        let n: usize = self.pending_tickets.len();
        let mut i: usize = 0;
        while i < n
            invariant
                i <= n,
                n == self.pending_tickets@.len(),
                forall|k: int| 0 <= k < i ==> (#[trigger] self.pending_tickets@[k]).road != road,
            decreases n - i,
        {
            if self.pending_tickets[i].road == road {
                return Some(i);
            }
            i = i + 1;
        }
        None
    }

    /// Append `ticket` to the pending queue of `road`, to wait there for
    /// the next dispatcher that registers the road.
    pub fn add_pending_ticket(&mut self, road: u16, ticket: Ticket)
        requires
            old(self).wf(),
            ticket@.road == road,
        ensures
            final(self).wf(),
            final(self)@ == enqueue_step(old(self)@, road, ticket@),
    {
        let ghost w0 = self@;
        let ghost t = ticket@;
        match self.find_pending(road) {
            Some(i) => {
                proof {
                    lemma_pending_assoc_at(self.pending_tickets@, i as int, road);
                }
                let mut entry = self.pending_tickets.remove(i);
                entry.tickets.push(ticket);
                self.pending_tickets.insert(i, entry);
                proof {
                    let s1 = old(self).pending_tickets@;
                    let s2 = self.pending_tickets@;
                    assert(s2 =~= s1.update(i as int, s2[i as int]));
                    lemma_pending_assoc_update(s1, s2, i as int, road);
                    assert(ticket_views(s2[i as int].tickets@) =~= ticket_views(
                        s1[i as int].tickets@,
                    ).push(t));
                    assert(self@.pending =~= enqueue_step(w0, road, t).pending);
                    assert(self@ =~= enqueue_step(w0, road, t));
                }
            },
            None => {
                proof {
                    lemma_pending_assoc_none(self.pending_tickets@, road);
                }
                let mut tickets: Vec<Ticket> = Vec::new();
                tickets.push(ticket);
                self.pending_tickets.push(RoadPending { road, tickets });
                proof {
                    let s1 = old(self).pending_tickets@;
                    let e = self.pending_tickets@.last();
                    assert(self.pending_tickets@ =~= s1.push(e));
                    lemma_pending_assoc_absent_push(s1, e);
                    assert(ticket_views(e.tickets@) =~= w0.pending[road].push(t));
                    assert(self@.pending =~= enqueue_step(w0, road, t).pending);
                    assert(self@ =~= enqueue_step(w0, road, t));
                }
            },
        }
    }
}

/// The association of a road found at `i`, nothing matching earlier.
proof fn lemma_pending_assoc_at(s: Seq<RoadPending>, i: int, r: u16)
    requires
        0 <= i < s.len(),
        s[i].road == r,
        forall|k: int| 0 <= k < i ==> (#[trigger] s[k]).road != r,
    ensures
        pending_assoc(s, r) == ticket_views(s[i].tickets@),
    decreases i,
{
    if i > 0 {
        lemma_pending_assoc_at(s.drop_first(), i - 1, r);
    }
}

/// The association of a road no entry holds is empty.
proof fn lemma_pending_assoc_none(s: Seq<RoadPending>, r: u16)
    requires
        forall|k: int| 0 <= k < s.len() ==> (#[trigger] s[k]).road != r,
    ensures
        pending_assoc(s, r) == Seq::<TicketV>::empty(),
    decreases s.len(),
{
    if s.len() > 0 {
        lemma_pending_assoc_none(s.drop_first(), r);
    }
}

/// Replacing the entry at `i` by one for the same road changes only that
/// road's association, provided no earlier entry has that road.
proof fn lemma_pending_assoc_update(s1: Seq<RoadPending>, s2: Seq<RoadPending>, i: int, r: u16)
    requires
        0 <= i < s1.len(),
        s2.len() == s1.len(),
        forall|k: int| 0 <= k < s1.len() && k != i ==> s2[k] == s1[k],
        s1[i].road == r,
        s2[i].road == r,
        forall|k: int| 0 <= k < i ==> (#[trigger] s1[k]).road != r,
    ensures
        pending_assoc(s2, r) == ticket_views(s2[i].tickets@),
        forall|q: u16| q != r ==> pending_assoc(s2, q) == pending_assoc(s1, q),
{
    assert(forall|k: int| 0 <= k < i ==> (#[trigger] s2[k]).road != r);
    lemma_pending_assoc_at(s2, i, r);
    assert forall|q: u16| q != r implies pending_assoc(s2, q) == pending_assoc(s1, q) by {
        lemma_pending_assoc_other(s1, s2, i, q);
    }
}

/// An entry swap at `i` is invisible to roads other than the entry's own.
proof fn lemma_pending_assoc_other(s1: Seq<RoadPending>, s2: Seq<RoadPending>, i: int, q: u16)
    requires
        0 <= i < s1.len(),
        s2.len() == s1.len(),
        forall|k: int| 0 <= k < s1.len() && k != i ==> s2[k] == s1[k],
        s1[i].road != q,
        s2[i].road != q,
    ensures
        pending_assoc(s2, q) == pending_assoc(s1, q),
    decreases s1.len(),
{
    if s1.len() > 0 {
        if i == 0 {
            assert(s2.drop_first() =~= s1.drop_first());
        } else if s1[0].road != q {
            lemma_pending_assoc_other(s1.drop_first(), s2.drop_first(), i - 1, q);
        } else {
            assert(s2[0] == s1[0]);
        }
    }
}

/// Appending an entry for a road with no existing entry gives that road
/// the new entry's tickets and leaves every other road unchanged.
proof fn lemma_pending_assoc_absent_push(s: Seq<RoadPending>, e: RoadPending)
    requires
        forall|k: int| 0 <= k < s.len() ==> (#[trigger] s[k]).road != e.road,
    ensures
        pending_assoc(s.push(e), e.road) == ticket_views(e.tickets@),
        forall|q: u16| q != e.road ==> pending_assoc(s.push(e), q) == pending_assoc(s, q),
{
    assert(s.push(e)[s.len() as int] == e);
    assert(forall|k: int| 0 <= k < s.len() ==> s.push(e)[k] == s[k]);
    lemma_pending_assoc_at(s.push(e), s.len() as int, e.road);
    assert forall|q: u16| q != e.road implies pending_assoc(s.push(e), q) == pending_assoc(s, q) by {
        lemma_pending_assoc_push_other(s, e, q);
    }
}

proof fn lemma_pending_assoc_push_other(s: Seq<RoadPending>, e: RoadPending, q: u16)
    requires
        e.road != q,
    ensures
        pending_assoc(s.push(e), q) == pending_assoc(s, q),
    decreases s.len(),
{
    if s.len() == 0 {
        assert(s.push(e)[0] == e);
        assert(s.push(e).drop_first() =~= s);
    } else {
        assert(s.push(e)[0] == s[0]);
        assert(s.push(e).drop_first() =~= s.drop_first().push(e));
        lemma_pending_assoc_push_other(s.drop_first(), e, q);
    }
}

/// In a well-formed state, every queued ticket of the model sits in the
/// queue of its own road; the requirement of the routing law.
pub proof fn lemma_wf_pending_consistent(s: &AppState)
    requires
        s.wf(),
    ensures
        s@.pending_roads_consistent(),
{
    assert forall|r: u16, i: int| 0 <= i < s@.pending[r].len() implies (
    #[trigger] s@.pending[r][i]).road == r by {
        lemma_pending_assoc_roads(s.pending_tickets@, r, i);
    }
}

proof fn lemma_pending_assoc_roads(s: Seq<RoadPending>, r: u16, i: int)
    requires
        forall|a: int, k: int|
            0 <= a < s.len() && 0 <= k < (#[trigger] s[a]).tickets@.len() ==> (
            #[trigger] s[a].tickets@[k])@.road == s[a].road,
        0 <= i < pending_assoc(s, r).len(),
    ensures
        pending_assoc(s, r)[i].road == r,
    decreases s.len(),
{
    if s.len() > 0 {
        if s[0].road == r {
            assert(pending_assoc(s, r)[i] == s[0].tickets@[i]@);
        } else {
            assert forall|a: int, k: int|
                0 <= a < s.drop_first().len() && 0 <= k < (
                #[trigger] s.drop_first()[a]).tickets@.len() implies (
            #[trigger] s.drop_first()[a].tickets@[k])@.road == s.drop_first()[a].road by {
                assert(s.drop_first()[a] == s[a + 1]);
            }
            lemma_pending_assoc_roads(s.drop_first(), r, i);
        }
    }
}

/// Registering a dispatcher appends its id to every listed road, in list
/// order, and drains each such road's pending queue into the output, in
/// insertion order.
pub open spec fn register_step(w: WorldModel, id: u64, roads: Seq<u16>) -> (WorldModel, Seq<
    TicketV,
>)
    decreases roads.len(),
{
    if roads.len() == 0 {
        (w, Seq::empty())
    } else {
        let r = roads[0];
        let drained = w.pending[r];
        let w1 = WorldModel {
            dispatchers: w.dispatchers.insert(r, w.dispatchers[r].push(id)),
            pending: w.pending.insert(r, Seq::empty()),
            ..w
        };
        let rec = register_step(w1, id, roads.drop_first());
        (rec.0, drained + rec.1)
    }
}

/// The first index of `id` in `s`, or -1 where it does not occur.
pub open spec fn first_index_of(s: Seq<u64>, id: u64) -> int
    decreases s.len(),
{
    if s.len() == 0 {
        -1
    } else if s[0] == id {
        0
    } else {
        let r = first_index_of(s.drop_first(), id);
        if r < 0 {
            -1
        } else {
            r + 1
        }
    }
}

/// Removing the first occurrence of `id` by swapping the last element into
/// its place; the list is unchanged where `id` does not occur.
pub open spec fn remove_first_swap(s: Seq<u64>, id: u64) -> Seq<u64> {
    let i = first_index_of(s, id);
    if i < 0 {
        s
    } else {
        s.update(i, s.last()).drop_last()
    }
}

/// Unregistering removes the dispatcher's id from every listed road;
/// pending queues and everything else stay as they are.
pub open spec fn unregister_step(w: WorldModel, id: u64, roads: Seq<u16>) -> WorldModel
    decreases roads.len(),
{
    if roads.len() == 0 {
        w
    } else {
        let r = roads[0];
        let w1 = WorldModel {
            dispatchers: w.dispatchers.insert(r, remove_first_swap(w.dispatchers[r], id)),
            ..w
        };
        unregister_step(w1, id, roads.drop_first())
    }
}

impl AppState {
    /// The index of `road`'s dispatcher list, if the world holds one.
    fn find_dispatchers(&self, road: u16) -> (r: Option<usize>)
        ensures
            match r {
                Some(i) => i < self.dispatchers_on_road@.len()
                    && self.dispatchers_on_road@[i as int].road == road && forall|k: int|
                    0 <= k < i ==> (#[trigger] self.dispatchers_on_road@[k]).road != road,
                None => forall|k: int|
                    0 <= k < self.dispatchers_on_road@.len() ==> (
                    #[trigger] self.dispatchers_on_road@[k]).road != road,
            },
    {
        let n: usize = self.dispatchers_on_road.len();
        let mut i: usize = 0;
        while i < n
            invariant
                i <= n,
                n == self.dispatchers_on_road@.len(),
                forall|k: int|
                    0 <= k < i ==> (#[trigger] self.dispatchers_on_road@[k]).road != road,
            decreases n - i,
        {
            if self.dispatchers_on_road[i].road == road {
                return Some(i);
            }
            i = i + 1;
        }
        None
    }

    /// Record `id` as one more dispatcher for `road`.
    fn push_dispatcher(&mut self, road: u16, id: u64)
        requires
            old(self).wf(),
        ensures
            final(self).wf(),
            final(self)@ == (WorldModel {
                dispatchers: old(self)@.dispatchers.insert(
                    road,
                    old(self)@.dispatchers[road].push(id),
                ),
                ..old(self)@
            }),
    {
        let ghost w0 = self@;
        match self.find_dispatchers(road) {
            Some(i) => {
                proof {
                    lemma_ids_assoc_at(self.dispatchers_on_road@, i as int, road);
                }
                let mut entry = self.dispatchers_on_road.remove(i);
                entry.ids.push(id);
                self.dispatchers_on_road.insert(i, entry);
                proof {
                    let s1 = old(self).dispatchers_on_road@;
                    let s2 = self.dispatchers_on_road@;
                    assert(s2 =~= s1.update(i as int, s2[i as int]));
                    lemma_ids_assoc_update(s1, s2, i as int, road);
                }
            },
            None => {
                proof {
                    lemma_ids_assoc_none(self.dispatchers_on_road@, road);
                }
                let mut ids: Vec<u64> = Vec::new();
                ids.push(id);
                self.dispatchers_on_road.push(RoadDispatchers { road, ids });
                proof {
                    let s1 = old(self).dispatchers_on_road@;
                    let e = self.dispatchers_on_road@.last();
                    assert(self.dispatchers_on_road@ =~= s1.push(e));
                    lemma_ids_assoc_absent_push(s1, e);
                }
            },
        }
        proof {
            assert(self@.dispatchers[road] =~= w0.dispatchers[road].push(id));
            assert(self@.dispatchers =~= w0.dispatchers.insert(
                road,
                w0.dispatchers[road].push(id),
            ));
            assert(self@ =~= (WorldModel {
                dispatchers: w0.dispatchers.insert(road, w0.dispatchers[road].push(id)),
                ..w0
            }));
        }
    }

    /// Take every pending ticket of `road` out of the queue, in insertion
    /// order.
    fn drain_pending(&mut self, road: u16) -> (drained: Vec<Ticket>)
        requires
            old(self).wf(),
        ensures
            final(self).wf(),
            ticket_views(drained@) == old(self)@.pending[road],
            final(self)@ == (WorldModel {
                pending: old(self)@.pending.insert(road, Seq::empty()),
                ..old(self)@
            }),
    {
        let ghost w0 = self@;
        match self.find_pending(road) {
            Some(i) => {
                proof {
                    lemma_pending_assoc_at(self.pending_tickets@, i as int, road);
                }
                let entry = self.pending_tickets.remove(i);
                proof {
                    let s1 = old(self).pending_tickets@;
                    let s2 = self.pending_tickets@;
                    lemma_pending_assoc_none_after_remove(s1, s2, i as int, road);
                    assert(self@.pending =~= w0.pending.insert(road, Seq::empty()));
                    assert(self@ =~= (WorldModel {
                        pending: w0.pending.insert(road, Seq::empty()),
                        ..w0
                    }));
                }
                entry.tickets
            },
            None => {
                proof {
                    lemma_pending_assoc_none(self.pending_tickets@, road);
                    assert(ticket_views(Seq::<Ticket>::empty()) =~= Seq::<TicketV>::empty());
                    assert(self@.pending =~= w0.pending.insert(road, Seq::empty()));
                    assert(self@ =~= (WorldModel {
                        pending: w0.pending.insert(road, Seq::empty()),
                        ..w0
                    }));
                }
                Vec::new()
            },
        }
    }

    /// Register a dispatcher: append `id` to each road in `roads`, in
    /// order, draining each road's pending tickets into the result, which
    /// the caller delivers to this dispatcher.
    pub fn add_dispatcher(&mut self, id: u64, roads: &Vec<u16>) -> (drained: Vec<Ticket>)
        requires
            old(self).wf(),
        ensures
            final(self).wf(),
            final(self)@ == register_step(old(self)@, id, roads@).0,
            ticket_views(drained@) == register_step(old(self)@, id, roads@).1,
    {
        let ghost w0 = self@;
        let mut drained: Vec<Ticket> = Vec::new();
        let n: usize = roads.len();
        let mut j: usize = 0;
        proof {
            assert(roads@.skip(0) =~= roads@);
            assert(ticket_views(drained@) =~= Seq::<TicketV>::empty());
            assert(Seq::<TicketV>::empty() + register_step(self@, id, roads@).1 =~= register_step(
                self@,
                id,
                roads@,
            ).1);
        }
        while j < n
            invariant
                j <= n,
                n == roads@.len(),
                self.wf(),
                register_step(w0, id, roads@).0 == register_step(self@, id, roads@.skip(j as int)).0,
                register_step(w0, id, roads@).1 == ticket_views(drained@) + register_step(
                    self@,
                    id,
                    roads@.skip(j as int),
                ).1,
            decreases n - j,
        {
            let ghost w_pre = self@;
            let r: u16 = roads[j];
            self.push_dispatcher(r, id);
            let mut fresh = self.drain_pending(r);
            proof {
                assert(roads@.skip(j as int)[0] == roads@[j as int]);
                assert(roads@.skip(j as int).drop_first() =~= roads@.skip(j as int + 1));
                let w1 = WorldModel {
                    dispatchers: w_pre.dispatchers.insert(r, w_pre.dispatchers[r].push(id)),
                    pending: w_pre.pending.insert(r, Seq::empty()),
                    ..w_pre
                };
                assert(self@ =~~= w1);
                assert(ticket_views(fresh@) == w_pre.pending[r]);
                assert(ticket_views(drained@ + fresh@) =~= ticket_views(drained@) + ticket_views(
                    fresh@,
                ));
                assert(register_step(w_pre, id, roads@.skip(j as int)).0 == register_step(
                    self@,
                    id,
                    roads@.skip(j as int + 1),
                ).0);
                assert(register_step(w0, id, roads@).1 == ticket_views(drained@ + fresh@)
                    + register_step(self@, id, roads@.skip(j as int + 1)).1);
            }
            drained.append(&mut fresh);
            j = j + 1;
        }
        proof {
            assert(roads@.skip(n as int) =~= Seq::<u16>::empty());
            assert(ticket_views(drained@) + Seq::<TicketV>::empty() =~= ticket_views(drained@));
        }
        drained
    }

    /// The first index of `id` in `ids`, if it occurs.
    fn find_id(ids: &Vec<u64>, id: u64) -> (r: Option<usize>)
        ensures
            match r {
                Some(i) => i < ids@.len() && ids@[i as int] == id && forall|k: int|
                    0 <= k < i ==> ids@[k] != id,
                None => forall|k: int| 0 <= k < ids@.len() ==> ids@[k] != id,
            },
    {
        let n: usize = ids.len();
        let mut i: usize = 0;
        while i < n
            invariant
                i <= n,
                n == ids@.len(),
                forall|k: int| 0 <= k < i ==> ids@[k] != id,
            decreases n - i,
        {
            if ids[i] == id {
                return Some(i);
            }
            i = i + 1;
        }
        None
    }

    /// Unregister a dispatcher: remove `id` from each road in `roads`.
    /// Pending tickets stay queued for the next dispatcher.
    pub fn remove_dispatcher(&mut self, id: u64, roads: &Vec<u16>)
        requires
            old(self).wf(),
        ensures
            final(self).wf(),
            final(self)@ == unregister_step(old(self)@, id, roads@),
    {
        let ghost w0 = self@;
        let n: usize = roads.len();
        let mut j: usize = 0;
        proof {
            assert(roads@.skip(0) =~= roads@);
        }
        while j < n
            invariant
                j <= n,
                n == roads@.len(),
                self.wf(),
                unregister_step(w0, id, roads@) == unregister_step(
                    self@,
                    id,
                    roads@.skip(j as int),
                ),
            decreases n - j,
        {
            let ghost w_pre = self@;
            let r: u16 = roads[j];
            self.remove_one_dispatcher(r, id);
            proof {
                assert(roads@.skip(j as int)[0] == roads@[j as int]);
                assert(roads@.skip(j as int).drop_first() =~= roads@.skip(j as int + 1));
            }
            j = j + 1;
        }
        proof {
            assert(roads@.skip(n as int) =~= Seq::<u16>::empty());
        }
    }

    /// Remove the first occurrence of `id` from `road`'s dispatcher list,
    /// moving the last id into its place.
    fn remove_one_dispatcher(&mut self, road: u16, id: u64)
        requires
            old(self).wf(),
        ensures
            final(self).wf(),
            final(self)@ == (WorldModel {
                dispatchers: old(self)@.dispatchers.insert(
                    road,
                    remove_first_swap(old(self)@.dispatchers[road], id),
                ),
                ..old(self)@
            }),
    {
        let ghost w0 = self@;
        match self.find_dispatchers(road) {
            Some(i) => {
                proof {
                    lemma_ids_assoc_at(self.dispatchers_on_road@, i as int, road);
                }
                let mut entry = self.dispatchers_on_road.remove(i);
                match AppState::find_id(&entry.ids, id) {
                    Some(p) => {
                        proof {
                            lemma_first_index_found(entry.ids@, id, p as int);
                        }
                        entry.ids.swap_remove(p);
                    },
                    None => {
                        proof {
                            lemma_first_index_absent(entry.ids@, id);
                        }
                    },
                }
                self.dispatchers_on_road.insert(i, entry);
                proof {
                    let s1 = old(self).dispatchers_on_road@;
                    let s2 = self.dispatchers_on_road@;
                    assert(s2 =~= s1.update(i as int, s2[i as int]));
                    lemma_ids_assoc_update(s1, s2, i as int, road);
                    assert(s2[i as int].ids@ == remove_first_swap(w0.dispatchers[road], id));
                    assert(self@.dispatchers =~= w0.dispatchers.insert(
                        road,
                        remove_first_swap(w0.dispatchers[road], id),
                    ));
                    assert(self@ =~= (WorldModel {
                        dispatchers: w0.dispatchers.insert(
                            road,
                            remove_first_swap(w0.dispatchers[road], id),
                        ),
                        ..w0
                    }));
                }
            },
            None => {
                proof {
                    lemma_ids_assoc_none(self.dispatchers_on_road@, road);
                    lemma_first_index_absent(Seq::<u64>::empty(), id);
                    assert(remove_first_swap(w0.dispatchers[road], id) == w0.dispatchers[road]);
                    assert(self@.dispatchers =~= w0.dispatchers.insert(
                        road,
                        remove_first_swap(w0.dispatchers[road], id),
                    ));
                    assert(self@ =~= (WorldModel {
                        dispatchers: w0.dispatchers.insert(
                            road,
                            remove_first_swap(w0.dispatchers[road], id),
                        ),
                        ..w0
                    }));
                }
            },
        }
    }
}

/// A scan that stops at the first hit computes `first_index_of`.
proof fn lemma_first_index_found(s: Seq<u64>, id: u64, i: int)
    requires
        0 <= i < s.len(),
        s[i] == id,
        forall|k: int| 0 <= k < i ==> s[k] != id,
    ensures
        first_index_of(s, id) == i,
    decreases i,
{
    if i > 0 {
        lemma_first_index_found(s.drop_first(), id, i - 1);
    }
}

/// A scan that finds nothing means `first_index_of` is negative.
proof fn lemma_first_index_absent(s: Seq<u64>, id: u64)
    requires
        forall|k: int| 0 <= k < s.len() ==> s[k] != id,
    ensures
        first_index_of(s, id) == -1,
    decreases s.len(),
{
    if s.len() > 0 {
        lemma_first_index_absent(s.drop_first(), id);
    }
}

/// The association of a road found at `i`, nothing matching earlier.
proof fn lemma_ids_assoc_at(s: Seq<RoadDispatchers>, i: int, r: u16)
    requires
        0 <= i < s.len(),
        s[i].road == r,
        forall|k: int| 0 <= k < i ==> (#[trigger] s[k]).road != r,
    ensures
        ids_assoc(s, r) == s[i].ids@,
    decreases i,
{
    if i > 0 {
        lemma_ids_assoc_at(s.drop_first(), i - 1, r);
    }
}

/// The association of a road no entry holds is empty.
proof fn lemma_ids_assoc_none(s: Seq<RoadDispatchers>, r: u16)
    requires
        forall|k: int| 0 <= k < s.len() ==> (#[trigger] s[k]).road != r,
    ensures
        ids_assoc(s, r) == Seq::<u64>::empty(),
    decreases s.len(),
{
    if s.len() > 0 {
        lemma_ids_assoc_none(s.drop_first(), r);
    }
}

/// Replacing the entry at `i` by one for the same road changes only that
/// road's association, provided no earlier entry has that road.
proof fn lemma_ids_assoc_update(s1: Seq<RoadDispatchers>, s2: Seq<RoadDispatchers>, i: int, r: u16)
    requires
        0 <= i < s1.len(),
        s2.len() == s1.len(),
        forall|k: int| 0 <= k < s1.len() && k != i ==> s2[k] == s1[k],
        s1[i].road == r,
        s2[i].road == r,
        forall|k: int| 0 <= k < i ==> (#[trigger] s1[k]).road != r,
    ensures
        ids_assoc(s2, r) == s2[i].ids@,
        forall|q: u16| q != r ==> ids_assoc(s2, q) == ids_assoc(s1, q),
{
    assert(forall|k: int| 0 <= k < i ==> (#[trigger] s2[k]).road != r);
    lemma_ids_assoc_at(s2, i, r);
    assert forall|q: u16| q != r implies ids_assoc(s2, q) == ids_assoc(s1, q) by {
        lemma_ids_assoc_other(s1, s2, i, q);
    }
}

/// An entry swap at `i` is invisible to roads other than the entry's own.
proof fn lemma_ids_assoc_other(s1: Seq<RoadDispatchers>, s2: Seq<RoadDispatchers>, i: int, q: u16)
    requires
        0 <= i < s1.len(),
        s2.len() == s1.len(),
        forall|k: int| 0 <= k < s1.len() && k != i ==> s2[k] == s1[k],
        s1[i].road != q,
        s2[i].road != q,
    ensures
        ids_assoc(s2, q) == ids_assoc(s1, q),
    decreases s1.len(),
{
    if s1.len() > 0 {
        if i == 0 {
            assert(s2.drop_first() =~= s1.drop_first());
        } else if s1[0].road != q {
            lemma_ids_assoc_other(s1.drop_first(), s2.drop_first(), i - 1, q);
        } else {
            assert(s2[0] == s1[0]);
        }
    }
}

/// Appending an entry for a road with no existing entry gives that road
/// the new entry's ids and leaves every other road unchanged.
proof fn lemma_ids_assoc_absent_push(s: Seq<RoadDispatchers>, e: RoadDispatchers)
    requires
        forall|k: int| 0 <= k < s.len() ==> (#[trigger] s[k]).road != e.road,
    ensures
        ids_assoc(s.push(e), e.road) == e.ids@,
        forall|q: u16| q != e.road ==> ids_assoc(s.push(e), q) == ids_assoc(s, q),
{
    assert(s.push(e)[s.len() as int] == e);
    assert(forall|k: int| 0 <= k < s.len() ==> s.push(e)[k] == s[k]);
    lemma_ids_assoc_at(s.push(e), s.len() as int, e.road);
    assert forall|q: u16| q != e.road implies ids_assoc(s.push(e), q) == ids_assoc(s, q) by {
        lemma_ids_assoc_push_other(s, e, q);
    }
}

proof fn lemma_ids_assoc_push_other(s: Seq<RoadDispatchers>, e: RoadDispatchers, q: u16)
    requires
        e.road != q,
    ensures
        ids_assoc(s.push(e), q) == ids_assoc(s, q),
    decreases s.len(),
{
    if s.len() == 0 {
        assert(s.push(e)[0] == e);
        assert(s.push(e).drop_first() =~= s);
    } else {
        assert(s.push(e)[0] == s[0]);
        assert(s.push(e).drop_first() =~= s.drop_first().push(e));
        lemma_ids_assoc_push_other(s.drop_first(), e, q);
    }
}

/// After removing the only entry for `r`, the association of `r` is empty
/// and every other road keeps its association.
proof fn lemma_pending_assoc_none_after_remove(
    s1: Seq<RoadPending>,
    s2: Seq<RoadPending>,
    i: int,
    r: u16,
)
    requires
        0 <= i < s1.len(),
        s2 == s1.remove(i),
        s1[i].road == r,
        forall|a: int, b: int|
            0 <= a < b < s1.len() ==> (#[trigger] s1[a]).road != (#[trigger] s1[b]).road,
    ensures
        pending_assoc(s2, r) == Seq::<TicketV>::empty(),
        forall|q: u16| q != r ==> pending_assoc(s2, q) == pending_assoc(s1, q),
{
    assert(forall|k: int| 0 <= k < s2.len() ==> (#[trigger] s2[k]).road != r);
    lemma_pending_assoc_none(s2, r);
    assert forall|q: u16| q != r implies pending_assoc(s2, q) == pending_assoc(s1, q) by {
        lemma_pending_assoc_remove_other(s1, i, q);
    }
}

/// Removing an entry is invisible to roads other than the entry's own.
proof fn lemma_pending_assoc_remove_other(s: Seq<RoadPending>, i: int, q: u16)
    requires
        0 <= i < s.len(),
        s[i].road != q,
    ensures
        pending_assoc(s.remove(i), q) == pending_assoc(s, q),
    decreases s.len(),
{
    if i == 0 {
        assert(s.remove(0) =~= s.drop_first());
    } else {
        assert(s.remove(i)[0] == s[0]);
        if s[0].road != q {
            assert(s.remove(i).drop_first() =~= s.drop_first().remove(i - 1));
            lemma_pending_assoc_remove_other(s.drop_first(), i - 1, q);
        }
    }
}

/// Clamp a nonnegative value into 16 bits.
pub open spec fn clamp16(x: int) -> u16 {
    if x > 0xFFFF {
        0xFFFF
    } else {
        x as u16
    }
}

/// The distance between two mile markers.
pub open spec fn mile_gap(a: u16, b: u16) -> int {
    if a >= b {
        a - b
    } else {
        b - a
    }
}

/// The candidate ticket for a new observation `(ts, mile)` against an
/// existing report, under the reporting camera's `limit`. The earlier
/// observation supplies `(timestamp1, mile1)`. No ticket when the
/// timestamps are equal or the average speed does not exceed the limit;
/// the stored speed is miles per hour times 100, truncated, clamped to
/// 16 bits.
pub open spec fn pair_ticket(
    road: u16,
    mile: u16,
    limit: u16,
    plate: Seq<u8>,
    ts: u32,
    rep: PlateReport,
) -> Option<TicketV> {
    if ts == rep.timestamp {
        None
    } else {
        let ts1 = if ts < rep.timestamp {
            ts
        } else {
            rep.timestamp
        };
        let m1 = if ts < rep.timestamp {
            mile
        } else {
            rep.mile
        };
        let ts2 = if ts < rep.timestamp {
            rep.timestamp
        } else {
            ts
        };
        let m2 = if ts < rep.timestamp {
            rep.mile
        } else {
            mile
        };
        let d = mile_gap(mile, rep.mile);
        let dt = ts2 - ts1;
        if d * 3600 > (limit as int) * dt {
            Some(
                TicketV {
                    plate,
                    road,
                    mile1: m1,
                    timestamp1: ts1,
                    mile2: m2,
                    timestamp2: ts2,
                    speed: clamp16(d * 360000 / dt),
                },
            )
        } else {
            None
        }
    }
}

/// All (plate, day) pairs with `lo <= day <= hi`.
pub open spec fn day_range(plate: Seq<u8>, lo: int, hi: int) -> Set<(Seq<u8>, u32)> {
    Set::new(|p: (Seq<u8>, u32)| p.0 == plate && lo <= p.1 <= hi)
}

/// The calendar days a ticket covers, paired with its plate.
pub open spec fn ticket_days(t: TicketV) -> Set<(Seq<u8>, u32)> {
    day_range(t.plate, (t.timestamp1 / 86400) as int, (t.timestamp2 / 86400) as int)
}

/// Routing: deliver to the first dispatcher registered for the road, or
/// queue the ticket for the road when none is registered.
pub open spec fn route_step(w: WorldModel, road: u16, t: TicketV) -> (WorldModel, RoutedTicketV) {
    if w.dispatchers[road].len() > 0 {
        (w, RoutedTicketV { ticket: t, dispatcher: Some(w.dispatchers[road][0]) })
    } else {
        (enqueue_step(w, road, t), RoutedTicketV { ticket: t, dispatcher: None })
    }
}

/// Adjudicate one observation pair: form the candidate ticket, drop it if
/// either boundary day is already ledgered for the plate, otherwise mark
/// every covered day and route the ticket.
pub open spec fn adjudicate_step(
    w: WorldModel,
    road: u16,
    mile: u16,
    limit: u16,
    plate: Seq<u8>,
    ts: u32,
    rep: PlateReport,
) -> (WorldModel, Seq<RoutedTicketV>) {
    match pair_ticket(road, mile, limit, plate, ts, rep) {
        Option::None => (w, Seq::empty()),
        Option::Some(t) => {
            if w.days.contains((plate, t.timestamp1 / 86400)) || w.days.contains(
                (plate, t.timestamp2 / 86400),
            ) {
                (w, Seq::empty())
            } else {
                let w1 = WorldModel { days: w.days + ticket_days(t), ..w };
                let routed = route_step(w1, road, t);
                (routed.0, seq![routed.1])
            }
        },
    }
}

/// Evaluate the new observation against each existing report in insertion
/// order, the world evolving as tickets are issued.
pub open spec fn report_iter(
    w: WorldModel,
    road: u16,
    mile: u16,
    limit: u16,
    plate: Seq<u8>,
    ts: u32,
    reps: Seq<PlateReport>,
) -> (WorldModel, Seq<RoutedTicketV>)
    decreases reps.len(),
{
    if reps.len() == 0 {
        (w, Seq::empty())
    } else {
        let a = adjudicate_step(w, road, mile, limit, plate, ts, reps[0]);
        let b = report_iter(a.0, road, mile, limit, plate, ts, reps.drop_first());
        (b.0, a.1 + b.1)
    }
}

/// A full plate report: adjudicate against every pre-existing observation
/// of the same (road, plate), then append the new observation.
pub open spec fn report_step(
    w: WorldModel,
    road: u16,
    mile: u16,
    limit: u16,
    plate: Seq<u8>,
    ts: u32,
) -> (WorldModel, Seq<RoutedTicketV>) {
    let reps = w.observations[(road, plate)];
    let it = report_iter(w, road, mile, limit, plate, ts, reps);
    (
        WorldModel {
            observations: it.0.observations.insert(
                (road, plate),
                reps.push(PlateReport { timestamp: ts, mile }),
            ),
            ..it.0
        },
        it.1,
    )
}

/// Byte-string equality.
fn bytes_eq(a: &Vec<u8>, b: &Vec<u8>) -> (r: bool)
    ensures
        r == (a@ == b@),
{
    if a.len() != b.len() {
        assert(a@ != b@);
        return false;
    }
    let n: usize = a.len();
    let mut i: usize = 0;
    while i < n
        invariant
            i <= n,
            n == a@.len(),
            n == b@.len(),
            forall|k: int| 0 <= k < i ==> a@[k] == b@[k],
        decreases n - i,
    {
        if a[i] != b[i] {
            return false;
        }
        i = i + 1;
    }
    proof {
        assert(a@ =~= b@);
    }
    true
}

/// Copy of a byte string.
fn copy_plate(v: &Vec<u8>) -> (r: Vec<u8>)
    ensures
        r@ == v@,
{
    let mut r: Vec<u8> = Vec::new();
    let n: usize = v.len();
    let mut i: usize = 0;
    while i < n
        invariant
            i <= n,
            n == v@.len(),
            r@ == v@.take(i as int),
        decreases n - i,
    {
        r.push(v[i]);
        assert(r@ =~= v@.take(i + 1));
        i = i + 1;
    }
    proof {
        assert(v@.take(n as int) =~= v@);
    }
    r
}

impl AppState {
    /// The index of the observation list of `(road, plate)`, if any.
    fn find_car(&self, road: u16, plate: &Vec<u8>) -> (r: Option<usize>)
        ensures
            match r {
                Some(i) => i < self.cars_on_road@.len() && self.cars_on_road@[i as int].road == road
                    && self.cars_on_road@[i as int].plate@ == plate@ && forall|k: int|
                    0 <= k < i ==> !((#[trigger] self.cars_on_road@[k]).road == road
                        && self.cars_on_road@[k].plate@ == plate@),
                None => forall|k: int|
                    0 <= k < self.cars_on_road@.len() ==> !((#[trigger] self.cars_on_road@[k]).road
                        == road && self.cars_on_road@[k].plate@ == plate@),
            },
    {
        let n: usize = self.cars_on_road.len();
        let mut i: usize = 0;
        while i < n
            invariant
                i <= n,
                n == self.cars_on_road@.len(),
                forall|k: int|
                    0 <= k < i ==> !((#[trigger] self.cars_on_road@[k]).road == road
                        && self.cars_on_road@[k].plate@ == plate@),
            decreases n - i,
        {
            if self.cars_on_road[i].road == road && bytes_eq(&self.cars_on_road[i].plate, plate) {
                return Some(i);
            }
            i = i + 1;
        }
        None
    }

    /// A copy of the observations recorded for `(road, plate)`.
    fn get_reports(&self, road: u16, plate: &Vec<u8>) -> (v: Vec<PlateReport>)
        ensures
            v@ == self@.observations[(road, plate@)],
    {
        match self.find_car(road, plate) {
            Some(i) => {
                proof {
                    lemma_reports_assoc_at(self.cars_on_road@, i as int, road, plate@);
                }
                let entry = &self.cars_on_road[i];
                let n: usize = entry.reports.len();
                let mut v: Vec<PlateReport> = Vec::new();
                let mut k: usize = 0;
                while k < n
                    invariant
                        k <= n,
                        n == entry.reports@.len(),
                        v@ == entry.reports@.take(k as int),
                    decreases n - k,
                {
                    v.push(entry.reports[k]);
                    assert(v@ =~= entry.reports@.take(k + 1));
                    k = k + 1;
                }
                proof {
                    assert(entry.reports@.take(n as int) =~= entry.reports@);
                }
                v
            },
            None => {
                proof {
                    lemma_reports_assoc_none(self.cars_on_road@, road, plate@);
                }
                Vec::new()
            },
        }
    }

    /// Append one observation to the list of `(road, plate)`.
    fn push_report(&mut self, road: u16, plate: &Vec<u8>, rep: PlateReport)
        requires
            old(self).wf(),
        ensures
            final(self).wf(),
            final(self)@ == (WorldModel {
                observations: old(self)@.observations.insert(
                    (road, plate@),
                    old(self)@.observations[(road, plate@)].push(rep),
                ),
                ..old(self)@
            }),
    {
        let ghost w0 = self@;
        match self.find_car(road, plate) {
            Some(i) => {
                proof {
                    lemma_reports_assoc_at(self.cars_on_road@, i as int, road, plate@);
                }
                let mut entry = self.cars_on_road.remove(i);
                entry.reports.push(rep);
                self.cars_on_road.insert(i, entry);
                proof {
                    let s1 = old(self).cars_on_road@;
                    let s2 = self.cars_on_road@;
                    assert(s2 =~= s1.update(i as int, s2[i as int]));
                    lemma_reports_assoc_update(s1, s2, i as int, road, plate@);
                    assert(self@.observations =~= w0.observations.insert(
                        (road, plate@),
                        w0.observations[(road, plate@)].push(rep),
                    ));
                    assert(self@ =~= (WorldModel {
                        observations: w0.observations.insert(
                            (road, plate@),
                            w0.observations[(road, plate@)].push(rep),
                        ),
                        ..w0
                    }));
                }
            },
            None => {
                proof {
                    lemma_reports_assoc_none(self.cars_on_road@, road, plate@);
                }
                let mut reports: Vec<PlateReport> = Vec::new();
                reports.push(rep);
                self.cars_on_road.push(CarReports { road, plate: copy_plate(plate), reports });
                proof {
                    let s1 = old(self).cars_on_road@;
                    let e = self.cars_on_road@.last();
                    assert(self.cars_on_road@ =~= s1.push(e));
                    lemma_reports_assoc_absent_push(s1, e);
                    assert(e.reports@ =~= w0.observations[(road, plate@)].push(rep));
                    assert(self@.observations =~= w0.observations.insert(
                        (road, plate@),
                        w0.observations[(road, plate@)].push(rep),
                    ));
                    assert(self@ =~= (WorldModel {
                        observations: w0.observations.insert(
                            (road, plate@),
                            w0.observations[(road, plate@)].push(rep),
                        ),
                        ..w0
                    }));
                }
            },
        }
    }

    /// Whether a ticket already covers `day` for `plate`.
    fn contains_day(&self, plate: &Vec<u8>, day: u32) -> (r: bool)
        ensures
            r == self@.days.contains((plate@, day)),
    {
        let n: usize = self.tickets_per_day.len();
        let mut i: usize = 0;
        while i < n
            invariant
                i <= n,
                n == self.tickets_per_day@.len(),
                forall|k: int|
                    0 <= k < i ==> !((#[trigger] self.tickets_per_day@[k]).plate@ == plate@
                        && self.tickets_per_day@[k].day == day),
            decreases n - i,
        {
            if self.tickets_per_day[i].day == day && bytes_eq(&self.tickets_per_day[i].plate, plate) {
                return true;
            }
            i = i + 1;
        }
        false
    }

    /// Mark every day from `d1` through `d2` as ticketed for `plate`.
    fn mark_days(&mut self, plate: &Vec<u8>, d1: u32, d2: u32)
        requires
            old(self).wf(),
            d1 <= d2,
            d2 < 0xFFFF_FFFFu32,
        ensures
            final(self).wf(),
            final(self)@ == (WorldModel {
                days: old(self)@.days + day_range(plate@, d1 as int, d2 as int),
                ..old(self)@
            }),
    {
        let ghost w0 = self@;
        let ghost ledger0 = self.tickets_per_day@;
        let n: u32 = d2 - d1;
        let mut i: u32 = 0;
        while i <= n
            invariant
                i <= n + 1,
                n == d2 - d1,
                d1 <= d2,
                d2 < 0xFFFF_FFFFu32,
                self.dispatchers_on_road == old(self).dispatchers_on_road,
                self.pending_tickets == old(self).pending_tickets,
                self.cars_on_road == old(self).cars_on_road,
                forall|p: (Seq<u8>, u32)|
                    day_in(self.tickets_per_day@, p.0, p.1) == (day_in(ledger0, p.0, p.1) || (p.0
                        == plate@ && d1 <= p.1 < d1 + i)),
            decreases n + 1 - i,
        {
            let entry = DayEntry { plate: copy_plate(plate), day: d1 + i };
            let ghost pre = self.tickets_per_day@;
            self.tickets_per_day.push(entry);
            proof {
                let s2 = self.tickets_per_day@;
                let e = s2.last();
                assert(s2 =~= pre.push(e));
                assert forall|p: (Seq<u8>, u32)|
                    day_in(s2, p.0, p.1) == (day_in(ledger0, p.0, p.1) || (p.0 == plate@ && d1
                        <= p.1 < d1 + i + 1)) by {
                    lemma_day_in_push(pre, e, p.0, p.1);
                }
            }
            i = i + 1;
        }
        proof {
            assert(self@.days =~= w0.days + day_range(plate@, d1 as int, d2 as int));
            assert(self@.dispatchers =~= w0.dispatchers);
            assert(self@.pending =~= w0.pending);
            assert(self@.observations =~= w0.observations);
            assert(self@ =~= (WorldModel {
                days: w0.days + day_range(plate@, d1 as int, d2 as int),
                ..w0
            }));
        }
    }

    /// The first dispatcher registered for `road`, if any.
    fn first_dispatcher(&self, road: u16) -> (r: Option<u64>)
        ensures
            match r {
                Some(id) => self@.dispatchers[road].len() > 0 && id == self@.dispatchers[road][0],
                None => self@.dispatchers[road].len() == 0,
            },
    {
        match self.find_dispatchers(road) {
            Some(i) => {
                proof {
                    lemma_ids_assoc_at(self.dispatchers_on_road@, i as int, road);
                }
                let entry = &self.dispatchers_on_road[i];
                if entry.ids.len() > 0 {
                    Some(entry.ids[0])
                } else {
                    None
                }
            },
            None => {
                proof {
                    lemma_ids_assoc_none(self.dispatchers_on_road@, road);
                }
                None
            },
        }
    }
}

impl AppState {
    /// Record a plate observation from a camera at `(road, mile)` with
    /// authoritative speed `limit`: adjudicate a ticket against every
    /// pre-existing observation of the same (road, plate) in insertion
    /// order, then append the new observation. Each issued ticket is
    /// routed: handed back with the first registered dispatcher's id for
    /// the caller to deliver, or queued pending a dispatcher.
    pub fn report_plate(&mut self, road: u16, mile: u16, limit: u16, plate: &Vec<u8>, timestamp: u32) -> (out: Vec<
        RoutedTicket,
    >)
        requires
            old(self).wf(),
        ensures
            final(self).wf(),
            final(self)@ == report_step(old(self)@, road, mile, limit, plate@, timestamp).0,
            routed_views(out@) == report_step(old(self)@, road, mile, limit, plate@, timestamp).1,
    {
        let ghost w0 = self@;
        let existing: Vec<PlateReport> = self.get_reports(road, plate);
        let ghost reps = existing@;
        let mut out: Vec<RoutedTicket> = Vec::new();
        let n: usize = existing.len();
        let mut i: usize = 0;
        proof {
            assert(reps.skip(0) =~= reps);
            assert(routed_views(out@) =~= Seq::<RoutedTicketV>::empty());
            assert(Seq::<RoutedTicketV>::empty() + report_iter(
                self@,
                road,
                mile,
                limit,
                plate@,
                timestamp,
                reps,
            ).1 =~= report_iter(self@, road, mile, limit, plate@, timestamp, reps).1);
        }
        while i < n
            invariant
                i <= n,
                n == reps.len(),
                existing@ == reps,
                self.wf(),
                self@.observations == w0.observations,
                report_iter(w0, road, mile, limit, plate@, timestamp, reps).0 == report_iter(
                    self@,
                    road,
                    mile,
                    limit,
                    plate@,
                    timestamp,
                    reps.skip(i as int),
                ).0,
                report_iter(w0, road, mile, limit, plate@, timestamp, reps).1 == routed_views(out@)
                    + report_iter(self@, road, mile, limit, plate@, timestamp, reps.skip(i as int)).1,
            decreases n - i,
        {
            let rep: PlateReport = existing[i];
            let ghost w_pre = self@;
            let ghost out0 = out@;
            proof {
                assert(reps.skip(i as int)[0] == reps[i as int]);
                assert(reps.skip(i as int).drop_first() =~= reps.skip(i as int + 1));
            }
            if timestamp != rep.timestamp {
                let ts1: u32 = if timestamp < rep.timestamp { timestamp } else { rep.timestamp };
                let m1: u16 = if timestamp < rep.timestamp { mile } else { rep.mile };
                let ts2: u32 = if timestamp < rep.timestamp { rep.timestamp } else { timestamp };
                let m2: u16 = if timestamp < rep.timestamp { rep.mile } else { mile };
                let d: u16 = if mile >= rep.mile {
                    mile - rep.mile
                } else {
                    rep.mile - mile
                };
                let dt: u32 = ts2 - ts1;
                proof {
                    assert((limit as u64) * (dt as u64) <= 65535u64 * 4294967295u64) by (nonlinear_arith)
                        requires limit <= 65535u64 && dt <= 4294967295u64;
                }
                if (d as u64) * 3600 > (limit as u64) * (dt as u64) {
                    let ghost tv = pair_ticket(road, mile, limit, plate@, timestamp, rep)->Some_0;
                    let d1: u32 = ts1 / 86400;
                    let d2: u32 = ts2 / 86400;
                    proof {
                        assert(tv.timestamp1 == ts1 && tv.timestamp2 == ts2);
                        assert(d1 <= d2) by (nonlinear_arith)
                            requires ts1 <= ts2 && d1 == ts1 / 86400 && d2 == ts2 / 86400;
                        assert(d2 < 0xFFFF_FFFFu32) by (nonlinear_arith)
                            requires d2 == ts2 / 86400 && ts2 <= 4294967295u32;
                    }
                    if !self.contains_day(plate, d1) && !self.contains_day(plate, d2) {
                        self.mark_days(plate, d1, d2);
                        let ghost w1 = self@;
                        proof {
                            assert(w1 == (WorldModel {
                                days: w_pre.days + ticket_days(tv),
                                ..w_pre
                            }));
                        }
                        let q: u64 = (d as u64) * 360000 / (dt as u64);
                        let speed: u16 = if q > 0xFFFF {
                            0xFFFF
                        } else {
                            q as u16
                        };
                        proof {
                            assert(speed == tv.speed);
                        }
                        let ticket = Ticket {
                            plate: copy_plate(plate),
                            road,
                            mile1: m1,
                            timestamp1: ts1,
                            mile2: m2,
                            timestamp2: ts2,
                            speed,
                        };
                        proof {
                            assert(ticket@ == tv);
                        }
                        let ghost out_pre = out@;
                        match self.first_dispatcher(road) {
                            Some(did) => {
                                out.push(RoutedTicket { ticket, dispatcher: Some(did) });
                            },
                            None => {
                                let queued = Ticket {
                                    plate: copy_plate(plate),
                                    road,
                                    mile1: m1,
                                    timestamp1: ts1,
                                    mile2: m2,
                                    timestamp2: ts2,
                                    speed,
                                };
                                proof {
                                    assert(queued@ == tv);
                                }
                                self.add_pending_ticket(road, queued);
                                out.push(RoutedTicket { ticket, dispatcher: None });
                            },
                        }
                        proof {
                            let a = adjudicate_step(w_pre, road, mile, limit, plate@, timestamp, rep);
                            assert(self@ =~~= a.0);
                            assert(routed_views(out@) =~= routed_views(out_pre) + a.1);
                        }
                    } else {
                        proof {
                            let a = adjudicate_step(w_pre, road, mile, limit, plate@, timestamp, rep);
                            assert(a.0 == w_pre && a.1 =~= Seq::<RoutedTicketV>::empty());
                        }
                    }
                } else {
                    proof {
                        assert(pair_ticket(road, mile, limit, plate@, timestamp, rep) is None);
                    }
                }
            } else {
                proof {
                    assert(pair_ticket(road, mile, limit, plate@, timestamp, rep) is None);
                }
            }
            proof {
                let a = adjudicate_step(w_pre, road, mile, limit, plate@, timestamp, rep);
                let rest0 = reps.skip(i as int);
                let rest1 = reps.skip(i as int + 1);
                assert(a.0 == self@);
                assert(routed_views(out@) =~= routed_views(out0) + a.1);
                assert(report_iter(w_pre, road, mile, limit, plate@, timestamp, rest0).0
                    == report_iter(a.0, road, mile, limit, plate@, timestamp, rest1).0);
                assert(report_iter(w_pre, road, mile, limit, plate@, timestamp, rest0).1 == a.1
                    + report_iter(a.0, road, mile, limit, plate@, timestamp, rest1).1);
                assert((routed_views(out0) + a.1) + report_iter(
                    self@,
                    road,
                    mile,
                    limit,
                    plate@,
                    timestamp,
                    rest1,
                ).1 =~= routed_views(out0) + (a.1 + report_iter(
                    self@,
                    road,
                    mile,
                    limit,
                    plate@,
                    timestamp,
                    rest1,
                ).1));
            }
            i = i + 1;
        }
        proof {
            assert(reps.skip(n as int) =~= Seq::<PlateReport>::empty());
            assert(routed_views(out@) + Seq::<RoutedTicketV>::empty() =~= routed_views(out@));
        }
        self.push_report(road, plate, PlateReport { timestamp, mile });
        proof {
            let st = report_step(w0, road, mile, limit, plate@, timestamp);
            assert(self@ =~~= st.0);
        }
        out
    }
}

/// Appending a ledger entry adds exactly that (plate, day) pair.
proof fn lemma_day_in_push(s: Seq<DayEntry>, e: DayEntry, plate: Seq<u8>, day: u32)
    ensures
        day_in(s.push(e), plate, day) == (day_in(s, plate, day) || (e.plate@ == plate && e.day
            == day)),
{
    if day_in(s, plate, day) {
        let i = choose|i: int|
            0 <= i < s.len() && (#[trigger] s[i]).plate@ == plate && s[i].day == day;
        assert(s.push(e)[i] == s[i]);
    }
    if e.plate@ == plate && e.day == day {
        assert(s.push(e)[s.len() as int] == e);
    }
    if day_in(s.push(e), plate, day) {
        let i = choose|i: int|
            0 <= i < s.push(e).len() && (#[trigger] s.push(e)[i]).plate@ == plate && s.push(
                e,
            )[i].day == day;
        if i < s.len() {
            assert(s[i] == s.push(e)[i]);
        }
    }
}

/// The association of a key found at `i`, nothing matching earlier.
proof fn lemma_reports_assoc_at(s: Seq<CarReports>, i: int, road: u16, plate: Seq<u8>)
    requires
        0 <= i < s.len(),
        s[i].road == road,
        s[i].plate@ == plate,
        forall|k: int|
            0 <= k < i ==> !((#[trigger] s[k]).road == road && s[k].plate@ == plate),
    ensures
        reports_assoc(s, road, plate) == s[i].reports@,
    decreases i,
{
    if i > 0 {
        lemma_reports_assoc_at(s.drop_first(), i - 1, road, plate);
    }
}

/// The association of a key no entry holds is empty.
proof fn lemma_reports_assoc_none(s: Seq<CarReports>, road: u16, plate: Seq<u8>)
    requires
        forall|k: int| 0 <= k < s.len() ==> !((#[trigger] s[k]).road == road && s[k].plate@ == plate),
    ensures
        reports_assoc(s, road, plate) == Seq::<PlateReport>::empty(),
    decreases s.len(),
{
    if s.len() > 0 {
        lemma_reports_assoc_none(s.drop_first(), road, plate);
    }
}

/// Replacing the entry at `i` by one for the same key changes only that
/// key's association, provided no earlier entry has that key.
proof fn lemma_reports_assoc_update(
    s1: Seq<CarReports>,
    s2: Seq<CarReports>,
    i: int,
    road: u16,
    plate: Seq<u8>,
)
    requires
        0 <= i < s1.len(),
        s2.len() == s1.len(),
        forall|k: int| 0 <= k < s1.len() && k != i ==> s2[k] == s1[k],
        s1[i].road == road,
        s1[i].plate@ == plate,
        s2[i].road == road,
        s2[i].plate@ == plate,
        forall|k: int|
            0 <= k < i ==> !((#[trigger] s1[k]).road == road && s1[k].plate@ == plate),
    ensures
        reports_assoc(s2, road, plate) == s2[i].reports@,
        forall|q: (u16, Seq<u8>)|
            !(q.0 == road && q.1 == plate) ==> reports_assoc(s2, q.0, q.1) == reports_assoc(
                s1,
                q.0,
                q.1,
            ),
{
    assert(forall|k: int|
        0 <= k < i ==> !((#[trigger] s2[k]).road == road && s2[k].plate@ == plate));
    lemma_reports_assoc_at(s2, i, road, plate);
    assert forall|q: (u16, Seq<u8>)| !(q.0 == road && q.1 == plate) implies reports_assoc(
        s2,
        q.0,
        q.1,
    ) == reports_assoc(s1, q.0, q.1) by {
        lemma_reports_assoc_other(s1, s2, i, q.0, q.1);
    }
}

/// An entry swap at `i` is invisible to other keys.
proof fn lemma_reports_assoc_other(
    s1: Seq<CarReports>,
    s2: Seq<CarReports>,
    i: int,
    road: u16,
    plate: Seq<u8>,
)
    requires
        0 <= i < s1.len(),
        s2.len() == s1.len(),
        forall|k: int| 0 <= k < s1.len() && k != i ==> s2[k] == s1[k],
        !(s1[i].road == road && s1[i].plate@ == plate),
        !(s2[i].road == road && s2[i].plate@ == plate),
    ensures
        reports_assoc(s2, road, plate) == reports_assoc(s1, road, plate),
    decreases s1.len(),
{
    if s1.len() > 0 {
        if i == 0 {
            assert(s2.drop_first() =~= s1.drop_first());
        } else if !(s1[0].road == road && s1[0].plate@ == plate) {
            lemma_reports_assoc_other(s1.drop_first(), s2.drop_first(), i - 1, road, plate);
        } else {
            assert(s2[0] == s1[0]);
        }
    }
}

/// Appending an entry for a key with no existing entry gives that key the
/// new entry's reports and leaves every other key unchanged.
proof fn lemma_reports_assoc_absent_push(s: Seq<CarReports>, e: CarReports)
    requires
        forall|k: int|
            0 <= k < s.len() ==> !((#[trigger] s[k]).road == e.road && s[k].plate@ == e.plate@),
    ensures
        reports_assoc(s.push(e), e.road, e.plate@) == e.reports@,
        forall|q: (u16, Seq<u8>)|
            !(q.0 == e.road && q.1 == e.plate@) ==> reports_assoc(s.push(e), q.0, q.1)
                == reports_assoc(s, q.0, q.1),
{
    assert(s.push(e)[s.len() as int] == e);
    assert(forall|k: int| 0 <= k < s.len() ==> s.push(e)[k] == s[k]);
    lemma_reports_assoc_at(s.push(e), s.len() as int, e.road, e.plate@);
    assert forall|q: (u16, Seq<u8>)| !(q.0 == e.road && q.1 == e.plate@) implies reports_assoc(
        s.push(e),
        q.0,
        q.1,
    ) == reports_assoc(s, q.0, q.1) by {
        lemma_reports_assoc_push_other(s, e, q.0, q.1);
    }
}

proof fn lemma_reports_assoc_push_other(s: Seq<CarReports>, e: CarReports, road: u16, plate: Seq<u8>)
    requires
        !(e.road == road && e.plate@ == plate),
    ensures
        reports_assoc(s.push(e), road, plate) == reports_assoc(s, road, plate),
    decreases s.len(),
{
    if s.len() == 0 {
        assert(s.push(e)[0] == e);
        assert(s.push(e).drop_first() =~= s);
    } else {
        assert(s.push(e)[0] == s[0]);
        assert(s.push(e).drop_first() =~= s.drop_first().push(e));
        lemma_reports_assoc_push_other(s.drop_first(), e, road, plate);
    }
}

/// The Ticket frame for an adjudicated ticket.
pub open spec fn ticket_msg(t: TicketV) -> MsgV {
    MsgV::Ticket {
        plate: t.plate,
        road: t.road,
        mile1: t.mile1,
        timestamp1: t.timestamp1,
        mile2: t.mile2,
        timestamp2: t.timestamp2,
        speed: t.speed,
    }
}

/// The Ticket frames for a ticket list.
pub open spec fn ticket_msgs(s: Seq<TicketV>) -> Seq<MsgV> {
    s.map_values(|t: TicketV| ticket_msg(t))
}

/// The views of a message list.
pub open spec fn msg_views(s: Seq<SDMessage>) -> Seq<MsgV> {
    s.map_values(|m: SDMessage| m@)
}

impl Ticket {
    /// The Ticket protocol message carrying this ticket.
    pub fn to_message(&self) -> (m: SDMessage)
        ensures
            m@ == ticket_msg(self@),
    {
        SDMessage::Ticket {
            plate: copy_plate(&self.plate),
            road: self.road,
            mile1: self.mile1,
            timestamp1: self.timestamp1,
            mile2: self.mile2,
            timestamp2: self.timestamp2,
            speed: self.speed,
        }
    }
}

/// What one inbound message obliges the surrounding process to do: frames
/// owed to this connection, tickets to deliver to dispatcher connections,
/// a heartbeat task to start, and whether to close the connection.
#[derive(Debug)]
pub struct ServerOutput {
    pub to_client: Vec<SDMessage>,
    pub routed: Vec<RoutedTicket>,
    pub heartbeat: Option<u32>,
    pub close: bool,
}

/// A disconnect unregisters a dispatcher's roads; other connections leave
/// the world untouched.
pub open spec fn disconnect_step(w: WorldModel, id: u64, c: ClientV) -> WorldModel {
    match c.roads {
        Some(roads) => unregister_step(w, id, roads),
        None => w,
    }
}

/// The server core: the shared world, driven one session event at a time.
#[derive(Debug)]
pub struct SpeedDaemonServer {
    state: AppState,
}

impl View for SpeedDaemonServer {
    type V = WorldModel;

    closed spec fn view(&self) -> WorldModel {
        self.state@
    }
}

impl SpeedDaemonServer {
    /// The world is well formed.
    pub closed spec fn wf(&self) -> bool {
        self.state.wf()
    }

    /// A server over an empty world.
    pub fn new() -> (s: SpeedDaemonServer)
        ensures
            s.wf(),
            s@ == WorldModel::init(),
    {
        SpeedDaemonServer { state: AppState::new() }
    }

    /// Feed one inbound message of connection `id` through its session and
    /// apply the resulting action to the world. The caller writes
    /// `to_client` to this connection, sends each routed ticket to the
    /// dispatcher connection named in it (falling back to
    /// [`Self::add_pending_ticket`] when that fails), starts a heartbeat
    /// task when asked, and closes the connection when told to.
    pub fn handle_message(&mut self, client: &mut Client, id: u64, msg: SDMessage) -> (out:
        ServerOutput)
        requires
            old(self).wf(),
            !old(client)@.closed,
        ensures
            final(self).wf(),
            final(client)@ == session_step(old(client)@, msg@).0,
            ({
                let act = session_step(old(client)@, msg@).1;
                match act {
                    ActionV::Proceed => final(self)@ == old(self)@ && out.to_client@.len() == 0
                        && out.routed@.len() == 0 && out.heartbeat is None && !out.close,
                    ActionV::Register { roads } => final(self)@ == register_step(
                        old(self)@,
                        id,
                        roads,
                    ).0 && msg_views(out.to_client@) == ticket_msgs(
                        register_step(old(self)@, id, roads).1,
                    ) && out.routed@.len() == 0 && out.heartbeat is None && !out.close,
                    ActionV::Report { road, mile, limit, plate, timestamp } => final(self)@
                        == report_step(old(self)@, road, mile, limit, plate, timestamp).0
                        && routed_views(out.routed@) == report_step(
                        old(self)@,
                        road,
                        mile,
                        limit,
                        plate,
                        timestamp,
                    ).1 && out.to_client@.len() == 0 && out.heartbeat is None && !out.close,
                    ActionV::StartHeartbeat { interval } => final(self)@ == old(self)@
                        && out.heartbeat == Some(interval) && out.to_client@.len() == 0
                        && out.routed@.len() == 0 && !out.close,
                    ActionV::Reject { msg: emsg } => final(self)@ == old(self)@ && msg_views(
                        out.to_client@,
                    ) == seq![MsgV::Error { msg: emsg }] && out.routed@.len() == 0
                        && out.heartbeat is None && out.close,
                }
            }),
    {
        let act = client.process_msg(msg);
        match act {
            SessionAction::Proceed => {
                proof {
                    assert(msg_views(Seq::<SDMessage>::empty()) =~= Seq::<MsgV>::empty());
                }
                ServerOutput { to_client: Vec::new(), routed: Vec::new(), heartbeat: None, close: false }
            },
            SessionAction::Register { roads } => {
                let drained = self.state.add_dispatcher(id, &roads);
                let ghost dv = register_step(old(self)@, id, roads@).1;
                let mut to_client: Vec<SDMessage> = Vec::new();
                let n: usize = drained.len();
                let mut k: usize = 0;
                proof {
                    assert(msg_views(to_client@) =~= ticket_msgs(ticket_views(drained@).take(0)));
                }
                while k < n
                    invariant
                        k <= n,
                        n == drained@.len(),
                        ticket_views(drained@) == dv,
                        msg_views(to_client@) == ticket_msgs(ticket_views(drained@).take(k as int)),
                    decreases n - k,
                {
                    let ghost tc0 = to_client@;
                    to_client.push(drained[k].to_message());
                    proof {
                        let tv = ticket_views(drained@);
                        let m = to_client@.last();
                        assert(to_client@ == tc0.push(m));
                        assert(tv[k as int] == drained@[k as int]@);
                        assert(m@ == ticket_msg(tv[k as int]));
                        tc0.lemma_push_map_commute(|x: SDMessage| x@, m);
                        tv.lemma_map_take_succ(|t: TicketV| ticket_msg(t), k as int);
                        assert(msg_views(to_client@) == msg_views(tc0).push(m@));
                        assert(ticket_msgs(tv.take(k as int + 1)) == ticket_msgs(
                            tv.take(k as int),
                        ).push(ticket_msg(tv[k as int])));
                        assert(msg_views(to_client@) == ticket_msgs(tv.take(k as int + 1)));
                    }
                    k = k + 1;
                }
                proof {
                    assert(ticket_views(drained@).take(n as int) =~= ticket_views(drained@));
                }
                ServerOutput { to_client, routed: Vec::new(), heartbeat: None, close: false }
            },
            SessionAction::Report { road, mile, limit, plate, timestamp } => {
                let routed = self.state.report_plate(road, mile, limit, &plate, timestamp);
                proof {
                    assert(msg_views(Seq::<SDMessage>::empty()) =~= Seq::<MsgV>::empty());
                }
                ServerOutput { to_client: Vec::new(), routed, heartbeat: None, close: false }
            },
            SessionAction::StartHeartbeat { interval } => {
                proof {
                    assert(msg_views(Seq::<SDMessage>::empty()) =~= Seq::<MsgV>::empty());
                }
                ServerOutput {
                    to_client: Vec::new(),
                    routed: Vec::new(),
                    heartbeat: Some(interval),
                    close: false,
                }
            },
            SessionAction::Reject { msg: emsg } => {
                let mut to_client: Vec<SDMessage> = Vec::new();
                let ghost ev = emsg@;
                to_client.push(SDMessage::Error { msg: emsg });
                proof {
                    assert(msg_views(to_client@) =~= seq![MsgV::Error { msg: ev }]);
                }
                ServerOutput { to_client, routed: Vec::new(), heartbeat: None, close: true }
            },
        }
    }

    /// A connection went away: a dispatcher gives up its roads, anything
    /// else leaves the world as it is. Pending tickets stay queued.
    pub fn handle_disconnect(&mut self, client: &Client, id: u64)
        requires
            old(self).wf(),
        ensures
            final(self).wf(),
            final(self)@ == disconnect_step(old(self)@, id, client@),
    {
        match &client.ticket_dispatcher {
            Some(td) => self.state.remove_dispatcher(id, &td.roads),
            None => {},
        }
    }

    /// Queue a ticket whose delivery failed, so the next dispatcher that
    /// registers the road receives it.
    pub fn add_pending_ticket(&mut self, road: u16, ticket: Ticket)
        requires
            old(self).wf(),
            ticket@.road == road,
        ensures
            final(self).wf(),
            final(self)@ == enqueue_step(old(self)@, road, ticket@),
    {
        self.state.add_pending_ticket(road, ticket);
    }
}

} // verus!
