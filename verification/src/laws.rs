//! The laws of the engine, proved once and for all from the transition
//! relation `step_rel` and the speed arithmetic.

use vstd::prelude::*;

use crate::app::{
    AppView, EffectView, delivery_complete, delivery_effects, dispatcher_step, plate_step,
    step_rel, tickets_for_road,
};
use crate::models::{
    ClientView, ReportView, Ticket, TicketView, abs_diff_u16, abs_diff_u32, recorded_speed,
    spec_plate_ticket, speed_exceeds_limit,
};
use crate::store::{days_for, day_used, lookup, queued, spec_any_day_used};
use crate::wire::{ClientInputView, ServerOutputView};

verus! {

/// A camera's sighting of a plate with no prior report on record never
/// produces a ticket: nothing is sent, nothing is queued, and the ledger is
/// untouched.
pub proof fn lemma_no_ticket_on_first_sighting(
    pre: AppView,
    from: u128,
    plate: Seq<u8>,
    timestamp: u32,
    post: AppView,
    effects: Seq<EffectView>,
)
    requires
        step_rel(pre, from, ClientInputView::Plate(plate, timestamp), post, effects),
        lookup(pre.conns, from) matches Some(c) && c.client matches Some(
            ClientView::Camera { .. },
        ),
        lookup(pre.reports, plate) is None,
    ensures
        effects == Seq::<EffectView>::empty(),
        post.pending == pre.pending,
        post.issued == pre.issued,
{
}

/// The speed computed from two reports does not depend on which arrived
/// last: the mile and timestamp differences are symmetric, a ticket's two
/// reports are ordered by timestamp (never by arrival), and its speed is the
/// recorded value of those differences. When the two reports also agree on
/// plate and declared limit — two cameras of one road may declare different
/// limits, and then the ticket depends on the receiving camera's — the two
/// arrival orders produce identical tickets, or none at all.
pub proof fn lemma_speed_order_independent(a: ReportView, b: ReportView)
    ensures
        abs_diff_u16(a.mile_marker, b.mile_marker) == abs_diff_u16(b.mile_marker, a.mile_marker),
        abs_diff_u32(a.timestamp, b.timestamp) == abs_diff_u32(b.timestamp, a.timestamp),
        spec_plate_ticket(a, b) matches Some(t) ==> {
            &&& t.report1.timestamp < t.report2.timestamp
            &&& (t.report1 == a && t.report2 == b) || (t.report1 == b && t.report2 == a)
            &&& t.speed == recorded_speed(
                abs_diff_u16(a.mile_marker, b.mile_marker),
                abs_diff_u32(a.timestamp, b.timestamp),
            )
        },
        (a.plate == b.plate && a.limit == b.limit) ==> spec_plate_ticket(a, b)
            == spec_plate_ticket(b, a),
{
}

/// A sighting creates a ticket exactly when the two reports share a road,
/// their timestamps differ, and the average speed exceeds the camera's limit
/// by more than the margin of four tenths: as rationals,
/// `distance / (elapsed / 3600) > limit + 0.4` is
/// `36000 * distance > (10 * limit + 4) * elapsed`.
pub proof fn lemma_ticket_iff_speed_exceeds(cur: ReportView, prev: ReportView)
    ensures
        spec_plate_ticket(cur, prev) is Some <==> {
            &&& cur.road == prev.road
            &&& cur.timestamp != prev.timestamp
            &&& 36000 * abs_diff_u16(cur.mile_marker, prev.mile_marker) > (10 * cur.limit + 4)
                * abs_diff_u32(cur.timestamp, prev.timestamp)
        },
{
}

/// The ticket a step issues, if it issues one: the sighting's ticket, not
/// suppressed by the per-day rule.
pub open spec fn step_issued_ticket(
    pre: AppView,
    from: u128,
    input: ClientInputView,
) -> Option<TicketView> {
    match lookup(pre.conns, from) {
        Some(conn) => match input {
            ClientInputView::Plate(plate, timestamp) => match conn.client {
                Some(ClientView::Camera { road, mile_marker, limit }) => {
                    let cur = ReportView { plate, road, timestamp, mile_marker, limit };
                    match lookup(pre.reports, plate) {
                        Some(prev) => match spec_plate_ticket(cur, prev) {
                            Some(t) => if !spec_any_day_used(
                                pre.issued,
                                t.plate,
                                Ticket::spec_days(t),
                            ) {
                                Some(t)
                            } else {
                                None
                            },
                            None => None,
                        },
                        None => None,
                    }
                },
                _ => None,
            },
            _ => None,
        },
        None => None,
    }
}

/// A day once on a plate's ledger never leaves it: every step of the engine
/// preserves every used day.
pub proof fn lemma_issued_days_monotone(
    pre: AppView,
    from: u128,
    input: ClientInputView,
    post: AppView,
    effects: Seq<EffectView>,
)
    requires
        step_rel(pre, from, input, post, effects),
    ensures
        forall|plate: Seq<u8>, day: u32|
            day_used(pre.issued, plate, day) ==> #[trigger] day_used(post.issued, plate, day),
{
    if let Some(conn) = lookup(pre.conns, from) {
        if let ClientInputView::Plate(plate, timestamp) = input {
            if let Some(ClientView::Camera { road, mile_marker, limit }) = conn.client {
                let cur = ReportView { plate, road, timestamp, mile_marker, limit };
                assert(plate_step(pre, cur, post, effects));
                if let Some(prev) = lookup(pre.reports, plate) {
                    if let Some(t) = spec_plate_ticket(cur, prev) {
                        if !spec_any_day_used(pre.issued, t.plate, Ticket::spec_days(t)) {
                            assert forall|p: Seq<u8>, day: u32|
                                day_used(pre.issued, p, day) implies #[trigger] day_used(
                                post.issued,
                                p,
                                day,
                            ) by {
                                if p == t.plate {
                                    let pre_days = days_for(pre.issued, p);
                                    let i = choose|i: int|
                                        0 <= i < pre_days.len() && pre_days[i] == day;
                                    assert(days_for(post.issued, p)[i] == day);
                                }
                            }
                        }
                    }
                }
            }
        }
    }
}

/// When a step issues a ticket, none of the day numbers it spans was on the
/// plate's ledger before, and all of them are on it afterwards: at most one
/// ticket can ever claim a given day for a given plate.
pub proof fn lemma_issue_claims_days(
    pre: AppView,
    from: u128,
    input: ClientInputView,
    post: AppView,
    effects: Seq<EffectView>,
    t: TicketView,
)
    requires
        step_rel(pre, from, input, post, effects),
        step_issued_ticket(pre, from, input) == Some(t),
    ensures
        forall|d: u32| #[trigger]
            Ticket::spec_days(t).contains(d) ==> !day_used(pre.issued, t.plate, d) && day_used(
                post.issued,
                t.plate,
                d,
            ),
{
    let conn = lookup(pre.conns, from).unwrap();
    if let ClientInputView::Plate(plate, timestamp) = input {
        if let Some(ClientView::Camera { road, mile_marker, limit }) = conn.client {
            let cur = ReportView { plate, road, timestamp, mile_marker, limit };
            assert(plate_step(pre, cur, post, effects));
            let days = Ticket::spec_days(t);
            assert forall|d: u32| #[trigger]
                days.contains(d) implies !day_used(pre.issued, t.plate, d) && day_used(
                post.issued,
                t.plate,
                d,
            ) by {
                let i = choose|i: int| 0 <= i < days.len() && days[i] == d;
                assert(!day_used(pre.issued, t.plate, days[i]));
                assert(days_for(post.issued, t.plate) == days_for(pre.issued, t.plate) + days);
                assert(days_for(post.issued, t.plate)[days_for(pre.issued, t.plate).len() + i]
                    == d);
            }
        }
    }
}

/// A step never issues a ticket spanning a day already on the plate's
/// ledger.
pub proof fn lemma_no_reissue_of_used_day(
    pre: AppView,
    from: u128,
    input: ClientInputView,
    post: AppView,
    effects: Seq<EffectView>,
    t: TicketView,
    d: u32,
)
    requires
        step_rel(pre, from, input, post, effects),
        step_issued_ticket(pre, from, input) == Some(t),
        day_used(pre.issued, t.plate, d),
    ensures
        !Ticket::spec_days(t).contains(d),
{
    if Ticket::spec_days(t).contains(d) {
        let days = Ticket::spec_days(t);
        let i = choose|i: int| 0 <= i < days.len() && days[i] == d;
        assert(day_used(pre.issued, t.plate, days[i]));
        assert(spec_any_day_used(pre.issued, t.plate, days));
    }
}

/// A used day survives any run of steps.
pub proof fn lemma_day_used_through(
    states: Seq<AppView>,
    msgs: Seq<(u128, ClientInputView)>,
    effs: Seq<Seq<EffectView>>,
    a: int,
    b: int,
    plate: Seq<u8>,
    d: u32,
)
    requires
        states.len() == msgs.len() + 1,
        effs.len() == msgs.len(),
        forall|k: int|
            0 <= k < msgs.len() ==> #[trigger] step_rel(
                states[k],
                msgs[k].0,
                msgs[k].1,
                states[k + 1],
                effs[k],
            ),
        0 <= a <= b <= msgs.len(),
        day_used(states[a].issued, plate, d),
    ensures
        day_used(states[b].issued, plate, d),
    decreases b - a,
{
    if a < b {
        lemma_issued_days_monotone(states[a], msgs[a].0, msgs[a].1, states[a + 1], effs[a]);
        lemma_day_used_through(states, msgs, effs, a + 1, b, plate, d);
    }
}

/// Across any run of the engine, at most one ticket is ever issued covering
/// a given day number for a given plate: once a ticket claims a day, no
/// later step issues another ticket for the same plate spanning that day. A
/// violation spanning two calendar days claims both.
pub proof fn lemma_one_ticket_per_plate_day(
    states: Seq<AppView>,
    msgs: Seq<(u128, ClientInputView)>,
    effs: Seq<Seq<EffectView>>,
    i: int,
    j: int,
    ti: TicketView,
    tj: TicketView,
    d: u32,
)
    requires
        states.len() == msgs.len() + 1,
        effs.len() == msgs.len(),
        forall|k: int|
            0 <= k < msgs.len() ==> #[trigger] step_rel(
                states[k],
                msgs[k].0,
                msgs[k].1,
                states[k + 1],
                effs[k],
            ),
        0 <= i < j < msgs.len(),
        step_issued_ticket(states[i], msgs[i].0, msgs[i].1) == Some(ti),
        step_issued_ticket(states[j], msgs[j].0, msgs[j].1) == Some(tj),
        ti.plate == tj.plate,
        Ticket::spec_days(ti).contains(d),
    ensures
        !Ticket::spec_days(tj).contains(d),
{
    lemma_issue_claims_days(states[i], msgs[i].0, msgs[i].1, states[i + 1], effs[i], ti);
    lemma_day_used_through(states, msgs, effs, i + 1, j, ti.plate, d);
    lemma_no_reissue_of_used_day(states[j], msgs[j].0, msgs[j].1, states[j + 1], effs[j], tj, d);
}

/// Every report entry in the index is keyed by its own plate. The engine's
/// report index maintains this; it is what ties a looked-up previous report
/// to the sighted plate.
pub open spec fn reports_keyed(reports: Seq<(Seq<u8>, ReportView)>) -> bool {
    forall|j: int| 0 <= j < reports.len() ==> (#[trigger] reports[j]).0 == reports[j].1.plate
}

/// Every ticket the engine issues is internally consistent: its two reports
/// carry the ticket's plate and road, the first is strictly earlier, its
/// speed is the recorded value of their differences, and that speed exceeds
/// the declared limit of the report whose camera received the sighting.
pub proof fn lemma_issued_ticket_well_formed(
    pre: AppView,
    from: u128,
    input: ClientInputView,
    t: TicketView,
)
    requires
        reports_keyed(pre.reports),
        step_issued_ticket(pre, from, input) == Some(t),
    ensures
        t.report1.timestamp < t.report2.timestamp,
        t.report1.plate == t.plate,
        t.report2.plate == t.plate,
        t.report1.road == t.road,
        t.report2.road == t.road,
        t.speed == recorded_speed(
            abs_diff_u16(t.report1.mile_marker, t.report2.mile_marker),
            abs_diff_u32(t.report1.timestamp, t.report2.timestamp),
        ),
        speed_exceeds_limit(
            abs_diff_u16(t.report1.mile_marker, t.report2.mile_marker),
            abs_diff_u32(t.report1.timestamp, t.report2.timestamp),
            t.report1.limit,
        ) || speed_exceeds_limit(
            abs_diff_u16(t.report1.mile_marker, t.report2.mile_marker),
            abs_diff_u32(t.report1.timestamp, t.report2.timestamp),
            t.report2.limit,
        ),
{
    let conn = lookup(pre.conns, from).unwrap();
    if let ClientInputView::Plate(plate, timestamp) = input {
        if let Some(ClientView::Camera { road, mile_marker, limit }) = conn.client {
            let cur = ReportView { plate, road, timestamp, mile_marker, limit };
            let prev = lookup(pre.reports, plate).unwrap();
            crate::store::lemma_lookup_in(pre.reports, plate);
            let j = choose|j: int|
                0 <= j < pre.reports.len() && pre.reports[j] == (plate, prev);
            assert(pre.reports[j].0 == pre.reports[j].1.plate);
            assert(prev.plate == plate);
        }
    }
}

/// The tickets an effect sequence sends to one connection, in order.
pub open spec fn sent_tickets(effects: Seq<EffectView>, to: u128) -> Seq<TicketView>
    decreases effects.len(),
{
    if effects.len() == 0 {
        Seq::empty()
    } else {
        sent_tickets(effects.drop_last(), to) + (match effects.last() {
            EffectView::Send(id, ServerOutputView::Ticket(t)) => if id == to {
                seq![t]
            } else {
                Seq::<TicketView>::empty()
            },
            _ => Seq::<TicketView>::empty(),
        })
    }
}

/// The sends of a drained backlog carry exactly the drained tickets.
pub proof fn lemma_sent_tickets_of_delivery(from: u128, delivered: Seq<TicketView>)
    ensures
        sent_tickets(delivery_effects(from, delivered), from) == delivered,
    decreases delivered.len(),
{
    let effects = delivery_effects(from, delivered);
    if delivered.len() == 0 {
        assert(effects =~= Seq::<EffectView>::empty());
        assert(sent_tickets(effects, from) =~= delivered);
    } else {
        assert(effects.drop_last() =~= delivery_effects(from, delivered.drop_last()));
        lemma_sent_tickets_of_delivery(from, delivered.drop_last());
        assert(effects.last() == EffectView::Send(
            from,
            ServerOutputView::Ticket(delivered.last()),
        ));
        assert(sent_tickets(effects, from) =~= delivered.drop_last().push(delivered.last()));
        assert(delivered.drop_last().push(delivered.last()) =~= delivered);
    }
}

/// A ticket queued for a road with no connected dispatcher is delivered in
/// full to the first dispatcher that declares responsibility for the road:
/// for each declared road, the tickets the step sends to that dispatcher are
/// exactly the road's queued backlog, in order — none lost, none duplicated
/// — and the road's queue is left empty. Queues of undeclared roads are
/// untouched.
pub proof fn lemma_backlog_delivered_in_full(
    pre: AppView,
    from: u128,
    roads: Seq<u16>,
    post: AppView,
    effects: Seq<EffectView>,
    r: u16,
)
    requires
        step_rel(pre, from, ClientInputView::IAmDispatcher(roads), post, effects),
        lookup(pre.conns, from) matches Some(c) && c.client is None,
        roads.contains(r),
    ensures
        tickets_for_road(sent_tickets(effects, from), r) == queued(pre.pending, r),
        queued(post.pending, r) == Seq::<TicketView>::empty(),
        forall|x: u16| !roads.contains(x) ==> queued(post.pending, x) == queued(pre.pending, x),
{
    let conn = lookup(pre.conns, from).unwrap();
    assert(dispatcher_step(pre, from, conn, roads, post, effects));
    let delivered = choose|delivered: Seq<TicketView>|
        #![trigger delivery_effects(from, delivered)]
        {
            &&& effects == delivery_effects(from, delivered)
            &&& delivery_complete(pre.pending, post.pending, roads, delivered)
        };
    lemma_sent_tickets_of_delivery(from, delivered);
}

} // verus!
