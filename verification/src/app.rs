//! The enforcement engine: the sole owner of the connection roster, the
//! last-seen report index, the issued-days ledger, and the pending-ticket
//! queues.
//!
//! The engine consumes one decoded client message at a time and returns the
//! effects its caller must perform: bytes to send to a connection, a
//! heartbeat timer to start, or a connection to close. `step_rel` is the
//! engine's transition relation: `handle_message` promises exactly that
//! relation between its state before and after, and the laws of the library
//! are proved from it.

use vstd::prelude::*;

use crate::models::{
    Camera, Client, ClientView, Connection, ConnectionView, Dispatcher, Report, ReportView,
    Ticket, TicketView, spec_plate_ticket,
};
use crate::parser::{SpecParse, nom, nom_camera, nom_dispatcher, nom_heartbeat, nom_plate,
    spec_parse};
use crate::store::{
    IssuedDays, PendingTickets, ReportIndex, Roster, days_for, find_dispatcher,
    lemma_queued_road, lookup, pending_wf, queued, spec_any_day_used, tickets_view,
};
use crate::wire::{ClientInput, ClientInputView, Message, ServerError, ServerOutput,
    ServerOutputView};

verus! {

/// One thing the caller must do after a step of the engine.
#[derive(Debug, PartialEq, Eq)]
pub enum Effect {
    /// Encode and write this message to this connection.
    Send(u128, ServerOutput),
    /// Start a heartbeat timer with this interval in deciseconds.
    StartHeartbeat(u128, u32),
    /// Shut this connection down.
    Close(u128),
}

/// The mathematical value of an `Effect`.
pub enum EffectView {
    Send(u128, ServerOutputView),
    StartHeartbeat(u128, u32),
    Close(u128),
}

impl View for Effect {
    type V = EffectView;

    open spec fn view(&self) -> EffectView {
        match self {
            Effect::Send(id, out) => EffectView::Send(*id, out@),
            Effect::StartHeartbeat(id, ds) => EffectView::StartHeartbeat(*id, *ds),
            Effect::Close(id) => EffectView::Close(*id),
        }
    }
}

/// The views of a vector of effects.
pub open spec fn effects_view(effects: Seq<Effect>) -> Seq<EffectView> {
    effects.map_values(|e: Effect| e@)
}

/// The mathematical state of the engine.
pub struct AppView {
    pub conns: Seq<(u128, ConnectionView)>,
    pub reports: Seq<(Seq<u8>, ReportView)>,
    pub pending: Seq<(u16, Seq<TicketView>)>,
    pub issued: Seq<(Seq<u8>, Seq<u32>)>,
}

/// The effects of rejecting a connection: the error, if any, then the close.
pub open spec fn error_close_effects(from: u128, err: Option<ServerError>) -> Seq<EffectView> {
    match err {
        Some(e) => seq![
            EffectView::Send(from, ServerOutputView::Error(e)),
            EffectView::Close(from),
        ],
        None => seq![EffectView::Close(from)],
    }
}

/// The connection left the roster; everything else is untouched; the error,
/// if any, was sent before the close.
pub open spec fn closed_step(
    pre: AppView,
    from: u128,
    err: Option<ServerError>,
    post: AppView,
    effects: Seq<EffectView>,
) -> bool {
    &&& post.reports == pre.reports
    &&& post.pending == pre.pending
    &&& post.issued == pre.issued
    &&& lookup(post.conns, from) is None
    &&& forall|x: u128| x != from ==> lookup(post.conns, x) == lookup(pre.conns, x)
    &&& effects == error_close_effects(from, err)
}

/// The sighting produced no ticket: ledger and queues are untouched and
/// nothing is sent.
pub open spec fn no_ticket_step(pre: AppView, post: AppView, effects: Seq<EffectView>) -> bool {
    &&& post.pending == pre.pending
    &&& post.issued == pre.issued
    &&& effects == Seq::<EffectView>::empty()
}

/// A fresh ticket goes to the first connected dispatcher for its road, or
/// onto the road's queue when none is connected.
pub open spec fn dispatch_step(
    pre: AppView,
    post: AppView,
    t: TicketView,
    effects: Seq<EffectView>,
) -> bool {
    match find_dispatcher(pre.conns, t.road) {
        Some(did) => {
            &&& effects == seq![EffectView::Send(did, ServerOutputView::Ticket(t))]
            &&& post.pending == pre.pending
        },
        None => {
            &&& effects == Seq::<EffectView>::empty()
            &&& queued(post.pending, t.road) == queued(pre.pending, t.road).push(t)
            &&& forall|x: u16| x != t.road ==> queued(post.pending, x) == queued(pre.pending, x)
        },
    }
}

/// A plate sighting from a camera: the report becomes the plate's latest;
/// a ticket is produced exactly when the previous report qualifies it, is
/// suppressed when any day it spans is already on the plate's ledger, and
/// otherwise claims its days and is dispatched.
pub open spec fn plate_step(
    pre: AppView,
    cur: ReportView,
    post: AppView,
    effects: Seq<EffectView>,
) -> bool {
    &&& post.conns == pre.conns
    &&& lookup(post.reports, cur.plate) == Some(cur)
    &&& forall|p: Seq<u8>| p != cur.plate ==> lookup(post.reports, p) == lookup(pre.reports, p)
    &&& match lookup(pre.reports, cur.plate) {
        None => no_ticket_step(pre, post, effects),
        Some(prev) => match spec_plate_ticket(cur, prev) {
            None => no_ticket_step(pre, post, effects),
            Some(t) => if spec_any_day_used(pre.issued, t.plate, Ticket::spec_days(t)) {
                no_ticket_step(pre, post, effects)
            } else {
                &&& days_for(post.issued, t.plate) == days_for(pre.issued, t.plate)
                    + Ticket::spec_days(t)
                &&& forall|p: Seq<u8>| p != t.plate ==> days_for(post.issued, p) == days_for(
                    pre.issued,
                    p,
                )
                &&& dispatch_step(pre, post, t, effects)
            },
        },
    }
}

/// The connection at `id` now has value `cv`; all other entries are kept.
pub open spec fn conn_updated(
    pre: Seq<(u128, ConnectionView)>,
    post: Seq<(u128, ConnectionView)>,
    id: u128,
    cv: ConnectionView,
) -> bool {
    &&& lookup(post, id) == Some(cv)
    &&& forall|x: u128| x != id ==> lookup(post, x) == lookup(pre, x)
}

/// A first heartbeat request: the interval is remembered, and a timer starts
/// exactly when the interval is positive.
pub open spec fn heartbeat_step(
    pre: AppView,
    from: u128,
    conn: ConnectionView,
    deciseconds: u32,
    post: AppView,
    effects: Seq<EffectView>,
) -> bool {
    &&& conn_updated(
        pre.conns,
        post.conns,
        from,
        ConnectionView { heartbeat: Some(deciseconds), ..conn },
    )
    &&& post.reports == pre.reports
    &&& post.pending == pre.pending
    &&& post.issued == pre.issued
    &&& effects == if deciseconds > 0 {
        seq![EffectView::StartHeartbeat(from, deciseconds)]
    } else {
        Seq::<EffectView>::empty()
    }
}

/// A first role declaration as a camera.
pub open spec fn camera_step(
    pre: AppView,
    from: u128,
    conn: ConnectionView,
    road: u16,
    mile_marker: u16,
    limit: u16,
    post: AppView,
    effects: Seq<EffectView>,
) -> bool {
    &&& conn_updated(
        pre.conns,
        post.conns,
        from,
        ConnectionView {
            client: Some(ClientView::Camera { road, mile_marker, limit }),
            ..conn
        },
    )
    &&& post.reports == pre.reports
    &&& post.pending == pre.pending
    &&& post.issued == pre.issued
    &&& effects == Seq::<EffectView>::empty()
}

/// The sends of a drained backlog, one ticket each, in order.
pub open spec fn delivery_effects(from: u128, delivered: Seq<TicketView>) -> Seq<EffectView> {
    delivered.map_values(|t: TicketView| EffectView::Send(from, ServerOutputView::Ticket(t)))
}

/// The tickets in a sequence that belong to one road, in order.
pub open spec fn tickets_for_road(s: Seq<TicketView>, road: u16) -> Seq<TicketView> {
    s.filter(|t: TicketView| t.road == road)
}

/// A sequence with no ticket of the road contributes nothing to it.
pub proof fn lemma_tickets_for_road_none(s: Seq<TicketView>, road: u16)
    requires
        forall|k: int| 0 <= k < s.len() ==> (#[trigger] s[k]).road != road,
    ensures
        tickets_for_road(s, road) == Seq::<TicketView>::empty(),
    decreases s.len(),
{
    reveal_with_fuel(Seq::<_>::filter, 2);
    if s.len() == 0 {
        assert(tickets_for_road(s, road) =~= Seq::<TicketView>::empty());
    } else {
        assert forall|k: int| 0 <= k < s.drop_last().len() implies (#[trigger] s.drop_last()[
            k
        ]).road != road by {
            assert(s.drop_last()[k] == s[k]);
        }
        lemma_tickets_for_road_none(s.drop_last(), road);
        assert(s.last().road != road);
    }
}

/// A sequence of tickets all of the road is kept whole, in order.
pub proof fn lemma_tickets_for_road_all(s: Seq<TicketView>, road: u16)
    requires
        forall|k: int| 0 <= k < s.len() ==> (#[trigger] s[k]).road == road,
    ensures
        tickets_for_road(s, road) == s,
    decreases s.len(),
{
    reveal_with_fuel(Seq::<_>::filter, 2);
    if s.len() == 0 {
        assert(tickets_for_road(s, road) =~= s);
    } else {
        assert forall|k: int| 0 <= k < s.drop_last().len() implies (#[trigger] s.drop_last()[
            k
        ]).road == road by {
            assert(s.drop_last()[k] == s[k]);
        }
        lemma_tickets_for_road_all(s.drop_last(), road);
        assert(s.last().road == road);
        assert(tickets_for_road(s, road) =~= s.drop_last().push(s.last()));
        assert(s.drop_last().push(s.last()) =~= s);
    }
}

/// Selecting a road's tickets distributes over concatenation.
pub proof fn lemma_tickets_for_road_add(a: Seq<TicketView>, b: Seq<TicketView>, road: u16)
    ensures
        tickets_for_road(a + b, road) == tickets_for_road(a, road) + tickets_for_road(b, road),
    decreases b.len(),
{
    reveal_with_fuel(Seq::<_>::filter, 2);
    if b.len() == 0 {
        assert(a + b =~= a);
        assert(tickets_for_road(b, road) =~= Seq::<TicketView>::empty());
        assert(tickets_for_road(a, road) + tickets_for_road(b, road) =~= tickets_for_road(
            a,
            road,
        ));
    } else {
        assert((a + b).drop_last() =~= a + b.drop_last());
        lemma_tickets_for_road_add(a, b.drop_last(), road);
        assert((a + b).last() == b.last());
        if b.last().road == road {
            assert(tickets_for_road(a + b, road) =~= (tickets_for_road(a, road)
                + tickets_for_road(b.drop_last(), road)).push(b.last()));
            assert(tickets_for_road(b, road) =~= tickets_for_road(b.drop_last(), road).push(
                b.last(),
            ));
            assert(tickets_for_road(a, road) + tickets_for_road(b, road) =~= (tickets_for_road(
                a,
                road,
            ) + tickets_for_road(b.drop_last(), road)).push(b.last()));
        } else {
            assert(tickets_for_road(b, road) =~= tickets_for_road(b.drop_last(), road));
        }
    }
}

/// The backlog for the declared roads was handed over in full: each declared
/// road's queue is now empty, every other queue is untouched, and for each
/// declared road the tickets delivered for it are exactly the road's old
/// queue, in order — none lost, none duplicated.
pub open spec fn delivery_complete(
    pre_pending: Seq<(u16, Seq<TicketView>)>,
    post_pending: Seq<(u16, Seq<TicketView>)>,
    roads: Seq<u16>,
    delivered: Seq<TicketView>,
) -> bool {
    &&& forall|r: u16| #[trigger]
        roads.contains(r) ==> queued(post_pending, r) == Seq::<TicketView>::empty()
    &&& forall|r: u16| !roads.contains(r) ==> #[trigger] queued(post_pending, r) == queued(
        pre_pending,
        r,
    )
    &&& forall|r: u16| #[trigger]
        roads.contains(r) ==> tickets_for_road(delivered, r) == queued(pre_pending, r)
    &&& forall|i: int| 0 <= i < delivered.len() ==> roads.contains(
        (#[trigger] delivered[i]).road,
    )
}

/// A first role declaration as a dispatcher: the backlog for its roads is
/// delivered to it in full, then the role is recorded.
pub open spec fn dispatcher_step(
    pre: AppView,
    from: u128,
    conn: ConnectionView,
    roads: Seq<u16>,
    post: AppView,
    effects: Seq<EffectView>,
) -> bool {
    &&& conn_updated(
        pre.conns,
        post.conns,
        from,
        ConnectionView { client: Some(ClientView::Dispatcher { roads }), ..conn },
    )
    &&& post.reports == pre.reports
    &&& post.issued == pre.issued
    &&& exists|delivered: Seq<TicketView>|
        #![trigger delivery_effects(from, delivered)]
        {
            &&& effects == delivery_effects(from, delivered)
            &&& delivery_complete(pre.pending, post.pending, roads, delivered)
        }
}

/// The engine's transition relation: what one message from one connection
/// does to the state, and which effects it produces.
pub open spec fn step_rel(
    pre: AppView,
    from: u128,
    input: ClientInputView,
    post: AppView,
    effects: Seq<EffectView>,
) -> bool {
    match lookup(pre.conns, from) {
        None => post == pre && effects == Seq::<EffectView>::empty(),
        Some(conn) => match input {
            ClientInputView::Plate(plate, timestamp) => match conn.client {
                Some(ClientView::Camera { road, mile_marker, limit }) => plate_step(
                    pre,
                    ReportView { plate, road, timestamp, mile_marker, limit },
                    post,
                    effects,
                ),
                Some(ClientView::Dispatcher { .. }) => closed_step(
                    pre,
                    from,
                    Some(ServerError::NotACamera),
                    post,
                    effects,
                ),
                None => closed_step(pre, from, Some(ServerError::NotDeclared), post, effects),
            },
            ClientInputView::WantHeartbeat(deciseconds) => if conn.heartbeat is Some {
                closed_step(pre, from, Some(ServerError::AlreadyBeating), post, effects)
            } else {
                heartbeat_step(pre, from, conn, deciseconds, post, effects)
            },
            ClientInputView::IAmCamera(road, mile_marker, limit) => if conn.client is Some {
                closed_step(pre, from, Some(ServerError::AlreadyDeclared), post, effects)
            } else {
                camera_step(pre, from, conn, road, mile_marker, limit, post, effects)
            },
            ClientInputView::IAmDispatcher(roads) => if conn.client is Some {
                closed_step(pre, from, Some(ServerError::AlreadyDeclared), post, effects)
            } else {
                dispatcher_step(pre, from, conn, roads, post, effects)
            },
            ClientInputView::StreamEnded => closed_step(pre, from, None, post, effects),
            ClientInputView::StreamErrored => closed_step(
                pre,
                from,
                Some(ServerError::InvalidStream),
                post,
                effects,
            ),
        },
    }
}

/// A connection's role as the engine reads it before acting on a message.
#[derive(Clone, Copy)]
pub enum DeclaredRole {
    Undeclared,
    AsCamera(Camera),
    AsDispatcher,
}

/// Whether a role summary matches a connection's declared client.
pub open spec fn role_matches(role: DeclaredRole, client: Option<ClientView>) -> bool {
    match role {
        DeclaredRole::Undeclared => client is None,
        DeclaredRole::AsCamera(cam) => client == Some(
            ClientView::Camera { road: cam.road, mile_marker: cam.mile_marker, limit: cam.limit },
        ),
        DeclaredRole::AsDispatcher => client matches Some(ClientView::Dispatcher { .. }),
    }
}

/// The enforcement engine's state.
pub struct Application {
    pub connections: Roster,
    pub pending_tickets: PendingTickets,
    pub reports: ReportIndex,
    pub days_issued: IssuedDays,
}

impl View for Application {
    type V = AppView;

    open spec fn view(&self) -> AppView {
        AppView {
            conns: self.connections@,
            reports: self.reports@,
            pending: self.pending_tickets@,
            issued: self.days_issued@,
        }
    }
}

impl Application {
    /// All four containers are well formed.
    pub open spec fn wf(&self) -> bool {
        &&& self.connections.wf()
        &&& self.reports.wf()
        &&& self.pending_tickets.wf()
        &&& self.days_issued.wf()
    }

    /// An engine with no connections, no reports, no queues, no ledger.
    pub fn new() -> (r: Application)
        ensures
            r.wf(),
            r@.conns == Seq::<(u128, ConnectionView)>::empty(),
            r@.reports == Seq::<(Seq<u8>, ReportView)>::empty(),
            r@.pending == Seq::<(u16, Seq<TicketView>)>::empty(),
            r@.issued == Seq::<(Seq<u8>, Seq<u32>)>::empty(),
    {
        Application {
            connections: Roster::new(),
            pending_tickets: PendingTickets::new(),
            reports: ReportIndex::new(),
            days_issued: IssuedDays::new(),
        }
    }

    /// Adds an accepted connection to the roster, replacing any entry with
    /// the same identifier.
    pub fn add_connection(&mut self, conn: Connection)
        requires
            old(self).wf(),
        ensures
            final(self).wf(),
            lookup(final(self)@.conns, conn@.id) == Some(conn@),
            forall|x: u128| x != conn@.id ==> lookup(final(self)@.conns, x) == lookup(
                old(self)@.conns,
                x,
            ),
            final(self)@.reports == old(self)@.reports,
            final(self)@.pending == old(self)@.pending,
            final(self)@.issued == old(self)@.issued,
    {
        self.connections.add(conn);
    }

    /// The number of tickets queued for a road, awaiting a dispatcher.
    pub fn pending_count(&self, road: u16) -> (n: usize)
        requires
            self.wf(),
        ensures
            n == queued(self@.pending, road).len(),
    {
        self.pending_tickets.count_for(road)
    }

    /// The role and heartbeat state of a connection, if present.
    fn role_of(&self, id: u128) -> (r: Option<(DeclaredRole, Option<u32>)>)
        requires
            self.wf(),
        ensures
            match lookup(self@.conns, id) {
                None => r is None,
                Some(cv) => r matches Some((role, hb)) && hb == cv.heartbeat && role_matches(
                    role,
                    cv.client,
                ),
            },
    {
        match self.connections.get(id) {
            None => None,
            Some(conn) => {
                let role = match &conn.client {
                    None => DeclaredRole::Undeclared,
                    Some(Client::Camera(cam)) => DeclaredRole::AsCamera(*cam),
                    Some(Client::Dispatcher(_)) => DeclaredRole::AsDispatcher,
                };
                Some((role, conn.heartbeat))
            },
        }
    }

    /// Sends the error, if any, to the connection and drops it from the
    /// roster. A connection that is already gone produces nothing.
    pub fn close_connection(&mut self, id: u128, error: Option<ServerError>) -> (r: Vec<Effect>)
        requires
            old(self).wf(),
        ensures
            final(self).wf(),
            match lookup(old(self)@.conns, id) {
                Some(_) => closed_step(old(self)@, id, error, final(self)@, effects_view(r@)),
                None => final(self)@ == old(self)@ && r@.len() == 0,
            },
    {
        let present = match self.connections.get(id) {
            Some(_) => true,
            None => false,
        };
        if !present {
            return Vec::new();
        }
        let mut effects: Vec<Effect> = Vec::new();
        if let Some(e) = error {
            effects.push(Effect::Send(id, ServerOutput::Error(e)));
        }
        effects.push(Effect::Close(id));
        self.connections.remove(id);
        proof {
            assert(effects_view(effects@) =~= error_close_effects(id, error));
        }
        effects
    }

    /// Stores the report as its plate's latest sighting and returns the
    /// ticket the sighting produces, if any. The ledger is not consulted
    /// here: a returned ticket may still be suppressed by the per-day rule.
    pub fn process_report(&mut self, report: Report) -> (r: Option<Ticket>)
        requires
            old(self).wf(),
            report@.plate.len() <= 255,
        ensures
            final(self).wf(),
            final(self)@.conns == old(self)@.conns,
            final(self)@.pending == old(self)@.pending,
            final(self)@.issued == old(self)@.issued,
            lookup(final(self)@.reports, report@.plate) == Some(report@),
            forall|p: Seq<u8>| p != report@.plate ==> lookup(final(self)@.reports, p) == lookup(
                old(self)@.reports,
                p,
            ),
            match lookup(old(self)@.reports, report@.plate) {
                None => r is None,
                Some(prev) => match spec_plate_ticket(report@, prev) {
                    None => r is None,
                    Some(tv) => r matches Some(t) && t@ == tv,
                },
            },
    {
        let previous: Option<Report> = match self.reports.get(&report.plate) {
            Some(p) => Some(p.clone()),
            None => None,
        };
        let current = report.clone();
        self.reports.set(report);
        match previous {
            None => None,
            Some(prev) => match current.calculate_speed(&prev) {
                None => None,
                Some(speed) => {
                    if speed.exceeds_limit(current.limit) {
                        let recorded = speed.recorded();
                        Some(Ticket::from_reports(current, prev, recorded))
                    } else {
                        None
                    }
                },
            },
        }
    }

    /// Hands a fresh ticket to the first connected dispatcher for its road,
    /// or queues it for the road when none is connected.
    pub fn issue_ticket(&mut self, ticket: Ticket) -> (r: Vec<Effect>)
        requires
            old(self).wf(),
            ticket@.plate.len() <= 255,
        ensures
            final(self).wf(),
            final(self)@.conns == old(self)@.conns,
            final(self)@.reports == old(self)@.reports,
            final(self)@.issued == old(self)@.issued,
            dispatch_step(old(self)@, final(self)@, ticket@, effects_view(r@)),
    {
        let ghost tv = ticket@;
        let recipient = self.connections.find_dispatcher(ticket.road);
        match recipient {
            Some(dispatcher_id) => {
                let mut effects: Vec<Effect> = Vec::new();
                effects.push(Effect::Send(dispatcher_id, ServerOutput::Ticket(ticket)));
                proof {
                    assert(effects_view(effects@) =~= seq![
                        EffectView::Send(dispatcher_id, ServerOutputView::Ticket(tv)),
                    ]);
                }
                effects
            },
            None => {
                self.pending_tickets.push_ticket(ticket);
                let effects: Vec<Effect> = Vec::new();
                proof {
                    assert(effects_view(effects@) =~= Seq::<EffectView>::empty());
                }
                effects
            },
        }
    }

    /// Applies one client message to the state. The state and the returned
    /// effects are exactly what the transition relation `step_rel` says for
    /// this message; the effects are performed in order by the caller.
    #[verifier::rlimit(100)]
    pub fn handle_message(&mut self, message: Message) -> (effects: Vec<Effect>)
        requires
            old(self).wf(),
            message.input matches ClientInput::Plate(p, _) ==> p@.len() <= 255,
        ensures
            final(self).wf(),
            step_rel(
                old(self)@,
                message.from,
                message.input@,
                final(self)@,
                effects_view(effects@),
            ),
    {
        let Message { from, input } = message;
        let ghost pre = old(self)@;
        let role_info = self.role_of(from);
        proof {
            if role_info is Some {
                lemma_roster_conn_id(pre.conns, from);
            }
        }
        match role_info {
            None => {
                let effects: Vec<Effect> = Vec::new();
                proof {
                    assert(effects_view(effects@) =~= Seq::<EffectView>::empty());
                }
                effects
            },
            Some((role, heartbeat)) => match input {
                ClientInput::Plate(plate, timestamp) => match role {
                    DeclaredRole::AsCamera(cam) => {
                        let report = Report::new(
                            plate,
                            timestamp,
                            cam.road,
                            cam.mile_marker,
                            cam.limit,
                        );
                        let ghost cur = report@;
                        let ticket_opt = self.process_report(report);
                        match ticket_opt {
                            None => {
                                let effects: Vec<Effect> = Vec::new();
                                proof {
                                    assert(effects_view(effects@) =~= Seq::<
                                        EffectView,
                                    >::empty());
                                }
                                effects
                            },
                            Some(ticket) => {
                                let days = ticket.get_days_applicable_to();
                                if self.days_issued.any_day_used(&ticket.plate, &days) {
                                    let effects: Vec<Effect> = Vec::new();
                                    proof {
                                        assert(effects_view(effects@) =~= Seq::<
                                            EffectView,
                                        >::empty());
                                    }
                                    effects
                                } else {
                                    self.days_issued.record_days(&ticket.plate, &days);
                                    self.issue_ticket(ticket)
                                }
                            },
                        }
                    },
                    DeclaredRole::AsDispatcher => self.close_connection(
                        from,
                        Some(ServerError::NotACamera),
                    ),
                    DeclaredRole::Undeclared => self.close_connection(
                        from,
                        Some(ServerError::NotDeclared),
                    ),
                },
                ClientInput::WantHeartbeat(deciseconds) => {
                    if heartbeat.is_some() {
                        self.close_connection(from, Some(ServerError::AlreadyBeating))
                    } else {
                        self.connections.set_heartbeat(from, deciseconds);
                        let mut effects: Vec<Effect> = Vec::new();
                        if deciseconds > 0 {
                            effects.push(Effect::StartHeartbeat(from, deciseconds));
                            proof {
                                assert(effects_view(effects@) =~= seq![
                                    EffectView::StartHeartbeat(from, deciseconds),
                                ]);
                            }
                        } else {
                            proof {
                                assert(effects_view(effects@) =~= Seq::<EffectView>::empty());
                            }
                        }
                        effects
                    }
                },
                ClientInput::IAmCamera(road, mile_marker, limit) => match role {
                    DeclaredRole::Undeclared => {
                        self.connections.set_client(
                            from,
                            Client::Camera(Camera { road, mile_marker, limit }),
                        );
                        let effects: Vec<Effect> = Vec::new();
                        proof {
                            assert(effects_view(effects@) =~= Seq::<EffectView>::empty());
                        }
                        effects
                    },
                    _ => self.close_connection(from, Some(ServerError::AlreadyDeclared)),
                },
                ClientInput::IAmDispatcher(roads) => match role {
                    DeclaredRole::Undeclared => {
                        let ghost conn = lookup(pre.conns, from).unwrap();
                        let ghost roads_v = roads@;
                        let mut effects: Vec<Effect> = Vec::new();
                        let ghost mut delivered: Seq<TicketView> = Seq::empty();
                        proof {
                            assert(effects_view(effects@) =~= delivery_effects(from, delivered));
                        }
                        let mut i: usize = 0;
                        while i < roads.len()
                            invariant
                                i <= roads.len(),
                                self.wf(),
                                pending_wf(pre.pending),
                                self@.conns == pre.conns,
                                self@.reports == pre.reports,
                                self@.issued == pre.issued,
                                effects_view(effects@) == delivery_effects(from, delivered),
                                forall|r: u16| #[trigger]
                                    roads@.subrange(0, i as int).contains(r) ==> queued(
                                        self@.pending,
                                        r,
                                    ) == Seq::<TicketView>::empty(),
                                forall|r: u16|
                                    !roads@.subrange(0, i as int).contains(r) ==> #[trigger]
                                        queued(self@.pending, r) == queued(pre.pending, r),
                                forall|r: u16| #[trigger]
                                    roads@.subrange(0, i as int).contains(r)
                                        ==> tickets_for_road(delivered, r) == queued(
                                        pre.pending,
                                        r,
                                    ),
                                forall|k: int|
                                    0 <= k < delivered.len() ==> roads@.subrange(
                                        0,
                                        i as int,
                                    ).contains((#[trigger] delivered[k]).road),
                            decreases roads.len() - i,
                        {
                            let road = roads[i];
                            let ghost prefix = roads@.subrange(0, i as int);
                            let ghost prefix1 = roads@.subrange(0, i as int + 1);
                            proof {
                                assert(prefix1.drop_last() =~= prefix);
                                assert(prefix1.last() == road);
                                assert forall|r: u16| prefix1.contains(r) implies prefix.contains(
                                    r,
                                ) || r == road by {
                                    let k = choose|k: int|
                                        0 <= k < prefix1.len() && prefix1[k] == r;
                                    if k < prefix.len() {
                                        assert(prefix[k] == r);
                                    }
                                }
                                assert forall|r: u16|
                                    prefix.contains(r) implies prefix1.contains(r) by {
                                    let k = choose|k: int| 0 <= k < prefix.len() && prefix[k] == r;
                                    assert(prefix1[k] == r);
                                }
                                assert(prefix1.contains(road)) by {
                                    assert(prefix1[i as int] == road);
                                }
                            }
                            let ghost mid = self@.pending;
                            let tickets = self.pending_tickets.take_road(road);
                            let ghost taken = tickets_view(tickets@);
                            proof {
                                lemma_queued_road(pre.pending, road);
                                if prefix.contains(road) {
                                    assert(taken =~= Seq::<TicketView>::empty());
                                } else {
                                    assert(taken == queued(pre.pending, road));
                                }
                            }
                            let mut k: usize = 0;
                            while k < tickets.len()
                                invariant
                                    k <= tickets.len(),
                                    taken == tickets_view(tickets@),
                                    effects_view(effects@) == delivery_effects(
                                        from,
                                        delivered + taken.subrange(0, k as int),
                                    ),
                                decreases tickets.len() - k,
                            {
                                let next = tickets[k].clone();
                                let ghost next_v = next@;
                                let outgoing = Effect::Send(from, ServerOutput::Ticket(next));
                                proof {
                                    assert(outgoing@ == EffectView::Send(
                                        from,
                                        ServerOutputView::Ticket(next_v),
                                    ));
                                    assert(next_v == taken[k as int]) by {
                                        assert(taken[k as int] == tickets@[k as int]@);
                                    }
                                }
                                let ghost before = effects@;
                                effects.push(outgoing);
                                proof {
                                    let prevseq = delivered + taken.subrange(0, k as int);
                                    let upto = delivered + taken.subrange(0, k as int + 1);
                                    assert(upto =~= prevseq.push(taken[k as int]));
                                    assert(effects@ == before.push(outgoing));
                                    assert(effects_view(before) == delivery_effects(
                                        from,
                                        prevseq,
                                    ));
                                    assert(effects_view(before).len() == before.len());
                                    assert(delivery_effects(from, prevseq).len()
                                        == prevseq.len());
                                    assert(before.len() == prevseq.len());
                                    assert(effects@.len() == upto.len());
                                    assert forall|j: int|
                                        0 <= j < effects@.len() implies effects_view(effects@)[j]
                                        == delivery_effects(from, upto)[j] by {
                                        assert(effects_view(effects@)[j] == effects@[j]@);
                                        assert(delivery_effects(from, upto)[j]
                                            == EffectView::Send(
                                            from,
                                            ServerOutputView::Ticket(upto[j]),
                                        ));
                                        if j < before.len() {
                                            assert(effects@[j] == before[j]);
                                            assert(effects_view(before)[j] == before[j]@);
                                            assert(delivery_effects(from, prevseq)[j]
                                                == EffectView::Send(
                                                from,
                                                ServerOutputView::Ticket(prevseq[j]),
                                            ));
                                            assert(upto[j] == prevseq[j]);
                                        } else {
                                            assert(effects@[j] == outgoing);
                                            assert(upto[j] == taken[k as int]);
                                        }
                                    }
                                    assert(effects_view(effects@).len() == effects@.len());
                                    assert(delivery_effects(from, upto).len() == upto.len());
                                    assert(effects_view(effects@) =~= delivery_effects(
                                        from,
                                        upto,
                                    ));
                                }
                                k = k + 1;
                            }
                            proof {
                                assert(taken.subrange(0, taken.len() as int) =~= taken);
                                let done = delivered + taken;
                                assert(effects_view(effects@) == delivery_effects(from, done));
                                if prefix.contains(road) {
                                    assert(done =~= delivered);
                                    assert forall|r: u16| #[trigger]
                                        prefix1.contains(r) implies queued(self@.pending, r)
                                        == Seq::<TicketView>::empty() by {
                                        if r != road {
                                            assert(prefix.contains(r));
                                        }
                                    }
                                    assert forall|r: u16| #[trigger]
                                        prefix1.contains(r) implies tickets_for_road(done, r)
                                        == queued(pre.pending, r) by {
                                        if r == road {
                                            assert(prefix.contains(road));
                                        } else {
                                            assert(prefix.contains(r));
                                        }
                                    }
                                } else {
                                    // delivered so far has no ticket of this road
                                    assert forall|k2: int|
                                        0 <= k2 < delivered.len() implies (#[trigger] delivered[k2]).road != road by {
                                        assert(prefix.contains(delivered[k2].road));
                                    }
                                    lemma_tickets_for_road_none(delivered, road);
                                    assert forall|k2: int|
                                        0 <= k2 < taken.len() implies (#[trigger] taken[k2]).road == road by {}
                                    lemma_tickets_for_road_all(taken, road);
                                    assert forall|r: u16| #[trigger]
                                        prefix1.contains(r) implies tickets_for_road(done, r)
                                        == queued(pre.pending, r) by {
                                        lemma_tickets_for_road_add(delivered, taken, r);
                                        if r == road {
                                            assert(tickets_for_road(done, road)
                                                =~= tickets_for_road(delivered, road)
                                                + tickets_for_road(taken, road));
                                            assert(tickets_for_road(done, road) =~= taken);
                                        } else {
                                            assert(prefix.contains(r));
                                            lemma_tickets_for_road_none(taken, r);
                                            assert(tickets_for_road(done, r) =~= tickets_for_road(
                                                delivered,
                                                r,
                                            ));
                                        }
                                    }
                                }
                                delivered = done;
                                assert forall|k2: int|
                                    0 <= k2 < delivered.len() implies prefix1.contains(
                                    (#[trigger] delivered[k2]).road,
                                ) by {
                                    if k2 < (delivered.len() - taken.len()) {
                                        assert(prefix.contains(delivered[k2].road));
                                    } else {
                                        assert(delivered[k2]
                                            == taken[k2 - (delivered.len() - taken.len())]);
                                    }
                                }
                            }
                            i = i + 1;
                        }
                        proof {
                            assert(roads@.subrange(0, roads@.len() as int) =~= roads@);
                            assert(delivery_complete(pre.pending, self@.pending, roads_v, delivered));
                        }
                        self.connections.set_client(from, Client::Dispatcher(Dispatcher { roads }));
                        proof {
                            assert(delivery_complete(pre.pending, self@.pending, roads_v, delivered));
                            assert(effects_view(effects@) == delivery_effects(from, delivered));
                        }
                        effects
                    },
                    _ => self.close_connection(from, Some(ServerError::AlreadyDeclared)),
                },
                ClientInput::StreamEnded => self.close_connection(from, None),
                ClientInput::StreamErrored => self.close_connection(
                    from,
                    Some(ServerError::InvalidStream),
                ),
            },
        }
    }
}

/// Whether an executable buffer decode `(result, drain)` says what the
/// grammar says about the buffer's bytes.
pub open spec fn buffer_match_ok(
    r: (Result<Option<ClientInput>, ()>, usize),
    s: Seq<u8>,
) -> bool {
    match spec_parse(s) {
        SpecParse::Bad => r.0 is Err && r.1 == 0,
        SpecParse::Incomplete => r.0 matches Ok(o) && o is None && r.1 == 0,
        SpecParse::Done(mv, n) => r.0 matches Ok(o) && (o matches Some(m) && m@ == mv) && r.1
            == n,
    }
}

impl Application {
    /// Decodes the plate message at the front of the buffer.
    pub fn process_buffer_plate(buffer: &[u8]) -> (r: (Result<Option<ClientInput>, ()>, usize))
        requires
            buffer@.len() >= 1,
            buffer@[0] == crate::types::MESSAGE_TYPE_PLATE,
        ensures
            buffer_match_ok(r, buffer@),
    {
        match nom_plate(buffer) {
            Ok(Some((message, drain))) => (Ok(Some(message)), drain),
            Ok(None) => (Ok(None), 0),
            Err(_) => (Err(()), 0),
        }
    }

    /// Decodes the heartbeat request at the front of the buffer.
    pub fn process_buffer_heartbeat(buffer: &[u8]) -> (r: (
        Result<Option<ClientInput>, ()>,
        usize,
    ))
        requires
            buffer@.len() >= 1,
            buffer@[0] == crate::types::MESSAGE_TYPE_WANT_HEARTBEAT,
        ensures
            buffer_match_ok(r, buffer@),
    {
        match nom_heartbeat(buffer) {
            Ok(Some((message, drain))) => (Ok(Some(message)), drain),
            Ok(None) => (Ok(None), 0),
            Err(_) => (Err(()), 0),
        }
    }

    /// Decodes the camera declaration at the front of the buffer.
    pub fn process_buffer_camera(buffer: &[u8]) -> (r: (Result<Option<ClientInput>, ()>, usize))
        requires
            buffer@.len() >= 1,
            buffer@[0] == crate::types::MESSAGE_TYPE_AM_CAMERA,
        ensures
            buffer_match_ok(r, buffer@),
    {
        match nom_camera(buffer) {
            Ok(Some((message, drain))) => (Ok(Some(message)), drain),
            Ok(None) => (Ok(None), 0),
            Err(_) => (Err(()), 0),
        }
    }

    /// Decodes the dispatcher declaration at the front of the buffer.
    pub fn process_buffer_dispatcher(buffer: &[u8]) -> (r: (
        Result<Option<ClientInput>, ()>,
        usize,
    ))
        requires
            buffer@.len() >= 1,
            buffer@[0] == crate::types::MESSAGE_TYPE_AM_DISPATCHER,
        ensures
            buffer_match_ok(r, buffer@),
    {
        match nom_dispatcher(buffer) {
            Ok(Some((message, drain))) => (Ok(Some(message)), drain),
            Ok(None) => (Ok(None), 0),
            Err(_) => (Err(()), 0),
        }
    }

    /// Decodes the message at the front of a connection's buffer and drains
    /// exactly its bytes. A malformed or incomplete buffer is left untouched;
    /// a malformed one yields an error and the connection must close.
    pub fn parse_input_buffer(buffer: &mut Vec<u8>) -> (r: Result<Option<ClientInput>, ()>)
        ensures
            match spec_parse(old(buffer)@) {
                SpecParse::Bad => r is Err && final(buffer)@ == old(buffer)@,
                SpecParse::Incomplete => (r matches Ok(o) && o is None) && final(buffer)@ == old(
                    buffer,
                )@,
                SpecParse::Done(mv, n) => (r matches Ok(o) && (o matches Some(m) && m@ == mv))
                    && final(buffer)@ == old(buffer)@.subrange(n, old(buffer)@.len() as int),
            },
    {
        match nom(buffer.as_slice()) {
            Err(_) => Err(()),
            Ok(None) => Ok(None),
            Ok(Some((message, drain))) => {
                let tail = buffer.split_off(drain);
                *buffer = tail;
                Ok(Some(message))
            },
        }
    }
}

/// With a well-formed roster, the connection found at an identifier carries
/// that identifier.
pub proof fn lemma_roster_conn_id(conns: Seq<(u128, ConnectionView)>, id: u128)
    requires
        forall|j: int| 0 <= j < conns.len() ==> (#[trigger] conns[j]).0 == conns[j].1.id,
    ensures
        lookup(conns, id) matches Some(cv) ==> cv.id == id,
{
    crate::store::lemma_lookup_in(conns, id);
    if let Some(cv) = lookup(conns, id) {
        let i = choose|i: int| 0 <= i < conns.len() && conns[i] == (id, cv);
        assert(conns[i].0 == conns[i].1.id);
    }
}

} // verus!
