//! Value types of the engine: reports, tickets, connection roles, and the
//! exact integer arithmetic behind the speed check.
//!
//! A speed in miles per hour is the rational number `distance * 3600 /
//! elapsed`. The enforcement threshold is `limit + 0.4` mph, so the check
//! `speed > limit + 0.4` is the integer comparison `36000 * distance >
//! (10 * limit + 4) * elapsed`. The speed recorded on a ticket is the speed
//! rounded half-up to a whole mile per hour, times one hundred, saturated at
//! the largest 16-bit value.

use vstd::prelude::*;

use crate::types::DAY_IN_SECONDS;

verus! {

/// The absolute difference of two mile markers.
pub open spec fn abs_diff_u16(a: u16, b: u16) -> int {
    if a >= b {
        a - b
    } else {
        b - a
    }
}

/// The absolute difference of two timestamps.
pub open spec fn abs_diff_u32(a: u32, b: u32) -> int {
    if a >= b {
        a - b
    } else {
        b - a
    }
}

/// `distance / (elapsed / 3600) > limit + 0.4`, as an integer comparison.
pub open spec fn speed_exceeds_limit(distance: int, elapsed: int, limit: u16) -> bool {
    36000 * distance > (10 * limit + 4) * elapsed
}

/// The speed in mph rounded half-up, times 100, saturated to 16 bits.
pub open spec fn recorded_speed(distance: int, elapsed: int) -> u16 {
    let rounded = (7200 * distance + elapsed) / (2 * elapsed);
    if rounded * 100 > 65535 {
        65535u16
    } else {
        (rounded * 100) as u16
    }
}

/// The day number a timestamp falls on.
pub open spec fn spec_day_of(ts: u32) -> u32 {
    (ts / DAY_IN_SECONDS) as u32
}

/// One plate sighting: the plate and timestamp from the wire message, the
/// road, mile marker and limit from the camera that observed it.
#[derive(Debug, PartialEq, Eq)]
pub struct Report {
    pub plate: Vec<u8>,
    pub road: u16,
    pub timestamp: u32,
    pub mile_marker: u16,
    pub limit: u16,
}

/// The mathematical value of a `Report`.
pub struct ReportView {
    pub plate: Seq<u8>,
    pub road: u16,
    pub timestamp: u32,
    pub mile_marker: u16,
    pub limit: u16,
}

impl View for Report {
    type V = ReportView;

    open spec fn view(&self) -> ReportView {
        ReportView {
            plate: self.plate@,
            road: self.road,
            timestamp: self.timestamp,
            mile_marker: self.mile_marker,
            limit: self.limit,
        }
    }
}

impl Clone for Report {
    fn clone(&self) -> (r: Self)
        ensures
            r@ == self@,
    {
        let r = Report {
            plate: clone_plate(&self.plate),
            road: self.road,
            timestamp: self.timestamp,
            mile_marker: self.mile_marker,
            limit: self.limit,
        };
        proof {
            assert(r@ == self@);
        }
        r
    }
}

/// Copies a plate byte string.
pub fn clone_plate(plate: &Vec<u8>) -> (r: Vec<u8>)
    ensures
        r@ == plate@,
{
    let r = plate.clone();
    proof {
        assert(r@ =~= plate@);
    }
    r
}

/// A positive travel observation between two sightings on one road.
pub struct Speed {
    pub distance: u16,
    pub elapsed: u32,
}

impl Speed {
    /// Whether this speed exceeds `limit + 0.4` mph.
    pub fn exceeds_limit(&self, limit: u16) -> (r: bool)
        ensures
            r == speed_exceeds_limit(self.distance as int, self.elapsed as int, limit),
    {
        let factor: u64 = 10u64 * (limit as u64) + 4;
        proof {
            vstd::arithmetic::mul::lemma_mul_upper_bound(
                factor as int,
                655354,
                self.elapsed as int,
                4294967295,
            );
        }
        36000u64 * (self.distance as u64) > factor * (self.elapsed as u64)
    }

    /// The speed for the ticket: mph rounded half-up, times 100, saturated.
    pub fn recorded(&self) -> (r: u16)
        requires
            self.elapsed > 0,
        ensures
            r == recorded_speed(self.distance as int, self.elapsed as int),
    {
        let numerator: u64 = 7200u64 * (self.distance as u64) + (self.elapsed as u64);
        let rounded: u64 = numerator / (2 * (self.elapsed as u64));
        assert(rounded <= numerator) by {
            vstd::arithmetic::div_mod::lemma_div_is_ordered_by_denominator(
                numerator as int,
                1,
                2 * (self.elapsed as int),
            );
        }
        let scaled: u64 = rounded * 100;
        if scaled > 65535 {
            65535u16
        } else {
            scaled as u16
        }
    }
}

impl Report {
    /// Builds a report from a sighting and the observing camera's data.
    pub fn new(plate: Vec<u8>, timestamp: u32, road: u16, mile_marker: u16, limit: u16) -> (r:
        Report)
        ensures
            r@ == (ReportView { plate: plate@, road, timestamp, mile_marker, limit }),
    {
        Report { plate, timestamp, road, mile_marker, limit }
    }

    /// The distance and elapsed time between this sighting and a previous one,
    /// defined exactly when both lie on the same road at distinct times.
    pub fn calculate_speed(&self, previous: &Report) -> (r: Option<Speed>)
        ensures
            r is Some <==> (self.road == previous.road && self.timestamp != previous.timestamp),
            r matches Some(s) ==> {
                &&& s.distance == abs_diff_u16(self.mile_marker, previous.mile_marker)
                &&& s.elapsed == abs_diff_u32(self.timestamp, previous.timestamp)
                &&& s.elapsed > 0
            },
    {
        if self.road == previous.road && self.timestamp != previous.timestamp {
            let distance: u16 = if self.mile_marker >= previous.mile_marker {
                self.mile_marker - previous.mile_marker
            } else {
                previous.mile_marker - self.mile_marker
            };
            let elapsed: u32 = if self.timestamp >= previous.timestamp {
                self.timestamp - previous.timestamp
            } else {
                previous.timestamp - self.timestamp
            };
            Some(Speed { distance, elapsed })
        } else {
            None
        }
    }
}

/// A speeding violation: two sightings of one plate on one road, ordered by
/// timestamp, with the recorded speed.
#[derive(Debug, PartialEq, Eq)]
pub struct Ticket {
    pub plate: Vec<u8>,
    pub road: u16,
    pub report1: Report,
    pub report2: Report,
    pub speed: u16,
}

/// The mathematical value of a `Ticket`.
pub struct TicketView {
    pub plate: Seq<u8>,
    pub road: u16,
    pub report1: ReportView,
    pub report2: ReportView,
    pub speed: u16,
}

impl View for Ticket {
    type V = TicketView;

    open spec fn view(&self) -> TicketView {
        TicketView {
            plate: self.plate@,
            road: self.road,
            report1: self.report1@,
            report2: self.report2@,
            speed: self.speed,
        }
    }
}

impl Clone for Ticket {
    fn clone(&self) -> (r: Self)
        ensures
            r@ == self@,
    {
        Ticket {
            plate: clone_plate(&self.plate),
            road: self.road,
            report1: self.report1.clone(),
            report2: self.report2.clone(),
            speed: self.speed,
        }
    }
}

/// The ticket built from two same-plate, same-road reports: `report1` is the
/// earlier sighting by timestamp, whichever report arrived last.
pub open spec fn make_ticket_from(cur: ReportView, prev: ReportView, speed: u16) -> TicketView {
    let (earlier, later) = if prev.timestamp <= cur.timestamp {
        (prev, cur)
    } else {
        (cur, prev)
    };
    TicketView { plate: cur.plate, road: cur.road, report1: earlier, report2: later, speed }
}

/// The ticket that a new sighting `cur` produces against the previous
/// sighting `prev` of the same plate: one exactly when both lie on the same
/// road at distinct times and the average speed exceeds the camera's limit by
/// more than the margin.
pub open spec fn spec_plate_ticket(cur: ReportView, prev: ReportView) -> Option<TicketView> {
    let distance = abs_diff_u16(cur.mile_marker, prev.mile_marker);
    let elapsed = abs_diff_u32(cur.timestamp, prev.timestamp);
    if cur.road == prev.road && cur.timestamp != prev.timestamp && speed_exceeds_limit(
        distance,
        elapsed,
        cur.limit,
    ) {
        Some(make_ticket_from(cur, prev, recorded_speed(distance, elapsed)))
    } else {
        None
    }
}

impl Ticket {
    /// Orders the two reports by timestamp and records the speed.
    pub fn from_reports(current: Report, previous: Report, speed: u16) -> (r: Ticket)
        ensures
            r@ == make_ticket_from(current@, previous@, speed),
    {
        let plate = clone_plate(&current.plate);
        let road = current.road;
        if previous.timestamp <= current.timestamp {
            Ticket { plate, road, report1: previous, report2: current, speed }
        } else {
            Ticket { plate, road, report1: current, report2: previous, speed }
        }
    }

    /// The day numbers this ticket spans: one or two distinct values.
    pub open spec fn spec_days(t: TicketView) -> Seq<u32> {
        let day1 = spec_day_of(t.report1.timestamp);
        let day2 = spec_day_of(t.report2.timestamp);
        if day1 == day2 {
            seq![day1]
        } else {
            seq![day1, day2]
        }
    }

    /// The day numbers this ticket spans.
    pub fn get_days_applicable_to(&self) -> (r: Vec<u32>)
        ensures
            r@ == Ticket::spec_days(self@),
            1 <= r@.len() <= 2,
    {
        let day1: u32 = self.report1.timestamp / DAY_IN_SECONDS;
        let day2: u32 = self.report2.timestamp / DAY_IN_SECONDS;
        let mut days: Vec<u32> = Vec::new();
        days.push(day1);
        if day1 != day2 {
            days.push(day2);
        }
        proof {
            assert(days@ =~= Ticket::spec_days(self@));
        }
        days
    }
}

/// A camera's fixed observation point, immutable once declared.
#[derive(Clone, Copy)]
pub struct Camera {
    pub road: u16,
    pub mile_marker: u16,
    pub limit: u16,
}

/// A dispatcher's declared set of roads, immutable once declared.
pub struct Dispatcher {
    pub roads: Vec<u16>,
}

/// The declared role of a connection.
pub enum Client {
    Camera(Camera),
    Dispatcher(Dispatcher),
}

/// The mathematical value of a `Client`.
pub enum ClientView {
    Camera { road: u16, mile_marker: u16, limit: u16 },
    Dispatcher { roads: Seq<u16> },
}

impl View for Client {
    type V = ClientView;

    open spec fn view(&self) -> ClientView {
        match self {
            Client::Camera(c) => ClientView::Camera {
                road: c.road,
                mile_marker: c.mile_marker,
                limit: c.limit,
            },
            Client::Dispatcher(d) => ClientView::Dispatcher { roads: d.roads@ },
        }
    }
}

/// One accepted connection: its identifier, its role (set at most once), and
/// whether a heartbeat has been requested.
pub struct Connection {
    pub id: u128,
    pub client: Option<Client>,
    pub heartbeat: Option<u32>,
}

/// The mathematical value of a `Connection`.
pub struct ConnectionView {
    pub id: u128,
    pub client: Option<ClientView>,
    pub heartbeat: Option<u32>,
}

impl View for Connection {
    type V = ConnectionView;

    open spec fn view(&self) -> ConnectionView {
        ConnectionView {
            id: self.id,
            client: match self.client {
                Some(c) => Some(c@),
                None => None,
            },
            heartbeat: self.heartbeat,
        }
    }
}

/// Relies on `uuid::Uuid::new_v4` for a random 128-bit identifier, converted
/// to a plain integer with `uuid::Uuid::as_u128`. The value is random, so
/// nothing is promised of it.
#[verifier::external_body]
fn fresh_connection_id() -> u128 {
    uuid::Uuid::new_v4().as_u128()
}

impl Connection {
    /// A new connection: a fresh random identifier, no role, no heartbeat.
    pub fn new() -> (r: Connection)
        ensures
            r@.client is None,
            r@.heartbeat is None,
    {
        Connection { id: fresh_connection_id(), client: None, heartbeat: None }
    }
}

} // verus!
