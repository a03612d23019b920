use speed::app::{Application, Effect};
use speed::models::Connection;
use speed::wire::{ClientInput, Message, ServerError, ServerOutput};

fn conn(id: u128) -> Connection {
    Connection {
        id,
        client: None,
        heartbeat: None,
    }
}

fn msg(from: u128, input: ClientInput) -> Message {
    Message { from, input }
}

#[test]
fn no_ticket_on_first_sighting() {
    let mut app = Application::new();
    app.add_connection(conn(1));
    assert!(app
        .handle_message(msg(1, ClientInput::IAmCamera(123, 8, 60)))
        .is_empty());
    let effects = app.handle_message(msg(1, ClientInput::Plate(b"ABC".to_vec(), 0)));
    assert!(effects.is_empty());
    assert_eq!(0, app.pending_count(123));
}

#[test]
fn at_the_limit_is_not_a_violation() {
    // 1 mile in 60 seconds is 60 mph, not above 60.4.
    let mut app = Application::new();
    app.add_connection(conn(1));
    app.add_connection(conn(2));
    app.handle_message(msg(1, ClientInput::IAmCamera(123, 8, 60)));
    app.handle_message(msg(2, ClientInput::IAmCamera(123, 9, 60)));
    app.handle_message(msg(1, ClientInput::Plate(b"ABC".to_vec(), 0)));
    let effects = app.handle_message(msg(2, ClientInput::Plate(b"ABC".to_vec(), 60)));
    assert!(effects.is_empty());
    assert_eq!(0, app.pending_count(123));
}

#[test]
fn violation_produces_ticket_with_speed_times_100() {
    // 1 mile in 45 seconds is 80 mph, above 60.4: ticket with speed 8000.
    let mut app = Application::new();
    app.add_connection(conn(1));
    app.add_connection(conn(2));
    app.handle_message(msg(1, ClientInput::IAmCamera(123, 8, 60)));
    app.handle_message(msg(2, ClientInput::IAmCamera(123, 9, 60)));
    app.handle_message(msg(1, ClientInput::Plate(b"ABC".to_vec(), 0)));
    let effects = app.handle_message(msg(2, ClientInput::Plate(b"ABC".to_vec(), 45)));
    // No dispatcher is connected: the ticket is queued, not sent.
    assert!(effects.is_empty());
    assert_eq!(1, app.pending_count(123));

    // The first dispatcher for road 123 receives it.
    app.add_connection(conn(9));
    let effects = app.handle_message(msg(9, ClientInput::IAmDispatcher(vec![123])));
    assert_eq!(1, effects.len());
    match &effects[0] {
        Effect::Send(9, ServerOutput::Ticket(t)) => {
            assert_eq!(b"ABC".to_vec(), t.plate);
            assert_eq!(123, t.road);
            assert_eq!(8, t.report1.mile_marker);
            assert_eq!(0, t.report1.timestamp);
            assert_eq!(9, t.report2.mile_marker);
            assert_eq!(45, t.report2.timestamp);
            assert_eq!(8000, t.speed);
        }
        other => panic!("expected a ticket for connection 9, got {other:?}"),
    }
    assert_eq!(0, app.pending_count(123));
}

#[test]
fn ticket_reports_are_ordered_by_timestamp_not_arrival() {
    // The later sighting arrives first; the ticket still lists the earlier
    // report first.
    let mut app = Application::new();
    app.add_connection(conn(1));
    app.add_connection(conn(2));
    app.add_connection(conn(9));
    app.handle_message(msg(9, ClientInput::IAmDispatcher(vec![123])));
    app.handle_message(msg(1, ClientInput::IAmCamera(123, 8, 60)));
    app.handle_message(msg(2, ClientInput::IAmCamera(123, 9, 60)));
    app.handle_message(msg(2, ClientInput::Plate(b"ABC".to_vec(), 45)));
    let effects = app.handle_message(msg(1, ClientInput::Plate(b"ABC".to_vec(), 0)));
    assert_eq!(1, effects.len());
    match &effects[0] {
        Effect::Send(9, ServerOutput::Ticket(t)) => {
            assert_eq!(0, t.report1.timestamp);
            assert_eq!(8, t.report1.mile_marker);
            assert_eq!(45, t.report2.timestamp);
            assert_eq!(9, t.report2.mile_marker);
            assert_eq!(8000, t.speed);
        }
        other => panic!("expected a ticket for connection 9, got {other:?}"),
    }
}

#[test]
fn one_ticket_per_plate_per_day() {
    // Two qualifying violations on the same day: only the first is issued.
    let mut app = Application::new();
    app.add_connection(conn(1));
    app.add_connection(conn(2));
    app.add_connection(conn(3));
    app.handle_message(msg(1, ClientInput::IAmCamera(9, 0, 10)));
    app.handle_message(msg(2, ClientInput::IAmCamera(9, 100, 10)));
    app.handle_message(msg(3, ClientInput::IAmCamera(9, 200, 10)));
    app.handle_message(msg(1, ClientInput::Plate(b"DDD".to_vec(), 0)));
    app.handle_message(msg(2, ClientInput::Plate(b"DDD".to_vec(), 3600)));
    assert_eq!(1, app.pending_count(9));
    // 100 miles in the next hour of the same day: suppressed.
    let effects = app.handle_message(msg(3, ClientInput::Plate(b"DDD".to_vec(), 7200)));
    assert!(effects.is_empty());
    assert_eq!(1, app.pending_count(9));
}

#[test]
fn ticket_spanning_two_days_consumes_both() {
    let mut app = Application::new();
    app.add_connection(conn(1));
    app.add_connection(conn(2));
    app.add_connection(conn(3));
    app.handle_message(msg(1, ClientInput::IAmCamera(7, 0, 5)));
    app.handle_message(msg(2, ClientInput::IAmCamera(7, 10, 5)));
    app.handle_message(msg(3, ClientInput::IAmCamera(7, 2000, 5)));
    // 10 miles in 200 seconds across midnight: the ticket spans day 0 and
    // day 1 and claims both.
    app.handle_message(msg(1, ClientInput::Plate(b"EEE".to_vec(), 86300)));
    app.handle_message(msg(2, ClientInput::Plate(b"EEE".to_vec(), 86500)));
    assert_eq!(1, app.pending_count(7));
    // A later violation touching day 1 is suppressed.
    let effects = app.handle_message(msg(3, ClientInput::Plate(b"EEE".to_vec(), 172000)));
    assert!(effects.is_empty());
    assert_eq!(1, app.pending_count(7));
}

#[test]
fn different_roads_do_not_pair() {
    let mut app = Application::new();
    app.add_connection(conn(1));
    app.add_connection(conn(2));
    app.handle_message(msg(1, ClientInput::IAmCamera(1, 0, 10)));
    app.handle_message(msg(2, ClientInput::IAmCamera(2, 100, 10)));
    app.handle_message(msg(1, ClientInput::Plate(b"FFF".to_vec(), 0)));
    let effects = app.handle_message(msg(2, ClientInput::Plate(b"FFF".to_vec(), 3600)));
    assert!(effects.is_empty());
    assert_eq!(0, app.pending_count(1));
    assert_eq!(0, app.pending_count(2));
}

#[test]
fn equal_timestamps_are_ignored() {
    let mut app = Application::new();
    app.add_connection(conn(1));
    app.add_connection(conn(2));
    app.handle_message(msg(1, ClientInput::IAmCamera(3, 0, 10)));
    app.handle_message(msg(2, ClientInput::IAmCamera(3, 500, 10)));
    app.handle_message(msg(1, ClientInput::Plate(b"GGG".to_vec(), 100)));
    let effects = app.handle_message(msg(2, ClientInput::Plate(b"GGG".to_vec(), 100)));
    assert!(effects.is_empty());
    assert_eq!(0, app.pending_count(3));
}

#[test]
fn second_declaration_is_rejected() {
    let mut app = Application::new();
    app.add_connection(conn(1));
    assert!(app
        .handle_message(msg(1, ClientInput::IAmCamera(123, 8, 60)))
        .is_empty());
    let effects = app.handle_message(msg(1, ClientInput::IAmCamera(123, 8, 60)));
    assert_eq!(
        vec![
            Effect::Send(1, ServerOutput::Error(ServerError::AlreadyDeclared)),
            Effect::Close(1),
        ],
        effects
    );
    // The connection is gone: further messages from it do nothing.
    assert!(app
        .handle_message(msg(1, ClientInput::Plate(b"ABC".to_vec(), 0)))
        .is_empty());
}

#[test]
fn dispatcher_then_camera_declaration_is_rejected() {
    let mut app = Application::new();
    app.add_connection(conn(1));
    app.handle_message(msg(1, ClientInput::IAmDispatcher(vec![5])));
    let effects = app.handle_message(msg(1, ClientInput::IAmCamera(5, 0, 10)));
    assert_eq!(
        vec![
            Effect::Send(1, ServerOutput::Error(ServerError::AlreadyDeclared)),
            Effect::Close(1),
        ],
        effects
    );
}

#[test]
fn plate_from_dispatcher_is_not_a_camera() {
    let mut app = Application::new();
    app.add_connection(conn(1));
    app.handle_message(msg(1, ClientInput::IAmDispatcher(vec![5])));
    let effects = app.handle_message(msg(1, ClientInput::Plate(b"ABC".to_vec(), 0)));
    assert_eq!(
        vec![
            Effect::Send(1, ServerOutput::Error(ServerError::NotACamera)),
            Effect::Close(1),
        ],
        effects
    );
}

#[test]
fn plate_from_undeclared_is_not_declared() {
    let mut app = Application::new();
    app.add_connection(conn(1));
    let effects = app.handle_message(msg(1, ClientInput::Plate(b"ABC".to_vec(), 0)));
    assert_eq!(
        vec![
            Effect::Send(1, ServerOutput::Error(ServerError::NotDeclared)),
            Effect::Close(1),
        ],
        effects
    );
}

#[test]
fn queued_tickets_delivered_in_full_to_first_dispatcher() {
    let mut app = Application::new();
    app.add_connection(conn(1));
    app.add_connection(conn(2));
    app.handle_message(msg(1, ClientInput::IAmCamera(42, 0, 10)));
    app.handle_message(msg(2, ClientInput::IAmCamera(42, 100, 10)));
    app.handle_message(msg(1, ClientInput::Plate(b"AAA".to_vec(), 0)));
    app.handle_message(msg(2, ClientInput::Plate(b"AAA".to_vec(), 3600)));
    app.handle_message(msg(1, ClientInput::Plate(b"BBB".to_vec(), 10)));
    app.handle_message(msg(2, ClientInput::Plate(b"BBB".to_vec(), 3610)));
    assert_eq!(2, app.pending_count(42));

    app.add_connection(conn(9));
    let effects = app.handle_message(msg(9, ClientInput::IAmDispatcher(vec![42])));
    assert_eq!(2, effects.len());
    let mut plates: Vec<Vec<u8>> = Vec::new();
    for effect in &effects {
        match effect {
            Effect::Send(9, ServerOutput::Ticket(t)) => plates.push(t.plate.clone()),
            other => panic!("expected a ticket for connection 9, got {other:?}"),
        }
    }
    assert_eq!(vec![b"AAA".to_vec(), b"BBB".to_vec()], plates);
    assert_eq!(0, app.pending_count(42));

    // None left for a second dispatcher: each ticket is delivered once.
    app.add_connection(conn(10));
    let effects = app.handle_message(msg(10, ClientInput::IAmDispatcher(vec![42])));
    assert!(effects.is_empty());
}

#[test]
fn connected_dispatcher_receives_ticket_directly() {
    let mut app = Application::new();
    app.add_connection(conn(1));
    app.add_connection(conn(2));
    app.add_connection(conn(9));
    app.handle_message(msg(9, ClientInput::IAmDispatcher(vec![77, 78])));
    app.handle_message(msg(1, ClientInput::IAmCamera(77, 0, 10)));
    app.handle_message(msg(2, ClientInput::IAmCamera(77, 100, 10)));
    app.handle_message(msg(1, ClientInput::Plate(b"HHH".to_vec(), 0)));
    let effects = app.handle_message(msg(2, ClientInput::Plate(b"HHH".to_vec(), 3600)));
    assert_eq!(1, effects.len());
    match &effects[0] {
        Effect::Send(9, ServerOutput::Ticket(t)) => assert_eq!(77, t.road),
        other => panic!("expected a ticket for connection 9, got {other:?}"),
    }
    assert_eq!(0, app.pending_count(77));
}

#[test]
fn want_heartbeat_starts_a_timer() {
    let mut app = Application::new();
    app.add_connection(conn(1));
    let effects = app.handle_message(msg(1, ClientInput::WantHeartbeat(10)));
    assert_eq!(vec![Effect::StartHeartbeat(1, 10)], effects);
}

#[test]
fn zero_heartbeat_interval_still_counts_as_requested() {
    let mut app = Application::new();
    app.add_connection(conn(1));
    let effects = app.handle_message(msg(1, ClientInput::WantHeartbeat(0)));
    assert!(effects.is_empty());
    let effects = app.handle_message(msg(1, ClientInput::WantHeartbeat(10)));
    assert_eq!(
        vec![
            Effect::Send(1, ServerOutput::Error(ServerError::AlreadyBeating)),
            Effect::Close(1),
        ],
        effects
    );
}

#[test]
fn second_heartbeat_request_is_rejected() {
    let mut app = Application::new();
    app.add_connection(conn(1));
    app.handle_message(msg(1, ClientInput::WantHeartbeat(10)));
    let effects = app.handle_message(msg(1, ClientInput::WantHeartbeat(5)));
    assert_eq!(
        vec![
            Effect::Send(1, ServerOutput::Error(ServerError::AlreadyBeating)),
            Effect::Close(1),
        ],
        effects
    );
}

#[test]
fn stream_end_closes_silently() {
    let mut app = Application::new();
    app.add_connection(conn(1));
    let effects = app.handle_message(msg(1, ClientInput::StreamEnded));
    assert_eq!(vec![Effect::Close(1)], effects);
}

#[test]
fn stream_error_reports_invalid_stream() {
    let mut app = Application::new();
    app.add_connection(conn(1));
    let effects = app.handle_message(msg(1, ClientInput::StreamErrored));
    assert_eq!(
        vec![
            Effect::Send(1, ServerOutput::Error(ServerError::InvalidStream)),
            Effect::Close(1),
        ],
        effects
    );
}

#[test]
fn message_from_unknown_connection_does_nothing() {
    let mut app = Application::new();
    let effects = app.handle_message(msg(5, ClientInput::WantHeartbeat(10)));
    assert!(effects.is_empty());
}

#[test]
fn new_connection_is_undeclared() {
    let c = Connection::new();
    assert!(c.client.is_none());
    assert!(c.heartbeat.is_none());
}

#[test]
fn duplicate_roads_in_declaration_deliver_once() {
    let mut app = Application::new();
    app.add_connection(conn(1));
    app.add_connection(conn(2));
    app.handle_message(msg(1, ClientInput::IAmCamera(42, 0, 10)));
    app.handle_message(msg(2, ClientInput::IAmCamera(42, 100, 10)));
    app.handle_message(msg(1, ClientInput::Plate(b"JJJ".to_vec(), 0)));
    app.handle_message(msg(2, ClientInput::Plate(b"JJJ".to_vec(), 3600)));
    assert_eq!(1, app.pending_count(42));

    app.add_connection(conn(9));
    let effects = app.handle_message(msg(9, ClientInput::IAmDispatcher(vec![42, 42])));
    assert_eq!(1, effects.len());
    assert_eq!(0, app.pending_count(42));
}

#[test]
fn dispatcher_drains_all_its_roads() {
    let mut app = Application::new();
    app.add_connection(conn(1));
    app.add_connection(conn(2));
    app.add_connection(conn(3));
    app.add_connection(conn(4));
    app.handle_message(msg(1, ClientInput::IAmCamera(1, 0, 10)));
    app.handle_message(msg(2, ClientInput::IAmCamera(1, 100, 10)));
    app.handle_message(msg(3, ClientInput::IAmCamera(2, 0, 10)));
    app.handle_message(msg(4, ClientInput::IAmCamera(2, 100, 10)));
    app.handle_message(msg(1, ClientInput::Plate(b"KKK".to_vec(), 0)));
    app.handle_message(msg(2, ClientInput::Plate(b"KKK".to_vec(), 3600)));
    app.handle_message(msg(3, ClientInput::Plate(b"LLL".to_vec(), 0)));
    app.handle_message(msg(4, ClientInput::Plate(b"LLL".to_vec(), 3600)));
    assert_eq!(1, app.pending_count(1));
    assert_eq!(1, app.pending_count(2));

    app.add_connection(conn(9));
    let effects = app.handle_message(msg(9, ClientInput::IAmDispatcher(vec![1, 2])));
    assert_eq!(2, effects.len());
    let mut roads: Vec<u16> = Vec::new();
    for effect in &effects {
        match effect {
            Effect::Send(9, ServerOutput::Ticket(t)) => roads.push(t.road),
            other => panic!("expected a ticket for connection 9, got {other:?}"),
        }
    }
    roads.sort();
    assert_eq!(vec![1u16, 2], roads);
    assert_eq!(0, app.pending_count(1));
    assert_eq!(0, app.pending_count(2));
}
