use speed::app::{Application, Effect};
use speed::models::{Connection, Report, Speed, Ticket};
use speed::utils::{hex_str_to_u8s, u8s_to_hex_str};
use speed::wire::{ClientInput, Message, ServerError, ServerOutput};

#[test]
fn heartbeat_encodes_to_one_byte() {
    assert_eq!(vec![0x41u8], ServerOutput::Heartbeat.to_bytes());
}

#[test]
fn error_encodes_type_length_and_text() {
    let bytes = ServerOutput::Error(ServerError::Unknown).to_bytes();
    let mut expected: Vec<u8> = vec![0x10, 13];
    expected.extend_from_slice(b"Unknown Error");
    assert_eq!(expected, bytes);

    let bytes = ServerOutput::Error(ServerError::AlreadyDeclared).to_bytes();
    let mut expected: Vec<u8> = vec![0x10, 21];
    expected.extend_from_slice(b"Type Already Declared");
    assert_eq!(expected, bytes);
}

#[test]
fn error_text_matches_wire_bytes() {
    for e in [
        ServerError::Unknown,
        ServerError::AlreadyDeclared,
        ServerError::NotDeclared,
        ServerError::AlreadyBeating,
        ServerError::NotACamera,
        ServerError::InvalidStream,
    ] {
        assert_eq!(e.as_str().as_bytes().to_vec(), e.message_bytes());
    }
    assert_eq!("Heartbeat Already Requested", ServerError::AlreadyBeating.as_str());
    assert_eq!("Not A Camera", ServerError::NotACamera.as_str());
    assert_eq!("Invalid Stream", ServerError::InvalidStream.as_str());
    assert_eq!("Type Not Declared", ServerError::NotDeclared.as_str());
}

#[test]
fn ticket_encodes_exactly() {
    let ticket = Ticket {
        plate: b"PP47ADL".to_vec(),
        road: 0xa722,
        report1: Report {
            plate: b"PP47ADL".to_vec(),
            road: 0xa722,
            timestamp: 0x00f78811,
            mile_marker: 0x000a,
            limit: 60,
        },
        report2: Report {
            plate: b"PP47ADL".to_vec(),
            road: 0xa722,
            timestamp: 0x00f862bc,
            mile_marker: 0x04ca,
            limit: 60,
        },
        speed: 0x1e78,
    };
    let expected = hex_str_to_u8s(
        "21 07 50 50 34 37 41 44 4c a7 22 00 0a 00 f7 88 11 04 ca 00 f8 62 bc 1e 78",
    )
    .expect("literal is valid hex");
    assert_eq!(expected, ServerOutput::Ticket(ticket).to_bytes());
}

fn feed(app: &mut Application, from: u128, hex: &str) -> Vec<Effect> {
    let mut buffer = hex_str_to_u8s(hex).expect("literal is valid hex");
    let mut effects: Vec<Effect> = Vec::new();
    loop {
        match Application::parse_input_buffer(&mut buffer) {
            Ok(Some(input)) => effects.extend(app.handle_message(Message { from, input })),
            Ok(None) => break,
            Err(()) => panic!("malformed test input"),
        }
    }
    effects
}

#[test]
fn second_violation_of_the_day_is_suppressed_end_to_end() {
    // Three cameras on road 0x1a47 (limit 80 mph), one dispatcher; three
    // sightings of one plate on one day. Only one ticket goes out, with the
    // reports ordered by timestamp, and its bytes are exact.
    let mut app = Application::new();
    for id in 1..=4u128 {
        app.add_connection(Connection {
            id,
            client: None,
            heartbeat: None,
        });
    }
    assert!(feed(&mut app, 1, "80 1a 47 0d 18 00 50").is_empty());
    assert!(feed(&mut app, 2, "80 1a 47 0d 23 00 50").is_empty());
    assert!(feed(&mut app, 3, "80 1a 47 0d 2e 00 50").is_empty());
    assert!(feed(&mut app, 4, "81 01 1a 47").is_empty());

    assert!(feed(&mut app, 2, "20 07 52 56 36 30 55 58 50 02 16 d0 8f").is_empty());
    let effects = feed(&mut app, 1, "20 07 52 56 36 30 55 58 50 02 16 cf 61");
    assert_eq!(1, effects.len());
    let ticket_bytes = match &effects[0] {
        Effect::Send(4, ServerOutput::Ticket(t)) => ServerOutput::Ticket(t.clone()).to_bytes(),
        other => panic!("expected a ticket for the dispatcher, got {other:?}"),
    };
    let expected = hex_str_to_u8s(
        "21 07 52 56 36 30 55 58 50 1a 47 0d 18 02 16 cf 61 0d 23 02 16 d0 8f 33 2c",
    )
    .expect("literal is valid hex");
    assert_eq!(expected, ticket_bytes);

    // A third qualifying sighting the same day produces nothing.
    let effects = feed(&mut app, 3, "20 07 52 56 36 30 55 58 50 02 16 d1 a9");
    assert!(effects.is_empty());
    assert_eq!(0, app.pending_count(0x1a47));
}

#[test]
fn speed_check_boundaries() {
    // 1 mile in 60 s = 60 mph: not above 60.4.
    let s = Speed {
        distance: 1,
        elapsed: 60,
    };
    assert!(!s.exceeds_limit(60));
    // 1 mile in 45 s = 80 mph.
    let s = Speed {
        distance: 1,
        elapsed: 45,
    };
    assert!(s.exceeds_limit(60));
    assert_eq!(8000, s.recorded());
    // 11 miles in 302 s = 131.1 mph, recorded as 131 * 100.
    let s = Speed {
        distance: 11,
        elapsed: 302,
    };
    assert_eq!(13100, s.recorded());
    // Half a mile per hour rounds up.
    let s = Speed {
        distance: 1,
        elapsed: 7200,
    };
    assert_eq!(100, s.recorded());
    // A speed too large for the wire saturates.
    let s = Speed {
        distance: 65535,
        elapsed: 1,
    };
    assert_eq!(65535, s.recorded());
}

#[test]
fn days_applicable_to_span() {
    let report = |ts: u32| Report {
        plate: b"X".to_vec(),
        road: 1,
        timestamp: ts,
        mile_marker: 0,
        limit: 1,
    };
    let same_day = Ticket {
        plate: b"X".to_vec(),
        road: 1,
        report1: report(0),
        report2: report(3600),
        speed: 100,
    };
    assert_eq!(vec![0u32], same_day.get_days_applicable_to());
    let across_midnight = Ticket {
        plate: b"X".to_vec(),
        road: 1,
        report1: report(86300),
        report2: report(86500),
        speed: 100,
    };
    assert_eq!(vec![0u32, 1], across_midnight.get_days_applicable_to());
}

#[test]
fn hex_round_trip() {
    assert_eq!("40 00 00 00 0a", u8s_to_hex_str(&[0x40, 0x00, 0x00, 0x00, 0x0a]));
    assert_eq!("", u8s_to_hex_str(&[]));
    assert_eq!("ff", u8s_to_hex_str(&[0xff]));
    assert_eq!(
        Ok(vec![0x40u8, 0x00, 0x00, 0x00, 0x0a]),
        hex_str_to_u8s("40 00 00 00 0a")
    );
    assert_eq!(Ok(vec![0xabu8, 0xcd]), hex_str_to_u8s("AbCd"));
    assert_eq!(Err(()), hex_str_to_u8s("abc"));
    assert_eq!(Ok(vec![]), hex_str_to_u8s(""));
    let bytes: Vec<u8> = vec![0x00, 0x7f, 0x80, 0xff, 0x21];
    assert_eq!(Ok(bytes.clone()), hex_str_to_u8s(&u8s_to_hex_str(&bytes)));
}
