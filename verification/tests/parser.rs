use speed::parser::nom;
use speed::wire::{ClientInput, Error};

#[test]
fn test_invalid() {
    assert_eq!(
        Error::InvalidData,
        nom(&[0u8]).err().expect("Parsing should have failed.")
    );
}

#[test]
fn test_camera_incomplete() {
    assert!(nom(&[0x80u8, 0x03, 0x11, 0x0c, 0x9d])
        .ok()
        .expect("Parser should not have failed, just incomplete")
        .is_none());
}

#[test]
fn test_camera_exact() {
    assert_eq!(
        Ok(Some((ClientInput::IAmCamera(785, 3229, 100), 7))),
        nom(&[0x80u8, 0x03, 0x11, 0x0c, 0x9d, 0x00, 0x64])
    );
}

#[test]
fn test_camera_overflow() {
    assert_eq!(
        Ok(Some((ClientInput::IAmCamera(785, 3229, 100), 7))),
        nom(&[0x80u8, 0x03, 0x11, 0x0c, 0x9d, 0x00, 0x64, 0x12, 0x34, 0x56])
    );
}

#[test]
fn test_dispatcher_incomplete() {
    assert_eq!(Ok(None), nom(&[0x81u8, 0x01, 0x03]));
    assert_eq!(Ok(None), nom(&[0x81u8, 0x03, 0x0c, 0x9d, 0x00, 0x64, 0x12]));
}

#[test]
fn test_dispatcher_exact() {
    assert_eq!(
        Ok(Some((ClientInput::IAmDispatcher(vec![785]), 4))),
        nom(&[0x81u8, 0x01, 0x03, 0x11])
    );
}

#[test]
fn test_dispatcher_single_overflow() {
    assert_eq!(
        Ok(Some((ClientInput::IAmDispatcher(vec![785]), 4))),
        nom(&[0x81u8, 0x01, 0x03, 0x11, 0xab])
    );
}

#[test]
fn test_dispatcher_multiple_overflow() {
    assert_eq!(
        Ok(Some((ClientInput::IAmDispatcher(vec![785, 43933]), 6))),
        nom(&[0x81u8, 0x02, 0x03, 0x11, 0xab, 0x9d, 0x00, 0x64, 0x12])
    );
}

#[test]
fn test_empty_buffer_incomplete() {
    assert_eq!(Ok(None), nom(&[]));
}

#[test]
fn test_plate_exact() {
    // 0x20, len 3, "ABC", timestamp 0x00000a61
    assert_eq!(
        Ok(Some((ClientInput::Plate(vec![0x41, 0x42, 0x43], 2657), 9))),
        nom(&[0x20u8, 0x03, 0x41, 0x42, 0x43, 0x00, 0x00, 0x0a, 0x61])
    );
}

#[test]
fn test_plate_incomplete() {
    assert_eq!(Ok(None), nom(&[0x20u8, 0x03, 0x41, 0x42, 0x43, 0x00, 0x00]));
}

#[test]
fn test_plate_empty_name() {
    // A zero-length plate is structurally valid on the wire.
    assert_eq!(
        Ok(Some((ClientInput::Plate(vec![], 10), 6))),
        nom(&[0x20u8, 0x00, 0x00, 0x00, 0x00, 0x0a])
    );
}

#[test]
fn test_heartbeat_exact() {
    assert_eq!(
        Ok(Some((ClientInput::WantHeartbeat(10), 5))),
        nom(&[0x40u8, 0x00, 0x00, 0x00, 0x0a])
    );
}

#[test]
fn test_heartbeat_incomplete() {
    assert_eq!(Ok(None), nom(&[0x40u8, 0x00, 0x00, 0x00]));
}

#[test]
fn test_dispatcher_empty_roads() {
    assert_eq!(
        Ok(Some((ClientInput::IAmDispatcher(vec![]), 2))),
        nom(&[0x81u8, 0x00])
    );
}

#[test]
fn test_parse_input_buffer_drains_exactly_one_message() {
    let mut buffer: Vec<u8> = vec![0x40u8, 0x00, 0x00, 0x00, 0x0a, 0x41, 0x42];
    let first = speed::app::Application::parse_input_buffer(&mut buffer);
    assert_eq!(Ok(Some(ClientInput::WantHeartbeat(10))), first);
    assert_eq!(vec![0x41u8, 0x42], buffer);
}

#[test]
fn test_parse_input_buffer_keeps_incomplete_message() {
    let mut buffer: Vec<u8> = vec![0x40u8, 0x00, 0x00];
    let first = speed::app::Application::parse_input_buffer(&mut buffer);
    assert_eq!(Ok(None), first);
    assert_eq!(vec![0x40u8, 0x00, 0x00], buffer);
}

#[test]
fn test_parse_input_buffer_rejects_unknown_type() {
    let mut buffer: Vec<u8> = vec![0x99u8, 0x01];
    let first = speed::app::Application::parse_input_buffer(&mut buffer);
    assert_eq!(Err(()), first);
    assert_eq!(vec![0x99u8, 0x01], buffer);
}
