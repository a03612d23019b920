//! Messages crossing the wire: inbound client messages, outbound server
//! messages, and the exact byte encoding of the outbound ones.
//!
//! All multi-byte integers are big-endian. Variable-length fields carry a
//! one-byte length prefix.

use vstd::prelude::*;

use crate::models::{Ticket, TicketView};
use crate::types::{MESSAGE_TYPE_ERROR, MESSAGE_TYPE_HEARTBEAT, MESSAGE_TYPE_TICKET};

verus! {

/// Why a connection is being rejected or has failed.
#[derive(Clone, Copy, Debug, PartialEq, Eq, Structural)]
pub enum Error {
    Unknown,
    AlreadyDeclared,
    NotDeclared,
    AlreadyBeating,
    NotACamera,
    InvalidStream,
    InvalidData,
}

/// The errors the server reports to a client before closing its connection.
#[derive(Clone, Copy, Debug, PartialEq, Eq, Structural)]
pub enum ServerError {
    Unknown,
    AlreadyDeclared,
    NotDeclared,
    AlreadyBeating,
    NotACamera,
    InvalidStream,
}

/// The text sent with each server error.
pub open spec fn spec_error_str(e: ServerError) -> Seq<char> {
    match e {
        ServerError::Unknown => "Unknown Error"@,
        ServerError::AlreadyDeclared => "Type Already Declared"@,
        ServerError::NotDeclared => "Type Not Declared"@,
        ServerError::AlreadyBeating => "Heartbeat Already Requested"@,
        ServerError::NotACamera => "Not A Camera"@,
        ServerError::InvalidStream => "Invalid Stream"@,
    }
}

/// The text sent with each server error, as the bytes that go on the wire.
pub open spec fn spec_error_message(e: ServerError) -> Seq<u8> {
    match e {
        ServerError::Unknown => seq![
            'U' as u8, 'n' as u8, 'k' as u8, 'n' as u8, 'o' as u8, 'w' as u8, 'n' as u8,
            ' ' as u8, 'E' as u8, 'r' as u8, 'r' as u8, 'o' as u8, 'r' as u8,
        ],
        ServerError::AlreadyDeclared => seq![
            'T' as u8, 'y' as u8, 'p' as u8, 'e' as u8, ' ' as u8, 'A' as u8, 'l' as u8,
            'r' as u8, 'e' as u8, 'a' as u8, 'd' as u8, 'y' as u8, ' ' as u8, 'D' as u8,
            'e' as u8, 'c' as u8, 'l' as u8, 'a' as u8, 'r' as u8, 'e' as u8, 'd' as u8,
        ],
        ServerError::NotDeclared => seq![
            'T' as u8, 'y' as u8, 'p' as u8, 'e' as u8, ' ' as u8, 'N' as u8, 'o' as u8,
            't' as u8, ' ' as u8, 'D' as u8, 'e' as u8, 'c' as u8, 'l' as u8, 'a' as u8,
            'r' as u8, 'e' as u8, 'd' as u8,
        ],
        ServerError::AlreadyBeating => seq![
            'H' as u8, 'e' as u8, 'a' as u8, 'r' as u8, 't' as u8, 'b' as u8, 'e' as u8,
            'a' as u8, 't' as u8, ' ' as u8, 'A' as u8, 'l' as u8, 'r' as u8, 'e' as u8,
            'a' as u8, 'd' as u8, 'y' as u8, ' ' as u8, 'R' as u8, 'e' as u8, 'q' as u8,
            'u' as u8, 'e' as u8, 's' as u8, 't' as u8, 'e' as u8, 'd' as u8,
        ],
        ServerError::NotACamera => seq![
            'N' as u8, 'o' as u8, 't' as u8, ' ' as u8, 'A' as u8, ' ' as u8, 'C' as u8,
            'a' as u8, 'm' as u8, 'e' as u8, 'r' as u8, 'a' as u8,
        ],
        ServerError::InvalidStream => seq![
            'I' as u8, 'n' as u8, 'v' as u8, 'a' as u8, 'l' as u8, 'i' as u8, 'd' as u8,
            ' ' as u8, 'S' as u8, 't' as u8, 'r' as u8, 'e' as u8, 'a' as u8, 'm' as u8,
        ],
    }
}

impl ServerError {
    /// The canonical text for this error.
    pub fn as_str(&self) -> (r: &'static str)
        ensures
            r@ == spec_error_str(*self),
    {
        match self {
            ServerError::Unknown => "Unknown Error",
            ServerError::AlreadyDeclared => "Type Already Declared",
            ServerError::NotDeclared => "Type Not Declared",
            ServerError::AlreadyBeating => "Heartbeat Already Requested",
            ServerError::NotACamera => "Not A Camera",
            ServerError::InvalidStream => "Invalid Stream",
        }
    }

    /// The canonical text for this error, as wire bytes.
    pub fn message_bytes(&self) -> (r: Vec<u8>)
        ensures
            r@ == spec_error_message(*self),
            1 <= r@.len() <= 27,
    {
        let mut v: Vec<u8> = Vec::new();
        match self {
            ServerError::Unknown => {
                v.push('U' as u8);
                v.push('n' as u8);
                v.push('k' as u8);
                v.push('n' as u8);
                v.push('o' as u8);
                v.push('w' as u8);
                v.push('n' as u8);
                v.push(' ' as u8);
                v.push('E' as u8);
                v.push('r' as u8);
                v.push('r' as u8);
                v.push('o' as u8);
                v.push('r' as u8);
            },
            ServerError::AlreadyDeclared => {
                v.push('T' as u8);
                v.push('y' as u8);
                v.push('p' as u8);
                v.push('e' as u8);
                v.push(' ' as u8);
                v.push('A' as u8);
                v.push('l' as u8);
                v.push('r' as u8);
                v.push('e' as u8);
                v.push('a' as u8);
                v.push('d' as u8);
                v.push('y' as u8);
                v.push(' ' as u8);
                v.push('D' as u8);
                v.push('e' as u8);
                v.push('c' as u8);
                v.push('l' as u8);
                v.push('a' as u8);
                v.push('r' as u8);
                v.push('e' as u8);
                v.push('d' as u8);
            },
            ServerError::NotDeclared => {
                v.push('T' as u8);
                v.push('y' as u8);
                v.push('p' as u8);
                v.push('e' as u8);
                v.push(' ' as u8);
                v.push('N' as u8);
                v.push('o' as u8);
                v.push('t' as u8);
                v.push(' ' as u8);
                v.push('D' as u8);
                v.push('e' as u8);
                v.push('c' as u8);
                v.push('l' as u8);
                v.push('a' as u8);
                v.push('r' as u8);
                v.push('e' as u8);
                v.push('d' as u8);
            },
            ServerError::AlreadyBeating => {
                v.push('H' as u8);
                v.push('e' as u8);
                v.push('a' as u8);
                v.push('r' as u8);
                v.push('t' as u8);
                v.push('b' as u8);
                v.push('e' as u8);
                v.push('a' as u8);
                v.push('t' as u8);
                v.push(' ' as u8);
                v.push('A' as u8);
                v.push('l' as u8);
                v.push('r' as u8);
                v.push('e' as u8);
                v.push('a' as u8);
                v.push('d' as u8);
                v.push('y' as u8);
                v.push(' ' as u8);
                v.push('R' as u8);
                v.push('e' as u8);
                v.push('q' as u8);
                v.push('u' as u8);
                v.push('e' as u8);
                v.push('s' as u8);
                v.push('t' as u8);
                v.push('e' as u8);
                v.push('d' as u8);
            },
            ServerError::NotACamera => {
                v.push('N' as u8);
                v.push('o' as u8);
                v.push('t' as u8);
                v.push(' ' as u8);
                v.push('A' as u8);
                v.push(' ' as u8);
                v.push('C' as u8);
                v.push('a' as u8);
                v.push('m' as u8);
                v.push('e' as u8);
                v.push('r' as u8);
                v.push('a' as u8);
            },
            ServerError::InvalidStream => {
                v.push('I' as u8);
                v.push('n' as u8);
                v.push('v' as u8);
                v.push('a' as u8);
                v.push('l' as u8);
                v.push('i' as u8);
                v.push('d' as u8);
                v.push(' ' as u8);
                v.push('S' as u8);
                v.push('t' as u8);
                v.push('r' as u8);
                v.push('e' as u8);
                v.push('a' as u8);
                v.push('m' as u8);
            },
        }
        proof {
            assert(v@ =~= spec_error_message(*self));
        }
        v
    }
}

/// One decoded client message, or the end of a client's stream.
#[derive(Debug, PartialEq, Eq)]
pub enum ClientInput {
    Plate(Vec<u8>, u32),
    WantHeartbeat(u32),
    IAmCamera(u16, u16, u16),
    IAmDispatcher(Vec<u16>),
    StreamEnded,
    StreamErrored,
}

/// The mathematical value of a `ClientInput`.
pub enum ClientInputView {
    Plate(Seq<u8>, u32),
    WantHeartbeat(u32),
    IAmCamera(u16, u16, u16),
    IAmDispatcher(Seq<u16>),
    StreamEnded,
    StreamErrored,
}

impl View for ClientInput {
    type V = ClientInputView;

    open spec fn view(&self) -> ClientInputView {
        match self {
            ClientInput::Plate(plate, ts) => ClientInputView::Plate(plate@, *ts),
            ClientInput::WantHeartbeat(ds) => ClientInputView::WantHeartbeat(*ds),
            ClientInput::IAmCamera(road, mile, limit) => ClientInputView::IAmCamera(
                *road,
                *mile,
                *limit,
            ),
            ClientInput::IAmDispatcher(roads) => ClientInputView::IAmDispatcher(roads@),
            ClientInput::StreamEnded => ClientInputView::StreamEnded,
            ClientInput::StreamErrored => ClientInputView::StreamErrored,
        }
    }
}

/// A client message tagged with the connection it came from.
pub struct Message {
    pub from: u128,
    pub input: ClientInput,
}

/// One outbound server message.
#[derive(Debug, PartialEq, Eq)]
pub enum ServerOutput {
    Error(ServerError),
    Ticket(Ticket),
    Heartbeat,
}

/// The mathematical value of a `ServerOutput`.
pub enum ServerOutputView {
    Error(ServerError),
    Ticket(TicketView),
    Heartbeat,
}

impl View for ServerOutput {
    type V = ServerOutputView;

    open spec fn view(&self) -> ServerOutputView {
        match self {
            ServerOutput::Error(e) => ServerOutputView::Error(*e),
            ServerOutput::Ticket(t) => ServerOutputView::Ticket(t@),
            ServerOutput::Heartbeat => ServerOutputView::Heartbeat,
        }
    }
}

/// The two big-endian bytes of a 16-bit value.
pub open spec fn be16_bytes(x: u16) -> Seq<u8> {
    seq![(x / 256) as u8, (x % 256) as u8]
}

/// The four big-endian bytes of a 32-bit value.
pub open spec fn be32_bytes(x: u32) -> Seq<u8> {
    seq![
        (x / 16777216) as u8,
        ((x / 65536) % 256) as u8,
        ((x / 256) % 256) as u8,
        (x % 256) as u8,
    ]
}

/// The exact wire encoding of an outbound message.
pub open spec fn spec_output_bytes(o: ServerOutputView) -> Seq<u8> {
    match o {
        ServerOutputView::Error(e) => seq![
            MESSAGE_TYPE_ERROR,
            spec_error_message(e).len() as u8,
        ] + spec_error_message(e),
        ServerOutputView::Ticket(t) => seq![MESSAGE_TYPE_TICKET, t.plate.len() as u8] + t.plate
            + be16_bytes(t.road) + be16_bytes(t.report1.mile_marker) + be32_bytes(
            t.report1.timestamp,
        ) + be16_bytes(t.report2.mile_marker) + be32_bytes(t.report2.timestamp) + be16_bytes(
            t.speed,
        ),
        ServerOutputView::Heartbeat => seq![MESSAGE_TYPE_HEARTBEAT],
    }
}

/// Appends the two big-endian bytes of a 16-bit value.
fn push_be16(v: &mut Vec<u8>, x: u16)
    ensures
        final(v)@ == old(v)@ + be16_bytes(x),
{
    v.push((x / 256) as u8);
    v.push((x % 256) as u8);
    proof {
        assert(final(v)@ =~= old(v)@ + be16_bytes(x));
    }
}

/// Appends the four big-endian bytes of a 32-bit value.
fn push_be32(v: &mut Vec<u8>, x: u32)
    ensures
        final(v)@ == old(v)@ + be32_bytes(x),
{
    v.push((x / 16777216) as u8);
    v.push(((x / 65536) % 256) as u8);
    v.push(((x / 256) % 256) as u8);
    v.push((x % 256) as u8);
    proof {
        assert(final(v)@ =~= old(v)@ + be32_bytes(x));
    }
}

impl ServerOutput {
    /// Encodes this message exactly as it goes on the wire.
    pub fn to_bytes(&self) -> (r: Vec<u8>)
        requires
            self matches ServerOutput::Ticket(t) ==> t@.plate.len() <= 255,
        ensures
            r@ == spec_output_bytes(self@),
    {
        let mut output: Vec<u8> = Vec::new();
        match self {
            ServerOutput::Heartbeat => {
                output.push(MESSAGE_TYPE_HEARTBEAT);
            },
            ServerOutput::Ticket(ticket) => {
                output.push(MESSAGE_TYPE_TICKET);
                output.push(ticket.plate.len() as u8);
                output.extend_from_slice(ticket.plate.as_slice());
                assert(output@ =~= seq![MESSAGE_TYPE_TICKET, ticket@.plate.len() as u8]
                    + ticket@.plate);
                push_be16(&mut output, ticket.road);
                push_be16(&mut output, ticket.report1.mile_marker);
                push_be32(&mut output, ticket.report1.timestamp);
                push_be16(&mut output, ticket.report2.mile_marker);
                push_be32(&mut output, ticket.report2.timestamp);
                push_be16(&mut output, ticket.speed);
            },
            ServerOutput::Error(error) => {
                let message = error.message_bytes();
                output.push(MESSAGE_TYPE_ERROR);
                output.push(message.len() as u8);
                output.extend_from_slice(message.as_slice());
                assert(output@ =~= spec_output_bytes(self@));
            },
        }
        proof {
            assert(output@ =~= spec_output_bytes(self@));
        }
        output
    }
}

} // verus!
