//! The streaming wire decoder.
//!
//! `spec_parse` is the wire grammar: given the bytes at the front of a
//! connection's buffer it yields exactly one of a decoded message with its
//! length, "incomplete" (more bytes must arrive), or "bad" (the stream is
//! malformed and the connection must close). The executable parsers return
//! precisely what `spec_parse` says. Decoding never consumes a partial
//! message: the caller drains exactly the returned length.

use vstd::prelude::*;

use crate::types::{
    MESSAGE_TYPE_AM_CAMERA, MESSAGE_TYPE_AM_DISPATCHER, MESSAGE_TYPE_PLATE,
    MESSAGE_TYPE_WANT_HEARTBEAT,
};
use crate::utils::{be16, be32};
use crate::wire::{ClientInput, ClientInputView, Error};

verus! {

/// What the grammar says about a byte sequence: a full message and the number
/// of bytes it occupies, or not enough bytes yet, or a malformed stream.
pub enum SpecParse {
    Incomplete,
    Bad,
    Done(ClientInputView, int),
}

/// Grammar of a plate message: type byte, length-prefixed plate, timestamp.
pub open spec fn spec_parse_plate(s: Seq<u8>) -> SpecParse {
    if s.len() < 2 {
        SpecParse::Incomplete
    } else {
        let n = s[1] as int;
        if s.len() < 6 + n {
            SpecParse::Incomplete
        } else {
            SpecParse::Done(
                ClientInputView::Plate(
                    s.subrange(2, 2 + n),
                    be32(s[2 + n], s[3 + n], s[4 + n], s[5 + n]) as u32,
                ),
                6 + n,
            )
        }
    }
}

/// Grammar of a heartbeat request: type byte and a 32-bit interval.
pub open spec fn spec_parse_heartbeat(s: Seq<u8>) -> SpecParse {
    if s.len() < 5 {
        SpecParse::Incomplete
    } else {
        SpecParse::Done(
            ClientInputView::WantHeartbeat(be32(s[1], s[2], s[3], s[4]) as u32),
            5,
        )
    }
}

/// Grammar of a camera declaration: type byte, road, mile marker, limit.
pub open spec fn spec_parse_camera(s: Seq<u8>) -> SpecParse {
    if s.len() < 7 {
        SpecParse::Incomplete
    } else {
        SpecParse::Done(
            ClientInputView::IAmCamera(
                be16(s[1], s[2]) as u16,
                be16(s[3], s[4]) as u16,
                be16(s[5], s[6]) as u16,
            ),
            7,
        )
    }
}

/// The road list of a dispatcher declaration: `count` big-endian values.
pub open spec fn spec_roads(s: Seq<u8>, count: int) -> Seq<u16> {
    Seq::new(count as nat, |i: int| be16(s[2 + 2 * i], s[3 + 2 * i]) as u16)
}

/// Grammar of a dispatcher declaration: type byte, count, that many roads.
pub open spec fn spec_parse_dispatcher(s: Seq<u8>) -> SpecParse {
    if s.len() < 2 {
        SpecParse::Incomplete
    } else {
        let n = s[1] as int;
        if s.len() < 2 + 2 * n {
            SpecParse::Incomplete
        } else {
            SpecParse::Done(ClientInputView::IAmDispatcher(spec_roads(s, n)), 2 + 2 * n)
        }
    }
}

/// The wire grammar: dispatch on the type byte.
pub open spec fn spec_parse(s: Seq<u8>) -> SpecParse {
    if s.len() == 0 {
        SpecParse::Incomplete
    } else if s[0] == MESSAGE_TYPE_PLATE {
        spec_parse_plate(s)
    } else if s[0] == MESSAGE_TYPE_WANT_HEARTBEAT {
        spec_parse_heartbeat(s)
    } else if s[0] == MESSAGE_TYPE_AM_CAMERA {
        spec_parse_camera(s)
    } else if s[0] == MESSAGE_TYPE_AM_DISPATCHER {
        spec_parse_dispatcher(s)
    } else {
        SpecParse::Bad
    }
}

/// A decoded message and its consumed length, not enough bytes yet, or a
/// malformed stream.
pub type InputBufferMatch = Result<Option<(ClientInput, usize)>, Error>;

/// Whether an executable result says what the grammar says.
pub open spec fn parse_matches(r: InputBufferMatch, s: Seq<u8>) -> bool {
    match spec_parse(s) {
        SpecParse::Bad => r == Err::<Option<(ClientInput, usize)>, Error>(Error::InvalidData),
        SpecParse::Incomplete => r == Ok::<Option<(ClientInput, usize)>, Error>(None),
        SpecParse::Done(mv, n) => match r {
            Ok(Some((m, c))) => m@ == mv && c == n,
            _ => false,
        },
    }
}

/// Reads the length-prefixed byte string at the front of `input`: the string
/// and the bytes consumed, or `None` when the input is still too short.
pub fn nom_str(input: &[u8]) -> (r: Option<(Vec<u8>, usize)>)
    ensures
        r is Some <==> input@.len() >= 1 + (if input@.len() >= 1 {
            input@[0] as int
        } else {
            0
        }),
        r matches Some((v, c)) ==> {
            &&& c == 1 + input@[0] as int
            &&& v@ == input@.subrange(1, 1 + input@[0] as int)
        },
{
    if input.len() < 1 {
        return None;
    }
    let n = input[0] as usize;
    if input.len() < 1 + n {
        return None;
    }
    let v = vstd::slice::slice_to_vec(vstd::slice::slice_subrange(input, 1, 1 + n));
    Some((v, 1 + n))
}

/// Reads the count-prefixed list of big-endian 16-bit values at the front of
/// `input`: the list and the bytes consumed, or `None` when too short.
pub fn nom_u16_arr(input: &[u8]) -> (r: Option<(Vec<u16>, usize)>)
    ensures
        r is Some <==> input@.len() >= 1 + 2 * (if input@.len() >= 1 {
            input@[0] as int
        } else {
            0
        }),
        r matches Some((v, c)) ==> {
            &&& c == 1 + 2 * (input@[0] as int)
            &&& v@ == Seq::new(
                input@[0] as nat,
                |i: int| be16(input@[1 + 2 * i], input@[2 + 2 * i]) as u16,
            )
        },
{
    if input.len() < 1 {
        return None;
    }
    let count = input[0] as usize;
    if input.len() < 1 + 2 * count {
        return None;
    }
    let ghost target = Seq::new(
        input@[0] as nat,
        |i: int| be16(input@[1 + 2 * i], input@[2 + 2 * i]) as u16,
    );
    let mut values: Vec<u16> = Vec::new();
    let mut i: usize = 0;
    while i < count
        invariant
            i <= count,
            count == input@[0] as int,
            input@.len() >= 1 + 2 * count,
            values@ =~= target.subrange(0, i as int),
            target == Seq::new(
                input@[0] as nat,
                |j: int| be16(input@[1 + 2 * j], input@[2 + 2 * j]) as u16,
            ),
        decreases count - i,
    {
        let value: u16 = (input[1 + 2 * i] as u16) * 256 + (input[2 + 2 * i] as u16);
        values.push(value);
        proof {
            assert(values@ =~= target.subrange(0, i + 1));
        }
        i = i + 1;
    }
    proof {
        assert(values@ =~= target);
    }
    Some((values, 1 + 2 * count))
}

/// Decodes a plate message; the first byte must be its type byte.
pub fn nom_plate(input: &[u8]) -> (r: InputBufferMatch)
    requires
        input@.len() >= 1,
        input@[0] == MESSAGE_TYPE_PLATE,
    ensures
        parse_matches(r, input@),
{
    match nom_str(vstd::slice::slice_subrange(input, 1, input.len())) {
        None => Ok(None),
        Some((plate, consumed)) => {
            let at = 1 + consumed;
            if input.len() < at + 4 {
                return Ok(None);
            }
            let timestamp: u32 = (((input[at] as u32) * 256 + (input[at + 1] as u32)) * 256
                + (input[at + 2] as u32)) * 256 + (input[at + 3] as u32);
            proof {
                assert(plate@ =~= input@.subrange(2, 2 + input@[1] as int));
            }
            Ok(Some((ClientInput::Plate(plate, timestamp), at + 4)))
        },
    }
}

/// Decodes a heartbeat request; the first byte must be its type byte.
pub fn nom_heartbeat(input: &[u8]) -> (r: InputBufferMatch)
    requires
        input@.len() >= 1,
        input@[0] == MESSAGE_TYPE_WANT_HEARTBEAT,
    ensures
        parse_matches(r, input@),
{
    if input.len() < 5 {
        return Ok(None);
    }
    let interval: u32 = (((input[1] as u32) * 256 + (input[2] as u32)) * 256 + (input[3] as u32))
        * 256 + (input[4] as u32);
    Ok(Some((ClientInput::WantHeartbeat(interval), 5)))
}

/// Decodes a camera declaration; the first byte must be its type byte.
pub fn nom_camera(input: &[u8]) -> (r: InputBufferMatch)
    requires
        input@.len() >= 1,
        input@[0] == MESSAGE_TYPE_AM_CAMERA,
    ensures
        parse_matches(r, input@),
{
    if input.len() < 7 {
        return Ok(None);
    }
    let road: u16 = (input[1] as u16) * 256 + (input[2] as u16);
    let mile: u16 = (input[3] as u16) * 256 + (input[4] as u16);
    let limit: u16 = (input[5] as u16) * 256 + (input[6] as u16);
    Ok(Some((ClientInput::IAmCamera(road, mile, limit), 7)))
}

/// Decodes a dispatcher declaration; the first byte must be its type byte.
pub fn nom_dispatcher(input: &[u8]) -> (r: InputBufferMatch)
    requires
        input@.len() >= 1,
        input@[0] == MESSAGE_TYPE_AM_DISPATCHER,
    ensures
        parse_matches(r, input@),
{
    match nom_u16_arr(vstd::slice::slice_subrange(input, 1, input.len())) {
        None => Ok(None),
        Some((roads, consumed)) => {
            proof {
                let tail = input@.subrange(1, input@.len() as int);
                let target = spec_roads(input@, input@[1] as int);
                assert forall|i: int| 0 <= i < input@[1] as int implies roads@[i] == #[trigger] target[i] by {
                    assert(tail[1 + 2 * i] == input@[2 + 2 * i]);
                    assert(tail[2 + 2 * i] == input@[3 + 2 * i]);
                }
                assert(roads@ =~= target);
            }
            Ok(Some((ClientInput::IAmDispatcher(roads), 1 + consumed)))
        },
    }
}

/// A decoded plate always fits the engine's one-byte length prefix: the
/// grammar reads at most 255 plate bytes, so every parsed plate message
/// satisfies what `Application::handle_message` requires of one.
pub proof fn lemma_parsed_plate_fits(s: Seq<u8>)
    ensures
        spec_parse(s) matches SpecParse::Done(m, n) ==> (m matches ClientInputView::Plate(p, _)
            ==> p.len() <= 255),
{
}

/// Decodes the longest valid message at the front of `input`, exactly as the
/// grammar `spec_parse` reads it: a message plus its consumed length, `None`
/// when more bytes are needed, or `Error::InvalidData` on a malformed stream.
pub fn nom(input: &[u8]) -> (r: InputBufferMatch)
    ensures
        parse_matches(r, input@),
{
    if input.len() == 0 {
        return Ok(None);
    }
    let tag = input[0];
    if tag == MESSAGE_TYPE_PLATE {
        nom_plate(input)
    } else if tag == MESSAGE_TYPE_WANT_HEARTBEAT {
        nom_heartbeat(input)
    } else if tag == MESSAGE_TYPE_AM_CAMERA {
        nom_camera(input)
    } else if tag == MESSAGE_TYPE_AM_DISPATCHER {
        nom_dispatcher(input)
    } else {
        Err(Error::InvalidData)
    }
}

} // verus!
