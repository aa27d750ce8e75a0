//! The wire protocol of the sync service: length-prefixed frames and the
//! request/response message kinds.

use vstd::prelude::*;

verus! {

/// A request from a remote viewer.
#[derive(Clone, Copy, Debug, PartialEq, Eq, Structural)]
pub enum ClientMessage {
    GetPlayerView,
}

/// A reply to a remote viewer; each variant carries the serialized view.
#[derive(Debug)]
pub enum ServerMessage {
    DmView(String),
    PlayerView(String),
    CombatState(String),
}

/// The 4-byte big-endian encoding of a frame length.
pub open spec fn spec_len_bytes(n: int) -> Seq<u8> {
    seq![
        (n / 16777216 % 256) as u8,
        (n / 65536 % 256) as u8,
        (n / 256 % 256) as u8,
        (n % 256) as u8,
    ]
}

/// A frame: the 4-byte big-endian payload length, then the payload.
pub open spec fn spec_frame(payload: Seq<u8>) -> Seq<u8> {
    spec_len_bytes(payload.len() as int) + payload
}

/// Wrap a payload in a length-prefixed frame.
pub fn encode_frame(payload: &Vec<u8>) -> (r: Vec<u8>)
    requires
        payload@.len() <= u32::MAX as int,
    ensures
        r@ == spec_frame(payload@),
{
    let len32: u32 = payload.len() as u32;
    let mut r: Vec<u8> = Vec::new();
    r.push((len32 / 16777216 % 256) as u8);
    r.push((len32 / 65536 % 256) as u8);
    r.push((len32 / 256 % 256) as u8);
    r.push((len32 % 256) as u8);
    let n = payload.len();
    let mut i: usize = 0;
    while i < n
        invariant
            n == payload@.len(),
            0 <= i <= n,
            r@ == spec_len_bytes(n as int) + payload@.subrange(0, i as int),
        decreases n - i,
    {
        r.push(payload[i]);
        proof {
            assert(r@ =~= spec_len_bytes(n as int) + payload@.subrange(0, i + 1));
        }
        i += 1;
    }
    proof {
        assert(payload@.subrange(0, n as int) =~= payload@);
        assert(r@ =~= spec_frame(payload@));
    }
    r
}

/// Read a frame length from its four prefix bytes, most significant
/// first.
pub fn decode_frame_len(b0: u8, b1: u8, b2: u8, b3: u8) -> (n: u32)
    ensures
        n as int == (b0 as int) * 16777216 + (b1 as int) * 65536 + (b2 as int) * 256 + (b3 as int),
        spec_len_bytes(n as int) == seq![b0, b1, b2, b3],
{
    let n: u32 = (b0 as u32) * 16777216 + (b1 as u32) * 65536 + (b2 as u32) * 256 + (b3 as u32);
    proof {
        let m = n as int;
        assert(m / 16777216 % 256 == b0 as int && m / 65536 % 256 == b1 as int && m / 256 % 256
            == b2 as int && m % 256 == b3 as int) by (nonlinear_arith)
            requires
                m == (b0 as int) * 16777216 + (b1 as int) * 65536 + (b2 as int) * 256 + (
                b3 as int),
                0 <= (b0 as int) < 256,
                0 <= (b1 as int) < 256,
                0 <= (b2 as int) < 256,
                0 <= (b3 as int) < 256,
        ;
        assert(spec_len_bytes(n as int) =~= seq![b0, b1, b2, b3]);
    }
    n
}

/// Framing a payload and reading the prefix back yields the payload's
/// length: the frame round trip.
pub proof fn lemma_frame_round_trip(payload: Seq<u8>)
    requires
        payload.len() <= u32::MAX as int,
    ensures
        ({
            let f = spec_frame(payload);
            let n = (f[0] as int) * 16777216 + (f[1] as int) * 65536 + (f[2] as int) * 256 + (
            f[3] as int);
            &&& f.len() == payload.len() + 4
            &&& n == payload.len()
            &&& f.subrange(4, f.len() as int) == payload
        }),
{
    let f = spec_frame(payload);
    let l = payload.len() as int;
    assert(f[0] as int == l / 16777216 % 256);
    assert(f[1] as int == l / 65536 % 256);
    assert(f[2] as int == l / 256 % 256);
    assert(f[3] as int == l % 256);
    assert((l / 16777216 % 256) * 16777216 + (l / 65536 % 256) * 65536 + (l / 256 % 256) * 256 + l
        % 256 == l) by (nonlinear_arith)
        requires
            0 <= l <= u32::MAX as int,
    ;
    assert(f.subrange(4, f.len() as int) =~= payload);
}

/// The canonical serialized form of the "get player view" request: the
/// JSON string literal naming its tag.
pub open spec fn spec_get_player_view_bytes() -> Seq<u8> {
    seq![34u8, 71u8, 101u8, 116u8, 80u8, 108u8, 97u8, 121u8, 101u8, 114u8, 86u8, 105u8, 101u8,
        119u8, 34u8]
}

/// Parse a request payload: exactly the canonical "get player view"
/// bytes are accepted, anything else is rejected.
pub fn parse_client_message(payload: &Vec<u8>) -> (r: Option<ClientMessage>)
    ensures
        r == if payload@ == spec_get_player_view_bytes() {
            Some(ClientMessage::GetPlayerView)
        } else {
            Option::<ClientMessage>::None
        },
{
    let mut expected: Vec<u8> = Vec::new();
    expected.push(34);
    expected.push(71);
    expected.push(101);
    expected.push(116);
    expected.push(80);
    expected.push(108);
    expected.push(97);
    expected.push(121);
    expected.push(101);
    expected.push(114);
    expected.push(86);
    expected.push(105);
    expected.push(101);
    expected.push(119);
    expected.push(34);
    proof {
        assert(expected@ =~= spec_get_player_view_bytes());
    }
    if payload.len() != expected.len() {
        proof {
            assert(payload@ != spec_get_player_view_bytes());
        }
        return None;
    }
    let n = payload.len();
    let mut i: usize = 0;
    while i < n
        invariant
            n == payload@.len() == expected@.len(),
            0 <= i <= n,
            expected@ == spec_get_player_view_bytes(),
            forall|k: int| 0 <= k < i ==> payload@[k] == expected@[k],
        decreases n - i,
    {
        if payload[i] != expected[i] {
            proof {
                assert(payload@ != spec_get_player_view_bytes());
            }
            return None;
        }
        i += 1;
    }
    proof {
        assert(payload@ =~= spec_get_player_view_bytes());
    }
    Some(ClientMessage::GetPlayerView)
}

} // verus!
