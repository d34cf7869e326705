use vstd::prelude::*;

use crate::error::AdbError;
use crate::hex::{
    hex4_of, hex4_valid, hex4_valid_at, hex4_value, hex4_value_at, lemma_hex4_round_trip,
    parse_hex4_at, encode_hex4,
};

verus! {

/// The four status bytes `OKAY`.
pub open spec fn okay_seq() -> Seq<u8> {
    seq![0x4fu8, 0x4bu8, 0x41u8, 0x59u8]
}

/// The four status bytes `FAIL`.
pub open spec fn fail_seq() -> Seq<u8> {
    seq![0x46u8, 0x41u8, 0x49u8, 0x4cu8]
}

/// The smart-socket framing of a request: four hex digits giving the
/// command's byte length, then the command bytes themselves.
pub open spec fn request_bytes(cmd: Seq<u8>) -> Seq<u8>
    recommends
        cmd.len() <= 0xffff,
{
    hex4_of(cmd.len() as nat) + cmd
}

/// A response whose first four bytes are `OKAY`.
pub open spec fn resp_status_okay(s: Seq<u8>) -> bool {
    s.len() >= 4 && s.subrange(0, 4) == okay_seq()
}

/// A response whose first four bytes are `FAIL`.
pub open spec fn resp_status_fail(s: Seq<u8>) -> bool {
    s.len() >= 4 && s.subrange(0, 4) == fail_seq()
}

/// The response carries a well-formed hex length prefix after its status.
pub open spec fn resp_has_prefix(s: Seq<u8>) -> bool {
    s.len() >= 8 && hex4_valid_at(s, 4)
}

/// The payload length announced by the response's length prefix.
pub open spec fn resp_payload_len(s: Seq<u8>) -> nat
    recommends
        resp_has_prefix(s),
{
    hex4_value_at(s, 4)
}

/// All announced payload bytes have arrived.
pub open spec fn resp_complete(s: Seq<u8>) -> bool {
    resp_has_prefix(s) && s.len() >= 8 + resp_payload_len(s)
}

/// The payload bytes of a complete length-prefixed response.
pub open spec fn resp_payload(s: Seq<u8>) -> Seq<u8>
    recommends
        resp_complete(s),
{
    s.subrange(8, 8 + resp_payload_len(s) as int)
}

/// Where a complete length-prefixed response ends in the byte stream.
pub open spec fn resp_end(s: Seq<u8>) -> int
    recommends
        resp_has_prefix(s),
{
    8 + resp_payload_len(s) as int
}

/// Frame a command for sending.
///
/// A command longer than the four-hex-digit length capacity (65535 bytes)
/// is refused with `EncodingError` before anything is written.
pub fn encode_request(cmd: &[u8]) -> (r: Result<Vec<u8>, AdbError>)
    ensures
        cmd@.len() <= 0xffff ==> (r matches Ok(v) && v@ == request_bytes(cmd@)),
        cmd@.len() > 0xffff ==> r == Err::<Vec<u8>, AdbError>(AdbError::EncodingError),
{
    if cmd.len() > 0xffff {
        return Err(AdbError::EncodingError);
    }
    let mut v = encode_hex4(cmd.len() as u16);
    let mut i: usize = 0;
    proof {
        assert(v@ =~= hex4_of(cmd@.len() as nat) + cmd@.take(0));
    }
    while i < cmd.len()
        invariant
            i <= cmd@.len() <= 0xffff,
            v@ == hex4_of(cmd@.len() as nat) + cmd@.take(i as int),
        decreases cmd@.len() - i,
    {
        v.push(cmd[i]);
        proof {
            assert(v@ =~= hex4_of(cmd@.len() as nat) + cmd@.take(i + 1));
        }
        i = i + 1;
    }
    proof {
        assert(cmd@.take(cmd@.len() as int) =~= cmd@);
    }
    Ok(v)
}

/// Decode one complete response from the bytes the server sent on this
/// connection, `input`, under the command-specific expectation
/// `expect_payload` (whether a successful reply carries a length-prefixed
/// payload).
///
/// Returns the payload and the number of bytes the response occupied.
/// The contract covers every shape `input` can take:
/// - nothing at all arrived before the peer closed: `ConnectionClosed`;
/// - a truncated status word: `ProtocolError`;
/// - a status other than `OKAY`/`FAIL`: `ProtocolError`, never a default;
/// - a length prefix with a non-hex byte: `ProtocolError`;
/// - a prefix or payload cut short by the peer: `ConnectionClosed`;
/// - a complete `FAIL`: `RemoteError` carrying the message bytes verbatim;
/// - a complete `OKAY`: the payload bytes, unchanged and in order.
pub fn decode_response(input: &[u8], expect_payload: bool) -> (r: Result<
    (Vec<u8>, usize),
    AdbError,
>)
    ensures
        input@.len() == 0 ==> r == Err::<(Vec<u8>, usize), AdbError>(AdbError::ConnectionClosed),
        0 < input@.len() < 4 ==> r == Err::<(Vec<u8>, usize), AdbError>(AdbError::ProtocolError),
        input@.len() >= 4 && !resp_status_okay(input@) && !resp_status_fail(input@) ==> r == Err::<
            (Vec<u8>, usize),
            AdbError,
        >(AdbError::ProtocolError),
        resp_status_okay(input@) && !expect_payload ==> (r matches Ok(p) && p.0@ == Seq::<
            u8,
        >::empty() && p.1 == 4),
        resp_status_okay(input@) && expect_payload && input@.len() < 8 ==> r == Err::<
            (Vec<u8>, usize),
            AdbError,
        >(AdbError::ConnectionClosed),
        resp_status_okay(input@) && expect_payload && input@.len() >= 8 && !hex4_valid_at(
            input@,
            4,
        ) ==> r == Err::<(Vec<u8>, usize), AdbError>(AdbError::ProtocolError),
        resp_status_okay(input@) && expect_payload && resp_has_prefix(input@) && !resp_complete(
            input@,
        ) ==> r == Err::<(Vec<u8>, usize), AdbError>(AdbError::ConnectionClosed),
        resp_status_okay(input@) && expect_payload && resp_complete(input@) ==> (r matches Ok(p)
            && p.0@ == resp_payload(input@) && p.1 as int == resp_end(input@)),
        resp_status_fail(input@) && input@.len() < 8 ==> r == Err::<(Vec<u8>, usize), AdbError>(
            AdbError::ConnectionClosed,
        ),
        resp_status_fail(input@) && input@.len() >= 8 && !hex4_valid_at(input@, 4) ==> r == Err::<
            (Vec<u8>, usize),
            AdbError,
        >(AdbError::ProtocolError),
        resp_status_fail(input@) && resp_has_prefix(input@) && !resp_complete(input@) ==> r
            == Err::<(Vec<u8>, usize), AdbError>(AdbError::ConnectionClosed),
        resp_status_fail(input@) && resp_complete(input@) ==> (r matches Err(e) && e matches
            AdbError::RemoteError(m) && m@ == resp_payload(input@)),
{
    let n = input.len();
    if n == 0 {
        return Err(AdbError::ConnectionClosed);
    }
    if n < 4 {
        return Err(AdbError::ProtocolError);
    }
    let okay = input[0] == 0x4f && input[1] == 0x4b && input[2] == 0x41 && input[3] == 0x59;
    let fail = input[0] == 0x46 && input[1] == 0x41 && input[2] == 0x49 && input[3] == 0x4c;
    proof {
        if okay {
            assert(input@.subrange(0, 4) =~= okay_seq());
        } else {
            assert(input@.subrange(0, 4)[0] == input@[0]);
            assert(input@.subrange(0, 4)[1] == input@[1]);
            assert(input@.subrange(0, 4)[2] == input@[2]);
            assert(input@.subrange(0, 4)[3] == input@[3]);
        }
        if fail {
            assert(input@.subrange(0, 4) =~= fail_seq());
        }
    }
    if !okay && !fail {
        return Err(AdbError::ProtocolError);
    }
    if okay && !expect_payload {
        return Ok((Vec::new(), 4));
    }
    if n < 8 {
        return Err(AdbError::ConnectionClosed);
    }
    let len = match parse_hex4_at(input, 4) {
        Ok(v) => v,
        Err(e) => { return Err(e) },
    };
    let end: usize = 8 + len as usize;
    if n < end {
        return Err(AdbError::ConnectionClosed);
    }
    let mut payload: Vec<u8> = Vec::new();
    let mut i: usize = 8;
    proof {
        assert(payload@ =~= input@.subrange(8, 8));
    }
    while i < end
        invariant
            8 <= i <= end,
            end <= input@.len(),
            end == 8 + resp_payload_len(input@),
            resp_complete(input@),
            payload@ == input@.subrange(8, i as int),
        decreases end - i,
    {
        payload.push(input[i]);
        proof {
            assert(payload@ =~= input@.subrange(8, i + 1));
        }
        i = i + 1;
    }
    if okay {
        Ok((payload, end))
    } else {
        Err(AdbError::RemoteError(payload))
    }
}

/// The server-side framing of a successful reply that carries a payload.
pub open spec fn okay_response(p: Seq<u8>) -> Seq<u8>
    recommends
        p.len() <= 0xffff,
{
    okay_seq() + hex4_of(p.len() as nat) + p
}

/// The server-side framing of a `FAIL` reply with message `m`.
pub open spec fn fail_response(m: Seq<u8>) -> Seq<u8>
    recommends
        m.len() <= 0xffff,
{
    fail_seq() + hex4_of(m.len() as nat) + m
}

/// Framing fidelity, request side: the framed form of any command that
/// fits the length prefix announces exactly the command's length and
/// carries the command bytes unchanged, in order.
pub proof fn lemma_request_round_trip(cmd: Seq<u8>)
    requires
        cmd.len() <= 0xffff,
    ensures
        request_bytes(cmd).len() == 4 + cmd.len(),
        hex4_valid_at(request_bytes(cmd), 0),
        hex4_value_at(request_bytes(cmd), 0) == cmd.len(),
        request_bytes(cmd).subrange(4, request_bytes(cmd).len() as int) == cmd,
{
    lemma_hex4_round_trip(cmd.len() as nat);
    let s = request_bytes(cmd);
    assert(s.subrange(0, 4) =~= hex4_of(cmd.len() as nat));
    assert(hex4_valid_at(s, 0) == hex4_valid(s.subrange(0, 4))) by {
        assert(s.subrange(0, 4)[0] == s[0]);
        assert(s.subrange(0, 4)[1] == s[1]);
        assert(s.subrange(0, 4)[2] == s[2]);
        assert(s.subrange(0, 4)[3] == s[3]);
    }
    assert(hex4_value_at(s, 0) == hex4_value(s.subrange(0, 4))) by {
        assert(s.subrange(0, 4)[0] == s[0]);
        assert(s.subrange(0, 4)[1] == s[1]);
        assert(s.subrange(0, 4)[2] == s[2]);
        assert(s.subrange(0, 4)[3] == s[3]);
    }
    assert(s.subrange(4, s.len() as int) =~= cmd);
}

/// Framing keeps commands apart: two commands that frame to the same
/// bytes were the same command, so nothing on the wire aliases two
/// requests.
pub proof fn lemma_request_bytes_injective(c1: Seq<u8>, c2: Seq<u8>)
    requires
        c1.len() <= 0xffff,
        c2.len() <= 0xffff,
        request_bytes(c1) == request_bytes(c2),
    ensures
        c1 == c2,
{
    lemma_request_round_trip(c1);
    lemma_request_round_trip(c2);
}

/// Framing fidelity, response side: a well-formed `OKAY` reply decodes to
/// exactly the payload the server framed — no byte lost, none reordered —
/// whatever bytes may follow it on the stream.
pub proof fn lemma_okay_response_round_trip(p: Seq<u8>, extra: Seq<u8>)
    requires
        p.len() <= 0xffff,
    ensures
        ({
            let s = okay_response(p) + extra;
            resp_status_okay(s) && !resp_status_fail(s) && resp_complete(s) && resp_payload(s) == p
                && resp_end(s) == 8 + p.len()
        }),
{
    lemma_hex4_round_trip(p.len() as nat);
    let s = okay_response(p) + extra;
    assert(s.subrange(0, 4) =~= okay_seq());
    assert(s.subrange(0, 4) != fail_seq()) by {
        assert(okay_seq()[0] != fail_seq()[0]);
    }
    lemma_prefixed_body_round_trip(okay_seq(), p, extra);
    assert(resp_payload(s) =~= p);
}

/// A complete `FAIL` reply surfaces its message bytes verbatim: the
/// decoded payload is the framed message, byte for byte.
pub proof fn lemma_fail_response_round_trip(m: Seq<u8>, extra: Seq<u8>)
    requires
        m.len() <= 0xffff,
    ensures
        ({
            let s = fail_response(m) + extra;
            resp_status_fail(s) && !resp_status_okay(s) && resp_complete(s) && resp_payload(s) == m
                && resp_end(s) == 8 + m.len()
        }),
{
    lemma_hex4_round_trip(m.len() as nat);
    let s = fail_response(m) + extra;
    assert(s.subrange(0, 4) =~= fail_seq());
    assert(s.subrange(0, 4) != okay_seq()) by {
        assert(okay_seq()[0] != fail_seq()[0]);
    }
    lemma_prefixed_body_round_trip(fail_seq(), m, extra);
    assert(resp_payload(s) =~= m);
}

/// Any four-byte status plus a canonical length prefix plus the announced
/// body forms a complete response whose payload region is exactly the body.
proof fn lemma_prefixed_body_round_trip(status: Seq<u8>, body: Seq<u8>, extra: Seq<u8>)
    requires
        status.len() == 4,
        body.len() <= 0xffff,
    ensures
        ({
            let s = (status + hex4_of(body.len() as nat) + body) + extra;
            resp_has_prefix(s) && resp_payload_len(s) == body.len() && resp_complete(s)
                && s.subrange(8, 8 + body.len() as int) == body
        }),
{
    lemma_hex4_round_trip(body.len() as nat);
    let h = hex4_of(body.len() as nat);
    let s = (status + h + body) + extra;
    assert(s[4] == h[0]);
    assert(s[5] == h[1]);
    assert(s[6] == h[2]);
    assert(s[7] == h[3]);
    assert(hex4_valid(h) == hex4_valid_at(h, 0));
    assert(hex4_valid_at(s, 4));
    assert(hex4_value_at(s, 4) == hex4_value_at(h, 0));
    assert(s.subrange(8, 8 + body.len() as int) =~= body);
}

} // verus!
