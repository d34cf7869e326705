use vstd::prelude::*;

use crate::error::AdbError;
use crate::framing::{
    decode_response, okay_seq, resp_complete, resp_has_prefix, resp_payload, resp_payload_len,
    resp_end, resp_status_fail, resp_status_okay,
};
use crate::hex::{hex4_of, hex4_valid_at, hex4_value_at, lemma_hex4_round_trip};

verus! {

/// How many more bytes the response decoder demands before it can settle
/// on a result; zero means a verdict is available now.
pub open spec fn needed_bytes(s: Seq<u8>, expect_payload: bool) -> nat {
    if s.len() < 4 {
        (4 - s.len()) as nat
    } else if !resp_status_okay(s) && !resp_status_fail(s) {
        0
    } else if resp_status_okay(s) && !expect_payload {
        0
    } else if s.len() < 8 {
        (8 - s.len()) as nat
    } else if !hex4_valid_at(s, 4) {
        0
    } else if s.len() < 8 + resp_payload_len(s) {
        (8 + resp_payload_len(s) - s.len()) as nat
    } else {
        0
    }
}

/// Reads one response incrementally: the transport owner feeds it
/// whatever bytes arrived and asks how many more the decoder wants.
///
/// The server defers some replies (wait-for-device): until the four
/// status bytes are in, `needed` stays positive and no verdict exists;
/// the moment the deferred `OKAY` arrives, `finish` succeeds.
pub struct ResponseReader {
    expect_payload: bool,
    buf: Vec<u8>,
}

impl ResponseReader {
    /// The bytes received so far on this connection.
    pub closed spec fn received(&self) -> Seq<u8> {
        self.buf@
    }

    /// Whether a successful reply is expected to carry a payload.
    pub closed spec fn expects(&self) -> bool {
        self.expect_payload
    }

    /// A fresh reader for one request-scoped response.
    pub fn new(expect_payload: bool) -> (r: Self)
        ensures
            r.received() == Seq::<u8>::empty(),
            r.expects() == expect_payload,
    {
        ResponseReader { expect_payload, buf: Vec::new() }
    }

    /// How many bytes to read next; zero when a verdict is available.
    pub fn needed(&self) -> (n: usize)
        ensures
            n as nat == needed_bytes(self.received(), self.expects()),
    {
        let len = self.buf.len();
        if len < 4 {
            return 4 - len;
        }
        let okay = self.buf[0] == 0x4f && self.buf[1] == 0x4b && self.buf[2] == 0x41
            && self.buf[3] == 0x59;
        let fail = self.buf[0] == 0x46 && self.buf[1] == 0x41 && self.buf[2] == 0x49
            && self.buf[3] == 0x4c;
        proof {
            if okay {
                assert(self.buf@.subrange(0, 4) =~= crate::framing::okay_seq());
            } else {
                assert(self.buf@.subrange(0, 4)[0] == self.buf@[0]);
                assert(self.buf@.subrange(0, 4)[1] == self.buf@[1]);
                assert(self.buf@.subrange(0, 4)[2] == self.buf@[2]);
                assert(self.buf@.subrange(0, 4)[3] == self.buf@[3]);
            }
            if fail {
                assert(self.buf@.subrange(0, 4) =~= crate::framing::fail_seq());
            }
        }
        if !okay && !fail {
            return 0;
        }
        if okay && !self.expect_payload {
            return 0;
        }
        if len < 8 {
            return 8 - len;
        }
        match crate::hex::parse_hex4_at(self.buf.as_slice(), 4) {
            Err(_) => 0,
            Ok(v) => {
                let end: usize = 8 + v as usize;
                if len < end {
                    end - len
                } else {
                    0
                }
            },
        }
    }

    /// Record bytes that arrived from the transport.
    pub fn supply(&mut self, bytes: &[u8])
        ensures
            final(self).received() == old(self).received() + bytes@,
            final(self).expects() == old(self).expects(),
    {
        let mut i: usize = 0;
        proof {
            assert(self.buf@ =~= old(self).buf@ + bytes@.take(0));
        }
        while i < bytes.len()
            invariant
                i <= bytes@.len(),
                self.buf@ == old(self).buf@ + bytes@.take(i as int),
                self.expect_payload == old(self).expect_payload,
            decreases bytes@.len() - i,
        {
            self.buf.push(bytes[i]);
            proof {
                assert(self.buf@ =~= old(self).buf@ + bytes@.take(i + 1));
            }
            i = i + 1;
        }
        proof {
            assert(bytes@.take(bytes@.len() as int) =~= bytes@);
        }
    }

    /// Decode what has arrived, once `needed` reports zero or the peer
    /// has closed the connection. The verdict is exactly that of
    /// [`decode_response`] on the received bytes.
    pub fn finish(&self) -> (r: Result<(Vec<u8>, usize), AdbError>)
        ensures
            self.received().len() == 0 ==> r == Err::<(Vec<u8>, usize), AdbError>(
                AdbError::ConnectionClosed,
            ),
            0 < self.received().len() < 4 ==> r == Err::<(Vec<u8>, usize), AdbError>(
                AdbError::ProtocolError,
            ),
            self.received().len() >= 4 && !resp_status_okay(self.received()) && !resp_status_fail(
                self.received(),
            ) ==> r == Err::<(Vec<u8>, usize), AdbError>(AdbError::ProtocolError),
            resp_status_okay(self.received()) && !self.expects() ==> (r matches Ok(p) && p.0@
                == Seq::<u8>::empty() && p.1 == 4),
            resp_status_okay(self.received()) && self.expects() && self.received().len() < 8 ==> r
                == Err::<(Vec<u8>, usize), AdbError>(AdbError::ConnectionClosed),
            resp_status_okay(self.received()) && self.expects() && self.received().len() >= 8
                && !hex4_valid_at(self.received(), 4) ==> r == Err::<(Vec<u8>, usize), AdbError>(
                AdbError::ProtocolError,
            ),
            resp_status_okay(self.received()) && self.expects() && resp_has_prefix(self.received())
                && !resp_complete(self.received()) ==> r == Err::<(Vec<u8>, usize), AdbError>(
                AdbError::ConnectionClosed,
            ),
            resp_status_okay(self.received()) && self.expects() && resp_complete(self.received())
                ==> (r matches Ok(p) && p.0@ == resp_payload(self.received()) && p.1 as int
                == resp_end(self.received())),
            resp_status_fail(self.received()) && self.received().len() < 8 ==> r == Err::<
                (Vec<u8>, usize),
                AdbError,
            >(AdbError::ConnectionClosed),
            resp_status_fail(self.received()) && self.received().len() >= 8 && !hex4_valid_at(
                self.received(),
                4,
            ) ==> r == Err::<(Vec<u8>, usize), AdbError>(AdbError::ProtocolError),
            resp_status_fail(self.received()) && resp_has_prefix(self.received()) && !resp_complete(
                self.received(),
            ) ==> r == Err::<(Vec<u8>, usize), AdbError>(AdbError::ConnectionClosed),
            resp_status_fail(self.received()) && resp_complete(self.received()) ==> (r matches Err(
                e,
            ) && e matches AdbError::RemoteError(m) && m@ == resp_payload(self.received())),
    {
        decode_response(self.buf.as_slice(), self.expect_payload)
    }
}

/// Once the reader stops asking for bytes, the verdict is settled: no
/// clause of `finish` that reports a truncated read (`ConnectionClosed`)
/// can apply, so a driver that reads exactly what `needed` demands and
/// then decodes never mistakes a complete reply for a lost connection.
pub proof fn lemma_needed_zero_settles(s: Seq<u8>, expect: bool)
    requires
        needed_bytes(s, expect) == 0,
    ensures
        s.len() >= 4,
        resp_status_okay(s) && expect && hex4_valid_at(s, 4) ==> resp_complete(s),
        resp_status_okay(s) && expect && s.len() >= 4 ==> s.len() >= 8,
        resp_status_fail(s) && hex4_valid_at(s, 4) ==> resp_complete(s),
        resp_status_fail(s) ==> s.len() >= 8,
{
}

/// A deferred reply makes the reader block: while fewer than the four
/// status bytes have arrived it still demands more, and the bare `OKAY`
/// status, the moment it completes, yields a verdict at once.
pub proof fn lemma_wait_blocks_until_okay(k: int)
    requires
        0 <= k < 4,
    ensures
        needed_bytes(okay_seq().take(k), false) > 0,
        needed_bytes(okay_seq(), false) == 0,
        resp_status_okay(okay_seq()),
{
    assert(okay_seq().subrange(0, 4) =~= okay_seq());
}

/// The framing of one streamed snapshot: a hex length prefix, then the
/// snapshot bytes.
pub open spec fn frame_bytes(p: Seq<u8>) -> Seq<u8>
    recommends
        p.len() <= 0xffff,
{
    hex4_of(p.len() as nat) + p
}

/// The stream's next length prefix holds a byte that is not a hex digit.
pub open spec fn frame_malformed(s: Seq<u8>) -> bool {
    s.len() >= 4 && !hex4_valid_at(s, 0)
}

/// The payload length announced by the stream's next frame.
pub open spec fn frame_len(s: Seq<u8>) -> nat
    recommends
        s.len() >= 4,
{
    hex4_value_at(s, 0)
}

/// A complete frame sits at the head of the stream.
pub open spec fn frame_ready(s: Seq<u8>) -> bool {
    s.len() >= 4 && hex4_valid_at(s, 0) && s.len() >= 4 + frame_len(s)
}

/// The head frame is still missing bytes (or its prefix is).
pub open spec fn frame_incomplete(s: Seq<u8>) -> bool {
    s.len() < 4 || (hex4_valid_at(s, 0) && s.len() < 4 + frame_len(s))
}

/// The payload of the complete frame at the head of the stream.
pub open spec fn frame_payload(s: Seq<u8>) -> Seq<u8>
    recommends
        frame_ready(s),
{
    s.subrange(4, 4 + frame_len(s) as int)
}

/// How many bytes the head frame occupies.
pub open spec fn frame_size(s: Seq<u8>) -> int
    recommends
        s.len() >= 4,
{
    4 + frame_len(s) as int
}

/// How many more bytes the stream needs before its head frame is either
/// complete or known malformed; zero when `next_frame` can act.
pub open spec fn frame_needed_bytes(s: Seq<u8>) -> nat {
    if s.len() < 4 {
        (4 - s.len()) as nat
    } else if !hex4_valid_at(s, 0) {
        0
    } else if s.len() < 4 + frame_len(s) {
        (4 + frame_len(s) - s.len()) as nat
    } else {
        0
    }
}

/// Reads a held-open stream of length-prefixed frames (the
/// `track-devices` snapshots) incrementally, one frame per call, in
/// arrival order.
pub struct FrameReader {
    buf: Vec<u8>,
}

impl FrameReader {
    /// The bytes received and not yet consumed as frames.
    pub closed spec fn pending(&self) -> Seq<u8> {
        self.buf@
    }

    /// A fresh reader with nothing pending.
    pub fn new() -> (r: Self)
        ensures
            r.pending() == Seq::<u8>::empty(),
    {
        FrameReader { buf: Vec::new() }
    }

    /// Record bytes that arrived from the transport.
    pub fn supply(&mut self, bytes: &[u8])
        ensures
            final(self).pending() == old(self).pending() + bytes@,
    {
        let mut i: usize = 0;
        proof {
            assert(self.buf@ =~= old(self).buf@ + bytes@.take(0));
        }
        while i < bytes.len()
            invariant
                i <= bytes@.len(),
                self.buf@ == old(self).buf@ + bytes@.take(i as int),
            decreases bytes@.len() - i,
        {
            self.buf.push(bytes[i]);
            proof {
                assert(self.buf@ =~= old(self).buf@ + bytes@.take(i + 1));
            }
            i = i + 1;
        }
        proof {
            assert(bytes@.take(bytes@.len() as int) =~= bytes@);
        }
    }

    /// How many bytes to read next; zero when the head frame is ready
    /// or the stream is known malformed.
    pub fn needed(&self) -> (n: usize)
        ensures
            n as nat == frame_needed_bytes(self.pending()),
    {
        let len = self.buf.len();
        if len < 4 {
            return 4 - len;
        }
        match crate::hex::parse_hex4_at(self.buf.as_slice(), 0) {
            Err(_) => 0,
            Ok(v) => {
                let end: usize = 4 + v as usize;
                if len < end {
                    end - len
                } else {
                    0
                }
            },
        }
    }

    /// Take the next complete frame off the stream, if one has fully
    /// arrived: `Ok(Some(p))` consumes it and hands out its payload
    /// unchanged; `Ok(None)` asks for more bytes; a non-hex length
    /// prefix is fatal.
    pub fn next_frame(&mut self) -> (r: Result<Option<Vec<u8>>, AdbError>)
        ensures
            frame_incomplete(old(self).pending()) ==> (r matches Ok(o) && o is None
                && final(self).pending() == old(self).pending()),
            frame_malformed(old(self).pending()) ==> r == Err::<Option<Vec<u8>>, AdbError>(
                AdbError::ProtocolError,
            ) && final(self).pending() == old(self).pending(),
            frame_ready(old(self).pending()) ==> (r matches Ok(o) && o matches Some(p) && p@
                == frame_payload(old(self).pending())
                && final(self).pending() == old(self).pending().skip(
                frame_size(old(self).pending()))),
    {
        let len = self.buf.len();
        if len < 4 {
            return Ok(None);
        }
        let n = match crate::hex::parse_hex4_at(self.buf.as_slice(), 0) {
            Ok(v) => v,
            Err(_) => { return Err(AdbError::ProtocolError) },
        };
        let end: usize = 4 + n as usize;
        if len < end {
            return Ok(None);
        }
        let mut payload: Vec<u8> = Vec::new();
        let mut i: usize = 4;
        proof {
            assert(payload@ =~= self.buf@.subrange(4, 4));
        }
        while i < end
            invariant
                4 <= i <= end,
                end <= self.buf@.len(),
                payload@ == self.buf@.subrange(4, i as int),
            decreases end - i,
        {
            payload.push(self.buf[i]);
            proof {
                assert(payload@ =~= self.buf@.subrange(4, i + 1));
            }
            i = i + 1;
        }
        let mut rest: Vec<u8> = Vec::new();
        let mut j: usize = end;
        proof {
            assert(rest@ =~= self.buf@.subrange(end as int, end as int));
        }
        while j < self.buf.len()
            invariant
                end <= j <= self.buf@.len(),
                rest@ == self.buf@.subrange(end as int, j as int),
            decreases self.buf@.len() - j,
        {
            rest.push(self.buf[j]);
            proof {
                assert(rest@ =~= self.buf@.subrange(end as int, j + 1));
            }
            j = j + 1;
        }
        proof {
            assert(rest@ =~= old(self).pending().skip(frame_size(old(self).pending())));
        }
        self.buf = rest;
        Ok(Some(payload))
    }

    /// The verdict when the peer closes the connection: a close on a
    /// frame boundary ends the stream cleanly; a close inside a frame is
    /// a lost connection; a pending malformed prefix stays fatal.
    pub fn close_verdict(&self) -> (r: Result<(), AdbError>)
        ensures
            self.pending().len() == 0 ==> r is Ok,
            frame_malformed(self.pending()) ==> r == Err::<(), AdbError>(AdbError::ProtocolError),
            self.pending().len() != 0 && !frame_malformed(self.pending()) ==> r == Err::<
                (),
                AdbError,
            >(AdbError::ConnectionClosed),
    {
        let len = self.buf.len();
        if len == 0 {
            return Ok(());
        }
        if len >= 4 {
            match crate::hex::parse_hex4_at(self.buf.as_slice(), 0) {
                Ok(_) => Err(AdbError::ConnectionClosed),
                Err(_) => Err(AdbError::ProtocolError),
            }
        } else {
            Err(AdbError::ConnectionClosed)
        }
    }
}

/// Stream order: a framed snapshot at the head of the stream is consumed
/// exactly once, yields exactly its payload, and leaves the rest of the
/// stream untouched — so successive snapshots come out one per call, in
/// the order the server sent them, and a close on the boundary after the
/// last one is clean.
pub proof fn lemma_frame_stream_order(p: Seq<u8>, rest: Seq<u8>)
    requires
        p.len() <= 0xffff,
    ensures
        ({
            let s = frame_bytes(p) + rest;
            frame_ready(s) && frame_payload(s) == p && s.skip(frame_size(s)) == rest
        }),
{
    lemma_hex4_round_trip(p.len() as nat);
    let h = hex4_of(p.len() as nat);
    let s = frame_bytes(p) + rest;
    assert(s[0] == h[0]);
    assert(s[1] == h[1]);
    assert(s[2] == h[2]);
    assert(s[3] == h[3]);
    assert(hex4_valid_at(s, 0));
    assert(hex4_value_at(s, 0) == hex4_value_at(h, 0));
    assert(frame_payload(s) =~= p);
    assert(s.skip(frame_size(s)) =~= rest);
}

} // verus!
