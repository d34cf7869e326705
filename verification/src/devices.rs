use vstd::prelude::*;

use crate::bytes::{bytes_eq, copy_range, find_byte_from, find_from, lemma_find_from};
use crate::error::AdbError;

verus! {

/// The connection state a device reports in a listing.
#[derive(Debug, Clone, Copy, PartialEq, Eq, Structural)]
pub enum DeviceState {
    Device,
    Offline,
    Unauthorized,
    Bootloader,
    Recovery,
    Sideload,
    Rescue,
    Host,
    Authorizing,
}

/// One line of a `host:devices` listing: a serial (or `ip:port`)
/// identifier and the reported state. A snapshot, immutable once parsed.
#[derive(Debug, Clone, PartialEq, Eq)]
pub struct DeviceShort {
    pub identifier: Vec<u8>,
    pub state: DeviceState,
}

/// One line of a `host:devices-l` listing: the short form plus the
/// trailing `key:value` metadata tokens, in order.
#[derive(Debug, Clone, PartialEq, Eq)]
pub struct DeviceLong {
    pub identifier: Vec<u8>,
    pub state: DeviceState,
    pub extras: Vec<(Vec<u8>, Vec<u8>)>,
}

/// The state named by `s`, if `s` is one of the protocol's state words.
pub open spec fn state_of(s: Seq<u8>) -> Option<DeviceState> {
    if s == seq![100u8, 101, 118, 105, 99, 101] {
        Some(DeviceState::Device)
    } else if s == seq![111u8, 102, 102, 108, 105, 110, 101] {
        Some(DeviceState::Offline)
    } else if s == seq![117u8, 110, 97, 117, 116, 104, 111, 114, 105, 122, 101, 100] {
        Some(DeviceState::Unauthorized)
    } else if s == seq![98u8, 111, 111, 116, 108, 111, 97, 100, 101, 114] {
        Some(DeviceState::Bootloader)
    } else if s == seq![114u8, 101, 99, 111, 118, 101, 114, 121] {
        Some(DeviceState::Recovery)
    } else if s == seq![115u8, 105, 100, 101, 108, 111, 97, 100] {
        Some(DeviceState::Sideload)
    } else if s == seq![114u8, 101, 115, 99, 117, 101] {
        Some(DeviceState::Rescue)
    } else if s == seq![104u8, 111, 115, 116] {
        Some(DeviceState::Host)
    } else if s == seq![97u8, 117, 116, 104, 111, 114, 105, 122, 105, 110, 103] {
        Some(DeviceState::Authorizing)
    } else {
        None
    }
}

/// Parse one state word.
pub fn parse_state(s: &[u8]) -> (r: Option<DeviceState>)
    ensures
        r == state_of(s@),
{
    let lit_device: Vec<u8> = vec![100u8, 101, 118, 105, 99, 101];
    if bytes_eq(s, lit_device.as_slice()) {
        proof {
            assert(s@ =~= seq![100u8, 101, 118, 105, 99, 101]);
        }
        return Some(DeviceState::Device);
    }
    let lit_offline: Vec<u8> = vec![111u8, 102, 102, 108, 105, 110, 101];
    if bytes_eq(s, lit_offline.as_slice()) {
        proof {
            assert(s@ =~= seq![111u8, 102, 102, 108, 105, 110, 101]);
        }
        return Some(DeviceState::Offline);
    }
    let lit_unauthorized: Vec<u8> = vec![117u8, 110, 97, 117, 116, 104, 111, 114, 105, 122, 101, 100];
    if bytes_eq(s, lit_unauthorized.as_slice()) {
        proof {
            assert(s@ =~= seq![117u8, 110, 97, 117, 116, 104, 111, 114, 105, 122, 101, 100]);
        }
        return Some(DeviceState::Unauthorized);
    }
    let lit_bootloader: Vec<u8> = vec![98u8, 111, 111, 116, 108, 111, 97, 100, 101, 114];
    if bytes_eq(s, lit_bootloader.as_slice()) {
        proof {
            assert(s@ =~= seq![98u8, 111, 111, 116, 108, 111, 97, 100, 101, 114]);
        }
        return Some(DeviceState::Bootloader);
    }
    let lit_recovery: Vec<u8> = vec![114u8, 101, 99, 111, 118, 101, 114, 121];
    if bytes_eq(s, lit_recovery.as_slice()) {
        proof {
            assert(s@ =~= seq![114u8, 101, 99, 111, 118, 101, 114, 121]);
        }
        return Some(DeviceState::Recovery);
    }
    let lit_sideload: Vec<u8> = vec![115u8, 105, 100, 101, 108, 111, 97, 100];
    if bytes_eq(s, lit_sideload.as_slice()) {
        proof {
            assert(s@ =~= seq![115u8, 105, 100, 101, 108, 111, 97, 100]);
        }
        return Some(DeviceState::Sideload);
    }
    let lit_rescue: Vec<u8> = vec![114u8, 101, 115, 99, 117, 101];
    if bytes_eq(s, lit_rescue.as_slice()) {
        proof {
            assert(s@ =~= seq![114u8, 101, 115, 99, 117, 101]);
        }
        return Some(DeviceState::Rescue);
    }
    let lit_host: Vec<u8> = vec![104u8, 111, 115, 116];
    if bytes_eq(s, lit_host.as_slice()) {
        proof {
            assert(s@ =~= seq![104u8, 111, 115, 116]);
        }
        return Some(DeviceState::Host);
    }
    let lit_authorizing: Vec<u8> = vec![97u8, 117, 116, 104, 111, 114, 105, 122, 105, 110, 103];
    if bytes_eq(s, lit_authorizing.as_slice()) {
        proof {
            assert(s@ =~= seq![97u8, 117, 116, 104, 111, 114, 105, 122, 105, 110, 103]);
        }
        return Some(DeviceState::Authorizing);
    }
    None
}

/// The device on the listing line `s[start..end]`: the bytes before the
/// first tab are the identifier (which must be nonempty), the bytes after
/// it must be a state word.
pub open spec fn line_device_spec(s: Seq<u8>, start: int, end: int) -> Option<
    (Seq<u8>, DeviceState),
>
    recommends
        0 <= start <= end <= s.len(),
{
    match find_from(s, start, 9) {
        None => None,
        Some(j) => if j >= end || j == start {
            None
        } else {
            match state_of(s.subrange(j + 1, end)) {
                None => None,
                Some(st) => Some((s.subrange(start, j), st)),
            }
        },
    }
}

/// The devices listed in `s[pos..]`, one per newline-terminated line,
/// blank lines skipped; `None` when any line is malformed.
pub open spec fn devices_spec_from(s: Seq<u8>, pos: int) -> Option<Seq<(Seq<u8>, DeviceState)>>
    decreases s.len() - pos,
    when 0 <= pos <= s.len()
    via devices_spec_from_decreases
{
    if pos >= s.len() {
        Some(Seq::empty())
    } else {
        let line_end = match find_from(s, pos, 10) {
            Some(i) => i,
            None => s.len() as int,
        };
        let next = if line_end == s.len() as int {
            line_end
        } else {
            line_end + 1
        };
        let rest = devices_spec_from(s, next);
        if line_end == pos {
            rest
        } else {
            match line_device_spec(s, pos, line_end) {
                None => None,
                Some(d) => match rest {
                    None => None,
                    Some(ds) => Some(seq![d] + ds),
                },
            }
        }
    }
}

#[via_fn]
proof fn devices_spec_from_decreases(s: Seq<u8>, pos: int) {
    lemma_find_from(s, pos, 10);
}

/// The devices listed in a `host:devices` payload.
pub open spec fn devices_spec(s: Seq<u8>) -> Option<Seq<(Seq<u8>, DeviceState)>> {
    devices_spec_from(s, 0)
}

/// The mathematical reading of a parsed device vector.
pub open spec fn devices_view(v: Seq<DeviceShort>) -> Seq<(Seq<u8>, DeviceState)> {
    v.map_values(|d: DeviceShort| (d.identifier@, d.state))
}

/// Parse a `host:devices` payload: newline-separated `serial\tstate`
/// lines. Any malformed line fails the whole listing with
/// `ProtocolError`; nothing is silently dropped.
pub fn parse_device_list(payload: &[u8]) -> (r: Result<Vec<DeviceShort>, AdbError>)
    ensures
        devices_spec(payload@) matches Some(ds) ==> (r matches Ok(v) && devices_view(v@) == ds),
        devices_spec(payload@) is None ==> r == Err::<Vec<DeviceShort>, AdbError>(
            AdbError::ProtocolError,
        ),
{
    parse_devices_from(payload, 0)
}

fn parse_devices_from(payload: &[u8], pos: usize) -> (r: Result<Vec<DeviceShort>, AdbError>)
    requires
        pos <= payload@.len(),
    ensures
        devices_spec_from(payload@, pos as int) matches Some(ds) ==> (r matches Ok(v)
            && devices_view(v@) == ds),
        devices_spec_from(payload@, pos as int) is None ==> r == Err::<Vec<DeviceShort>, AdbError>(
            AdbError::ProtocolError,
        ),
    decreases payload@.len() - pos,
{
    if pos >= payload.len() {
        let r: Vec<DeviceShort> = Vec::new();
        proof {
            assert(devices_view(r@) =~= Seq::<(Seq<u8>, DeviceState)>::empty());
        }
        return Ok(r);
    }
    proof {
        lemma_find_from(payload@, pos as int, 10);
    }
    let line_end = match find_byte_from(payload, pos, 10) {
        Some(i) => i,
        None => payload.len(),
    };
    let next = if line_end == payload.len() {
        line_end
    } else {
        line_end + 1
    };
    if line_end == pos {
        return parse_devices_from(payload, next);
    }
    proof {
        lemma_find_from(payload@, pos as int, 9);
    }
    let parsed: Option<DeviceShort> = match find_byte_from(payload, pos, 9) {
        None => None,
        Some(j) => {
            if j >= line_end || j == pos {
                None
            } else {
                let stv = copy_range(payload, j + 1, line_end);
                match parse_state(stv.as_slice()) {
                    None => None,
                    Some(st) => Some(
                        DeviceShort { identifier: copy_range(payload, pos, j), state: st },
                    ),
                }
            }
        },
    };
    match parsed {
        None => Err(AdbError::ProtocolError),
        Some(d) => {
            let rest = match parse_devices_from(payload, next) {
                Ok(v) => v,
                Err(e) => {
                    return Err(e);
                },
            };
            let mut out = rest;
            out.insert(0, d);
            proof {
                let ghost ds = devices_spec_from(payload@, pos as int)->Some_0;
                assert(devices_view(out@) =~= ds);
            }
            Ok(out)
        },
    }
}

/// The space-separated tokens of `s[pos..end]`, runs of spaces
/// collapsed, empty tokens dropped.
pub open spec fn tokens_from(s: Seq<u8>, pos: int, end: int) -> Seq<Seq<u8>>
    decreases end - pos,
    when 0 <= pos <= end <= s.len()
    via tokens_from_decreases
{
    if pos >= end {
        Seq::empty()
    } else {
        let sepj = match find_from(s, pos, 32) {
            Some(j) => j,
            None => end,
        };
        let cut = if sepj < end {
            sepj
        } else {
            end
        };
        let next = if cut < end {
            cut + 1
        } else {
            end
        };
        let tok = s.subrange(pos, cut);
        let rest = tokens_from(s, next, end);
        if tok.len() == 0 {
            rest
        } else {
            seq![tok] + rest
        }
    }
}

#[via_fn]
proof fn tokens_from_decreases(s: Seq<u8>, pos: int, end: int) {
    lemma_find_from(s, pos, 32);
}

/// A `key:value` metadata token, split at its first colon.
pub open spec fn kv_of(tok: Seq<u8>) -> Option<(Seq<u8>, Seq<u8>)> {
    match find_from(tok, 0, 58) {
        None => None,
        Some(j) => Some((tok.subrange(0, j), tok.subrange(j + 1, tok.len() as int))),
    }
}

/// The metadata pairs of the tokens from `i` on; `None` when any token
/// lacks a colon.
pub open spec fn extras_of(toks: Seq<Seq<u8>>, i: int) -> Option<Seq<(Seq<u8>, Seq<u8>)>>
    decreases toks.len() - i,
    when 0 <= i <= toks.len()
{
    if i >= toks.len() {
        Some(Seq::empty())
    } else {
        match kv_of(toks[i]) {
            None => None,
            Some(kv) => match extras_of(toks, i + 1) {
                None => None,
                Some(rest) => Some(seq![kv] + rest),
            },
        }
    }
}

/// The device on the extended listing line `s[start..end]`: identifier
/// token, state token, then `key:value` metadata tokens.
pub open spec fn long_line_spec(s: Seq<u8>, start: int, end: int) -> Option<
    (Seq<u8>, DeviceState, Seq<(Seq<u8>, Seq<u8>)>),
>
    recommends
        0 <= start <= end <= s.len(),
{
    let toks = tokens_from(s, start, end);
    if toks.len() < 2 {
        None
    } else {
        match state_of(toks[1]) {
            None => None,
            Some(st) => match extras_of(toks, 2) {
                None => None,
                Some(ex) => Some((toks[0], st, ex)),
            },
        }
    }
}

/// The devices listed in `s[pos..]` in extended form, one per line,
/// blank lines skipped; `None` when any line is malformed.
pub open spec fn devices_long_spec_from(s: Seq<u8>, pos: int) -> Option<
    Seq<(Seq<u8>, DeviceState, Seq<(Seq<u8>, Seq<u8>)>)>,
>
    decreases s.len() - pos,
    when 0 <= pos <= s.len()
    via devices_long_spec_from_decreases
{
    if pos >= s.len() {
        Some(Seq::empty())
    } else {
        let line_end = match find_from(s, pos, 10) {
            Some(i) => i,
            None => s.len() as int,
        };
        let next = if line_end == s.len() as int {
            line_end
        } else {
            line_end + 1
        };
        let rest = devices_long_spec_from(s, next);
        if line_end == pos {
            rest
        } else {
            match long_line_spec(s, pos, line_end) {
                None => None,
                Some(d) => match rest {
                    None => None,
                    Some(ds) => Some(seq![d] + ds),
                },
            }
        }
    }
}

#[via_fn]
proof fn devices_long_spec_from_decreases(s: Seq<u8>, pos: int) {
    lemma_find_from(s, pos, 10);
}

/// The devices listed in a `host:devices-l` payload.
pub open spec fn devices_long_spec(s: Seq<u8>) -> Option<
    Seq<(Seq<u8>, DeviceState, Seq<(Seq<u8>, Seq<u8>)>)>,
> {
    devices_long_spec_from(s, 0)
}

/// The mathematical reading of a vector of byte-string tokens.
pub open spec fn toks_view(ts: Seq<Vec<u8>>) -> Seq<Seq<u8>> {
    ts.map_values(|t: Vec<u8>| t@)
}

/// The mathematical reading of a vector of metadata pairs.
pub open spec fn pairs_view(ps: Seq<(Vec<u8>, Vec<u8>)>) -> Seq<(Seq<u8>, Seq<u8>)> {
    ps.map_values(|p: (Vec<u8>, Vec<u8>)| (p.0@, p.1@))
}

/// The mathematical reading of a parsed extended device vector.
pub open spec fn devices_long_view(v: Seq<DeviceLong>) -> Seq<
    (Seq<u8>, DeviceState, Seq<(Seq<u8>, Seq<u8>)>),
> {
    v.map_values(|d: DeviceLong| (d.identifier@, d.state, pairs_view(d.extras@)))
}

fn tokenize(s: &[u8], pos: usize, end: usize) -> (r: Vec<Vec<u8>>)
    requires
        pos <= end <= s@.len(),
    ensures
        toks_view(r@) == tokens_from(s@, pos as int, end as int),
    decreases end - pos,
{
    if pos >= end {
        let r: Vec<Vec<u8>> = Vec::new();
        proof {
            assert(toks_view(r@) =~= tokens_from(s@, pos as int, end as int));
        }
        return r;
    }
    proof {
        lemma_find_from(s@, pos as int, 32);
    }
    let sepj = match find_byte_from(s, pos, 32) {
        Some(j) => j,
        None => end,
    };
    let cut = if sepj < end {
        sepj
    } else {
        end
    };
    let next = if cut < end {
        cut + 1
    } else {
        end
    };
    let rest = tokenize(s, next, end);
    if cut == pos {
        proof {
            assert(s@.subrange(pos as int, cut as int).len() == 0);
        }
        rest
    } else {
        let tok = copy_range(s, pos, cut);
        let mut out = rest;
        out.insert(0, tok);
        proof {
            assert(toks_view(out@) =~= tokens_from(s@, pos as int, end as int));
        }
        out
    }
}

fn parse_kv(tok: &Vec<u8>) -> (r: Option<(Vec<u8>, Vec<u8>)>)
    ensures
        r matches Some(p) ==> kv_of(tok@) == Some((p.0@, p.1@)),
        r is None ==> kv_of(tok@) is None,
{
    proof {
        lemma_find_from(tok@, 0, 58);
    }
    match find_byte_from(tok.as_slice(), 0, 58) {
        None => None,
        Some(j) => {
            let l = tok.len();
            proof {
                assert(j < l);
            }
            let key = copy_range(tok.as_slice(), 0, j);
            let val = copy_range(tok.as_slice(), j + 1, l);
            Some((key, val))
        },
    }
}

fn parse_extras(toks: &Vec<Vec<u8>>, i: usize) -> (r: Result<Vec<(Vec<u8>, Vec<u8>)>, AdbError>)
    requires
        i <= toks@.len(),
    ensures
        extras_of(toks_view(toks@), i as int) matches Some(ex) ==> (r matches Ok(v) && pairs_view(
            v@,
        ) == ex),
        extras_of(toks_view(toks@), i as int) is None ==> r == Err::<
            Vec<(Vec<u8>, Vec<u8>)>,
            AdbError,
        >(AdbError::ProtocolError),
    decreases toks@.len() - i,
{
    if i >= toks.len() {
        let r: Vec<(Vec<u8>, Vec<u8>)> = Vec::new();
        proof {
            assert(pairs_view(r@) =~= Seq::<(Seq<u8>, Seq<u8>)>::empty());
        }
        return Ok(r);
    }
    match parse_kv(&toks[i]) {
        None => Err(AdbError::ProtocolError),
        Some(kv) => {
            let rest = match parse_extras(toks, i + 1) {
                Ok(v) => v,
                Err(e) => {
                    return Err(e);
                },
            };
            let mut out = rest;
            out.insert(0, kv);
            proof {
                let ghost ex = extras_of(toks_view(toks@), i as int)->Some_0;
                assert(pairs_view(out@) =~= ex);
            }
            Ok(out)
        },
    }
}

/// Parse a `host:devices-l` payload: newline-separated lines of
/// space-separated tokens — identifier, state, then `key:value`
/// metadata. Any malformed line fails the listing with `ProtocolError`.
pub fn parse_device_list_long(payload: &[u8]) -> (r: Result<Vec<DeviceLong>, AdbError>)
    ensures
        devices_long_spec(payload@) matches Some(ds) ==> (r matches Ok(v) && devices_long_view(v@)
            == ds),
        devices_long_spec(payload@) is None ==> r == Err::<Vec<DeviceLong>, AdbError>(
            AdbError::ProtocolError,
        ),
{
    parse_devices_long_from(payload, 0)
}

fn parse_devices_long_from(payload: &[u8], pos: usize) -> (r: Result<Vec<DeviceLong>, AdbError>)
    requires
        pos <= payload@.len(),
    ensures
        devices_long_spec_from(payload@, pos as int) matches Some(ds) ==> (r matches Ok(v)
            && devices_long_view(v@) == ds),
        devices_long_spec_from(payload@, pos as int) is None ==> r == Err::<
            Vec<DeviceLong>,
            AdbError,
        >(AdbError::ProtocolError),
    decreases payload@.len() - pos,
{
    if pos >= payload.len() {
        let r: Vec<DeviceLong> = Vec::new();
        proof {
            assert(devices_long_view(r@) =~= Seq::<
                (Seq<u8>, DeviceState, Seq<(Seq<u8>, Seq<u8>)>),
            >::empty());
        }
        return Ok(r);
    }
    proof {
        lemma_find_from(payload@, pos as int, 10);
    }
    let line_end = match find_byte_from(payload, pos, 10) {
        Some(i) => i,
        None => payload.len(),
    };
    let next = if line_end == payload.len() {
        line_end
    } else {
        line_end + 1
    };
    if line_end == pos {
        return parse_devices_long_from(payload, next);
    }
    let toks = tokenize(payload, pos, line_end);
    let parsed: Option<DeviceLong> = if toks.len() < 2 {
        None
    } else {
        match parse_state(toks[1].as_slice()) {
            None => None,
            Some(st) => match parse_extras(&toks, 2) {
                Err(_) => None,
                Ok(ex) => {
                    let mut it = toks;
                    let ident = it.remove(0);
                    Some(DeviceLong { identifier: ident, state: st, extras: ex })
                },
            },
        }
    };
    match parsed {
        None => Err(AdbError::ProtocolError),
        Some(d) => {
            let rest = match parse_devices_long_from(payload, next) {
                Ok(v) => v,
                Err(e) => {
                    return Err(e);
                },
            };
            let mut out = rest;
            out.insert(0, d);
            proof {
                let ghost ds = devices_long_spec_from(payload@, pos as int)->Some_0;
                assert(devices_long_view(out@) =~= ds);
            }
            Ok(out)
        },
    }
}

} // verus!
