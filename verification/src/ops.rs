use vstd::prelude::*;

use crate::bytes::{bytes_eq, copy_range, find_byte_from, find_from, lemma_find_from};
use crate::error::AdbError;
use crate::hex::{hex4_valid_at, hex4_value_at, parse_hex4_at};

verus! {

/// Read a `host:version` payload: exactly four hex digits giving the
/// server's version number; anything else is `ProtocolError`.
pub fn version_from_payload(p: &[u8]) -> (r: Result<u16, AdbError>)
    ensures
        p@.len() == 4 && hex4_valid_at(p@, 0) ==> (r matches Ok(v) && v as nat == hex4_value_at(
            p@,
            0,
        )),
        !(p@.len() == 4 && hex4_valid_at(p@, 0)) ==> r == Err::<u16, AdbError>(
            AdbError::ProtocolError,
        ),
{
    if p.len() != 4 {
        return Err(AdbError::ProtocolError);
    }
    parse_hex4_at(p, 0)
}

/// What a `host:mdns:check` payload must start with when a daemon is
/// available: the words `mdns daemon version`. The byte-level grammar is
/// not published; this reading is inferred from the server's observed
/// replies.
pub open spec fn mdns_available(p: Seq<u8>) -> bool {
    p.len() >= 19 && p.subrange(0, 19) == seq![
        109u8, 100, 110, 115, 32, 100, 97, 101, 109, 111, 110, 32, 118, 101, 114, 115, 105, 111,
        110,
    ]
}

/// Read a `host:mdns:check` payload as the availability verdict.
pub fn mdns_check_from_payload(p: &[u8]) -> (r: bool)
    ensures
        r == mdns_available(p@),
{
    if p.len() < 19 {
        return false;
    }
    let head = copy_range(p, 0, 19);
    let lit: Vec<u8> = vec![
        109u8, 100, 110, 115, 32, 100, 97, 101, 109, 111, 110, 32, 118, 101, 114, 115, 105, 111,
        110,
    ];
    let eq = bytes_eq(head.as_slice(), lit.as_slice());
    proof {
        if eq {
            assert(p@.subrange(0, 19) =~= seq![
                109u8, 100, 110, 115, 32, 100, 97, 101, 109, 111, 110, 32, 118, 101, 114, 115,
                105, 111, 110,
            ]);
        }
    }
    eq
}

/// One discovered mDNS service: name, service type and address, a
/// transient snapshot refreshed on each query.
#[derive(Debug, Clone, PartialEq, Eq)]
pub struct MdnsService {
    pub name: Vec<u8>,
    pub service_type: Vec<u8>,
    pub address: Vec<u8>,
}

/// The service on the listing line `s[start..end]`: three tab-separated
/// nonempty fields and no fourth tab.
pub open spec fn mdns_line_spec(s: Seq<u8>, start: int, end: int) -> Option<
    (Seq<u8>, Seq<u8>, Seq<u8>),
>
    recommends
        0 <= start <= end <= s.len(),
{
    match find_from(s, start, 9) {
        None => None,
        Some(j1) => if j1 >= end || j1 == start {
            None
        } else {
            match find_from(s, j1 + 1, 9) {
                None => None,
                Some(j2) => if j2 >= end || j2 == j1 + 1 || j2 + 1 == end {
                    None
                } else {
                    let no_more = match find_from(s, j2 + 1, 9) {
                        None => true,
                        Some(j3) => j3 >= end,
                    };
                    if no_more {
                        Some(
                            (s.subrange(start, j1), s.subrange(j1 + 1, j2), s.subrange(
                                j2 + 1,
                                end,
                            )),
                        )
                    } else {
                        None
                    }
                },
            }
        },
    }
}

/// The services listed in `s[pos..]`, one per line, blank lines skipped.
pub open spec fn mdns_services_spec_from(s: Seq<u8>, pos: int) -> Option<
    Seq<(Seq<u8>, Seq<u8>, Seq<u8>)>,
>
    decreases s.len() - pos,
    when 0 <= pos <= s.len()
    via mdns_services_spec_from_decreases
{
    if pos >= s.len() {
        Some(Seq::empty())
    } else {
        let line_end = match find_from(s, pos, 10) {
            Some(i) => i,
            None => s.len() as int,
        };
        let next = if line_end == s.len() as int {
            line_end
        } else {
            line_end + 1
        };
        let rest = mdns_services_spec_from(s, next);
        if line_end == pos {
            rest
        } else {
            match mdns_line_spec(s, pos, line_end) {
                None => None,
                Some(m) => match rest {
                    None => None,
                    Some(ms) => Some(seq![m] + ms),
                },
            }
        }
    }
}

#[via_fn]
proof fn mdns_services_spec_from_decreases(s: Seq<u8>, pos: int) {
    lemma_find_from(s, pos, 10);
}

/// The services listed in a `host:mdns:services` payload.
pub open spec fn mdns_services_spec(s: Seq<u8>) -> Option<Seq<(Seq<u8>, Seq<u8>, Seq<u8>)>> {
    mdns_services_spec_from(s, 0)
}

/// The mathematical reading of a parsed service vector.
pub open spec fn mdns_services_view(v: Seq<MdnsService>) -> Seq<(Seq<u8>, Seq<u8>, Seq<u8>)> {
    v.map_values(|m: MdnsService| (m.name@, m.service_type@, m.address@))
}

/// Parse a `host:mdns:services` payload: newline-separated
/// `name\ttype\taddress` lines. A malformed line fails the listing with
/// `ProtocolError`.
pub fn parse_mdns_services(payload: &[u8]) -> (r: Result<Vec<MdnsService>, AdbError>)
    ensures
        mdns_services_spec(payload@) matches Some(ms) ==> (r matches Ok(v) && mdns_services_view(
            v@,
        ) == ms),
        mdns_services_spec(payload@) is None ==> r == Err::<Vec<MdnsService>, AdbError>(
            AdbError::ProtocolError,
        ),
{
    parse_mdns_services_from(payload, 0)
}

fn parse_mdns_services_from(payload: &[u8], pos: usize) -> (r: Result<Vec<MdnsService>, AdbError>)
    requires
        pos <= payload@.len(),
    ensures
        mdns_services_spec_from(payload@, pos as int) matches Some(ms) ==> (r matches Ok(v)
            && mdns_services_view(v@) == ms),
        mdns_services_spec_from(payload@, pos as int) is None ==> r == Err::<
            Vec<MdnsService>,
            AdbError,
        >(AdbError::ProtocolError),
    decreases payload@.len() - pos,
{
    if pos >= payload.len() {
        let r: Vec<MdnsService> = Vec::new();
        proof {
            assert(mdns_services_view(r@) =~= Seq::<(Seq<u8>, Seq<u8>, Seq<u8>)>::empty());
        }
        return Ok(r);
    }
    proof {
        lemma_find_from(payload@, pos as int, 10);
    }
    let line_end = match find_byte_from(payload, pos, 10) {
        Some(i) => i,
        None => payload.len(),
    };
    let next = if line_end == payload.len() {
        line_end
    } else {
        line_end + 1
    };
    if line_end == pos {
        return parse_mdns_services_from(payload, next);
    }
    proof {
        lemma_find_from(payload@, pos as int, 9);
    }
    let parsed: Option<MdnsService> = match find_byte_from(payload, pos, 9) {
        None => None,
        Some(j1) => if j1 >= line_end || j1 == pos {
            None
        } else {
            proof {
                lemma_find_from(payload@, j1 + 1, 9);
            }
            match find_byte_from(payload, j1 + 1, 9) {
                None => None,
                Some(j2) => if j2 >= line_end || j2 == j1 + 1 || j2 + 1 == line_end {
                    None
                } else {
                    proof {
                        lemma_find_from(payload@, j2 + 1, 9);
                    }
                    let no_more = match find_byte_from(payload, j2 + 1, 9) {
                        None => true,
                        Some(j3) => j3 >= line_end,
                    };
                    if no_more {
                        Some(
                            MdnsService {
                                name: copy_range(payload, pos, j1),
                                service_type: copy_range(payload, j1 + 1, j2),
                                address: copy_range(payload, j2 + 1, line_end),
                            },
                        )
                    } else {
                        None
                    }
                },
            }
        },
    };
    match parsed {
        None => Err(AdbError::ProtocolError),
        Some(m) => {
            let rest = match parse_mdns_services_from(payload, next) {
                Ok(v) => v,
                Err(e) => {
                    return Err(e);
                },
            };
            let mut out = rest;
            out.insert(0, m);
            proof {
                let ghost ms = mdns_services_spec_from(payload@, pos as int)->Some_0;
                assert(mdns_services_view(out@) =~= ms);
            }
            Ok(out)
        },
    }
}

/// The mDNS backend the server reports running with.
#[derive(Debug, Clone, Copy, PartialEq, Eq, Structural)]
pub enum MdnsBackend {
    Unknown,
    Bonjour,
    OpenScreen,
}

/// Structured server information: the mDNS backend and a version text.
#[derive(Debug, Clone, PartialEq, Eq)]
pub struct ServerStatus {
    pub mdns_backend: MdnsBackend,
    pub version: Vec<u8>,
}

/// The backend named by `s`.
pub open spec fn backend_of(s: Seq<u8>) -> Option<MdnsBackend> {
    if s == seq![117u8, 110, 107, 110, 111, 119, 110] {
        Some(MdnsBackend::Unknown)
    } else if s == seq![98u8, 111, 110, 106, 111, 117, 114] {
        Some(MdnsBackend::Bonjour)
    } else if s == seq![111u8, 112, 101, 110, 115, 99, 114, 101, 101, 110] {
        Some(MdnsBackend::OpenScreen)
    } else {
        None
    }
}

/// A `host:server-status` payload as this client reads it: a line
/// `mdns_backend=<unknown|bonjour|openscreen>`, then `version=<text>`,
/// with at most one trailing newline. The byte-level grammar is not
/// published; this reading is inferred, and anything else is refused.
pub open spec fn server_status_spec(p: Seq<u8>) -> Option<(MdnsBackend, Seq<u8>)> {
    match find_from(p, 0, 10) {
        None => None,
        Some(n1) => {
            if n1 < 13 || p.subrange(0, 13) != seq![
                109u8, 100, 110, 115, 95, 98, 97, 99, 107, 101, 110, 100, 61,
            ] {
                None
            } else {
                match backend_of(p.subrange(13, n1)) {
                    None => None,
                    Some(b) => {
                        let rest = p.subrange(n1 + 1, p.len() as int);
                        if rest.len() < 8 || rest.subrange(0, 8) != seq![
                            118u8, 101, 114, 115, 105, 111, 110, 61,
                        ] {
                            None
                        } else {
                            let v = rest.subrange(8, rest.len() as int);
                            if v.len() > 0 && v[v.len() - 1] == 10 {
                                Some((b, v.subrange(0, v.len() - 1)))
                            } else {
                                Some((b, v))
                            }
                        }
                    },
                }
            }
        },
    }
}

/// Parse a `host:server-status` payload.
pub fn parse_server_status(payload: &[u8]) -> (r: Result<ServerStatus, AdbError>)
    ensures
        server_status_spec(payload@) matches Some(st) ==> (r matches Ok(s) && s.mdns_backend
            == st.0 && s.version@ == st.1),
        server_status_spec(payload@) is None ==> r == Err::<ServerStatus, AdbError>(
            AdbError::ProtocolError,
        ),
{
    proof {
        lemma_find_from(payload@, 0, 10);
    }
    let n1 = match find_byte_from(payload, 0, 10) {
        None => {
            return Err(AdbError::ProtocolError);
        },
        Some(i) => i,
    };
    if n1 < 13 {
        return Err(AdbError::ProtocolError);
    }
    let head = copy_range(payload, 0, 13);
    let key1: Vec<u8> = vec![109u8, 100, 110, 115, 95, 98, 97, 99, 107, 101, 110, 100, 61];
    if !bytes_eq(head.as_slice(), key1.as_slice()) {
        proof {
            assert(payload@.subrange(0, 13) != seq![
                109u8, 100, 110, 115, 95, 98, 97, 99, 107, 101, 110, 100, 61,
            ]);
        }
        return Err(AdbError::ProtocolError);
    }
    proof {
        assert(payload@.subrange(0, 13) =~= seq![
            109u8, 100, 110, 115, 95, 98, 97, 99, 107, 101, 110, 100, 61,
        ]);
    }
    let tok = copy_range(payload, 13, n1);
    let backend = {
        let lit_unknown: Vec<u8> = vec![117u8, 110, 107, 110, 111, 119, 110];
        let lit_bonjour: Vec<u8> = vec![98u8, 111, 110, 106, 111, 117, 114];
        let lit_openscreen: Vec<u8> = vec![111u8, 112, 101, 110, 115, 99, 114, 101, 101, 110];
        if bytes_eq(tok.as_slice(), lit_unknown.as_slice()) {
            proof {
                assert(payload@.subrange(13, n1 as int) =~= seq![
                    117u8, 110, 107, 110, 111, 119, 110,
                ]);
            }
            Some(MdnsBackend::Unknown)
        } else if bytes_eq(tok.as_slice(), lit_bonjour.as_slice()) {
            proof {
                assert(payload@.subrange(13, n1 as int) =~= seq![98u8, 111, 110, 106, 111, 117, 114]);
            }
            Some(MdnsBackend::Bonjour)
        } else if bytes_eq(tok.as_slice(), lit_openscreen.as_slice()) {
            proof {
                assert(payload@.subrange(13, n1 as int) =~= seq![
                    111u8, 112, 101, 110, 115, 99, 114, 101, 101, 110,
                ]);
            }
            Some(MdnsBackend::OpenScreen)
        } else {
            None
        }
    };
    let b = match backend {
        None => {
            return Err(AdbError::ProtocolError);
        },
        Some(b) => b,
    };
    let len = payload.len();
    let ghost rest = payload@.subrange(n1 + 1, payload@.len() as int);
    if len - n1 - 1 < 8 {
        return Err(AdbError::ProtocolError);
    }
    let head2 = copy_range(payload, n1 + 1, n1 + 9);
    let key2: Vec<u8> = vec![118u8, 101, 114, 115, 105, 111, 110, 61];
    proof {
        assert(head2@ =~= rest.subrange(0, 8));
    }
    if !bytes_eq(head2.as_slice(), key2.as_slice()) {
        return Err(AdbError::ProtocolError);
    }
    proof {
        assert(rest.subrange(0, 8) =~= seq![118u8, 101, 114, 115, 105, 111, 110, 61]);
    }
    let vstart = n1 + 9;
    let vend = if len > vstart && payload[len - 1] == 10 {
        len - 1
    } else {
        len
    };
    let version = copy_range(payload, vstart, vend);
    proof {
        let v = rest.subrange(8, rest.len() as int);
        assert(v =~= payload@.subrange(vstart as int, payload@.len() as int));
        if v.len() > 0 && v[v.len() - 1] == 10 {
            assert(version@ =~= v.subrange(0, v.len() - 1));
        } else {
            assert(version@ =~= v);
        }
    }
    Ok(ServerStatus { mdns_backend: b, version })
}

} // verus!
