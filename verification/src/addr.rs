use vstd::prelude::*;

use crate::bytes::{find_byte_from, find_from, lemma_find_from};
use crate::devices::DeviceShort;

verus! {

/// An IPv4 socket address: four octets and a TCP port. The ADB server's
/// own address and the targets of connect, disconnect and pair requests
/// all take this shape; a value is valid by construction, so no
/// operation on one can fail on a malformed address.
#[derive(Debug, Clone, Copy, PartialEq, Eq, Structural)]
pub struct SocketAddressV4 {
    pub a: u8,
    pub b: u8,
    pub c: u8,
    pub d: u8,
    pub port: u16,
}

/// Whether `b` is an ASCII decimal digit.
pub open spec fn is_digit(b: u8) -> bool {
    0x30 <= b && b <= 0x39
}

/// Whether every byte of `s` is an ASCII decimal digit.
pub open spec fn all_digits(s: Seq<u8>) -> bool {
    forall|k: int| 0 <= k < s.len() ==> is_digit(s[k])
}

/// The decimal digits of `n`, most significant first.
pub open spec fn dec_digits(n: nat) -> Seq<u8>
    decreases n,
{
    if n < 10 {
        seq![(0x30 + n) as u8]
    } else {
        dec_digits(n / 10) + seq![(0x30 + n % 10) as u8]
    }
}

/// The number written by the digit string `s` (most significant first).
pub open spec fn dec_value(s: Seq<u8>) -> nat
    decreases s.len(),
{
    if s.len() == 0 {
        0
    } else {
        dec_value(s.take(s.len() - 1)) * 10 + (s[s.len() - 1] - 0x30) as nat
    }
}

/// A digit string is worth at least what any of its prefixes is worth.
proof fn lemma_dec_prefix_le(s: Seq<u8>, i: int)
    requires
        0 <= i <= s.len(),
    ensures
        dec_value(s.take(i)) <= dec_value(s),
    decreases s.len() - i,
{
    if i < s.len() {
        lemma_dec_prefix_le(s, i + 1);
        assert(s.take(i + 1).take(i) =~= s.take(i));
        assert(dec_value(s.take(i + 1)) == dec_value(s.take(i)) * 10 + (s[i] - 0x30) as nat);
    } else {
        assert(s.take(i) =~= s);
    }
}

/// Append the decimal digits of `n` to `v`.
pub fn push_decimal(v: &mut Vec<u8>, n: u16)
    ensures
        final(v)@ == old(v)@ + dec_digits(n as nat),
    decreases n,
{
    if n < 10 {
        v.push(0x30 + n as u8);
        proof {
            assert(final(v)@ =~= old(v)@ + dec_digits(n as nat));
        }
    } else {
        push_decimal(v, n / 10);
        v.push(0x30 + (n % 10) as u8);
        proof {
            assert(final(v)@ =~= old(v)@ + (dec_digits((n / 10) as nat) + seq![
                (0x30 + (n % 10) as nat) as u8,
            ]));
        }
    }
}

/// The textual form `a.b.c.d:port` of an address, in bytes.
pub open spec fn addr_bytes(addr: SocketAddressV4) -> Seq<u8> {
    dec_digits(addr.a as nat) + seq![46u8] + dec_digits(addr.b as nat) + seq![46u8] + dec_digits(
        addr.c as nat,
    ) + seq![46u8] + dec_digits(addr.d as nat) + seq![58u8] + dec_digits(addr.port as nat)
}

/// Render an address as `a.b.c.d:port`.
pub fn format_address(addr: &SocketAddressV4) -> (r: Vec<u8>)
    ensures
        r@ == addr_bytes(*addr),
{
    let mut r: Vec<u8> = Vec::new();
    push_decimal(&mut r, addr.a as u16);
    r.push(46);
    push_decimal(&mut r, addr.b as u16);
    r.push(46);
    push_decimal(&mut r, addr.c as u16);
    r.push(46);
    push_decimal(&mut r, addr.d as u16);
    r.push(58);
    push_decimal(&mut r, addr.port as u16);
    proof {
        assert(r@ =~= addr_bytes(*addr));
    }
    r
}

/// Every byte of a decimal rendering is a digit.
proof fn lemma_dec_digits_are_digits(n: nat)
    ensures
        all_digits(dec_digits(n)),
        dec_digits(n).len() >= 1,
    decreases n,
{
    if n >= 10 {
        lemma_dec_digits_are_digits(n / 10);
        assert forall|k: int| 0 <= k < dec_digits(n).len() implies is_digit(
            dec_digits(n)[k],
        ) by {
            if k < dec_digits(n / 10).len() {
                assert(dec_digits(n)[k] == dec_digits(n / 10)[k]);
            }
        }
    }
}

/// Reading a decimal rendering back yields the number it renders.
proof fn lemma_dec_round_trip(n: nat)
    ensures
        dec_value(dec_digits(n)) == n,
    decreases n,
{
    if n < 10 {
        let s = dec_digits(n);
        assert(s.len() == 1);
        assert(s[0] == (0x30 + n) as u8);
        assert(s.take(0) =~= Seq::<u8>::empty());
        assert(dec_value(s.take(0)) == 0);
        assert(dec_value(s) == dec_value(s.take(0)) * 10 + (s[0] - 0x30) as nat);
        assert((s[0] - 0x30) as nat == n);
    } else {
        lemma_dec_round_trip(n / 10);
        let s = dec_digits(n);
        assert(s.len() == dec_digits(n / 10).len() + 1);
        assert(s.take(s.len() - 1) =~= dec_digits(n / 10));
        assert(s[s.len() - 1] == (0x30 + n % 10) as u8);
        assert(((0x30 + n % 10) as u8 - 0x30) as nat == n % 10);
        assert(dec_value(s) == dec_value(s.take(s.len() - 1)) * 10 + (s[s.len() - 1]
            - 0x30) as nat);
        assert(n == (n / 10) * 10 + n % 10);
    }
}

/// Round trip: the textual form an address is rendered to parses back to
/// exactly that address — the formatter and the parser agree on the
/// `a.b.c.d:port` grammar for every address.
pub proof fn lemma_address_round_trip(addr: SocketAddressV4)
    ensures
        addr_spec(addr_bytes(addr)) == Some(addr),
{
    let da = dec_digits(addr.a as nat);
    let db = dec_digits(addr.b as nat);
    let dc = dec_digits(addr.c as nat);
    let dd = dec_digits(addr.d as nat);
    let dp = dec_digits(addr.port as nat);
    lemma_dec_digits_are_digits(addr.a as nat);
    lemma_dec_digits_are_digits(addr.b as nat);
    lemma_dec_digits_are_digits(addr.c as nat);
    lemma_dec_digits_are_digits(addr.d as nat);
    lemma_dec_digits_are_digits(addr.port as nat);
    lemma_dec_round_trip(addr.a as nat);
    lemma_dec_round_trip(addr.b as nat);
    lemma_dec_round_trip(addr.c as nat);
    lemma_dec_round_trip(addr.d as nat);
    lemma_dec_round_trip(addr.port as nat);
    let s = addr_bytes(addr);
    let p1 = da.len() as int;
    let p2 = p1 + 1 + db.len() as int;
    let p3 = p2 + 1 + dc.len() as int;
    let pc = p3 + 1 + dd.len() as int;
    assert(s.len() == pc + 1 + dp.len());
    assert(s[p1] == 46);
    assert(s[p2] == 46);
    assert(s[p3] == 46);
    assert(s[pc] == 58);
    assert forall|k: int| 0 <= k < p1 implies s[k] == da[k] by {}
    assert forall|k: int| p1 + 1 <= k < p2 implies s[k] == db[k - (p1 + 1)] by {}
    assert forall|k: int| p2 + 1 <= k < p3 implies s[k] == dc[k - (p2 + 1)] by {}
    assert forall|k: int| p3 + 1 <= k < pc implies s[k] == dd[k - (p3 + 1)] by {}
    assert forall|k: int| pc + 1 <= k < s.len() implies s[k] == dp[k - (pc + 1)] by {}
    assert forall|k: int| 0 <= k < pc implies s[k] != 58 by {
        if k < p1 {
            assert(is_digit(s[k]));
        } else if p1 + 1 <= k < p2 {
            assert(is_digit(s[k]));
        } else if p2 + 1 <= k < p3 {
            assert(is_digit(s[k]));
        } else if p3 + 1 <= k < pc {
            assert(is_digit(s[k]));
        }
    }
    lemma_find_from(s, 0, 58);
    assert(find_from(s, 0, 58) == Some(pc));
    assert forall|k: int| 0 <= k < p1 implies s[k] != 46 by {
        assert(is_digit(s[k]));
    }
    lemma_find_from(s, 0, 46);
    assert(find_from(s, 0, 46) == Some(p1));
    assert forall|k: int| p1 + 1 <= k < p2 implies s[k] != 46 by {
        assert(is_digit(s[k]));
    }
    lemma_find_from(s, p1 + 1, 46);
    assert(find_from(s, p1 + 1, 46) == Some(p2));
    assert forall|k: int| p2 + 1 <= k < p3 implies s[k] != 46 by {
        assert(is_digit(s[k]));
    }
    lemma_find_from(s, p2 + 1, 46);
    assert(find_from(s, p2 + 1, 46) == Some(p3));
    assert(s.subrange(0, p1) =~= da);
    assert(s.subrange(p1 + 1, p2) =~= db);
    assert(s.subrange(p2 + 1, p3) =~= dc);
    assert(s.subrange(p3 + 1, pc) =~= dd);
    assert(s.subrange(pc + 1, s.len() as int) =~= dp);
    assert(seg_value(s, 0, p1, 255) == Some(addr.a as nat));
    assert(seg_value(s, p1 + 1, p2, 255) == Some(addr.b as nat));
    assert(seg_value(s, p2 + 1, p3, 255) == Some(addr.c as nat));
    assert(seg_value(s, p3 + 1, pc, 255) == Some(addr.d as nat));
    assert(seg_value(s, pc + 1, s.len() as int, 0xffff) == Some(addr.port as nat));
    assert(addr_spec(s) == Some(addr));
}

/// The number in `s[start..end]`, when that segment is a nonempty digit
/// string worth at most `max`.
pub open spec fn seg_value(s: Seq<u8>, start: int, end: int, max: nat) -> Option<nat>
    recommends
        0 <= start <= end <= s.len(),
{
    let seg = s.subrange(start, end);
    if seg.len() > 0 && all_digits(seg) && dec_value(seg) <= max {
        Some(dec_value(seg))
    } else {
        None
    }
}

/// The address written as `a.b.c.d:port` in `s`, reading the first three
/// dots and the first colon as the separators; octets up to 255, the
/// port up to 65535, leading zeros tolerated.
pub open spec fn addr_spec(s: Seq<u8>) -> Option<SocketAddressV4> {
    match find_from(s, 0, 58) {
        None => None,
        Some(c) => match find_from(s, 0, 46) {
            None => None,
            Some(d1) => match find_from(s, d1 + 1, 46) {
                None => None,
                Some(d2) => match find_from(s, d2 + 1, 46) {
                    None => None,
                    Some(d3) => if d3 >= c {
                        None
                    } else {
                        let oa = seg_value(s, 0, d1, 255);
                        let ob = seg_value(s, d1 + 1, d2, 255);
                        let oc = seg_value(s, d2 + 1, d3, 255);
                        let od = seg_value(s, d3 + 1, c, 255);
                        let op = seg_value(s, c + 1, s.len() as int, 0xffff);
                        if oa is Some && ob is Some && oc is Some && od is Some && op is Some {
                            Some(
                                SocketAddressV4 {
                                    a: oa->Some_0 as u8,
                                    b: ob->Some_0 as u8,
                                    c: oc->Some_0 as u8,
                                    d: od->Some_0 as u8,
                                    port: op->Some_0 as u16,
                                },
                            )
                        } else {
                            None
                        }
                    },
                },
            },
        },
    }
}

/// Read the number in `s[start..end]`, refusing an empty segment, a
/// non-digit byte, or a value above `max`.
fn parse_dec_range(s: &[u8], start: usize, end: usize, max: u16) -> (r: Option<u16>)
    requires
        start <= end <= s@.len(),
    ensures
        r matches Some(v) ==> seg_value(s@, start as int, end as int, max as nat) == Some(
            v as nat,
        ),
        r is None ==> seg_value(s@, start as int, end as int, max as nat) is None,
{
    let ghost seg = s@.subrange(start as int, end as int);
    if start == end {
        return None;
    }
    let mut acc: u32 = 0;
    let mut i: usize = start;
    proof {
        assert(seg.take(0) =~= Seq::<u8>::empty());
    }
    while i < end
        invariant
            start <= i <= end,
            end <= s@.len(),
            seg == s@.subrange(start as int, end as int),
            acc as nat == dec_value(seg.take(i - start)),
            acc <= max,
            all_digits(seg.take(i - start)),
        decreases end - i,
    {
        let b = s[i];
        if !(0x30 <= b && b <= 0x39) {
            proof {
                assert(seg[i - start] == b);
            }
            return None;
        }
        let next: u32 = acc * 10 + (b - 0x30) as u32;
        proof {
            assert(seg.take(i - start + 1).take(i - start) =~= seg.take(i - start));
            assert(seg.take(i - start + 1)[i - start] == b);
            assert(dec_value(seg.take(i - start + 1)) == dec_value(seg.take(i - start)) * 10 + (b
                - 0x30) as nat);
        }
        if next > max as u32 {
            proof {
                lemma_dec_prefix_le(seg, i - start + 1);
            }
            return None;
        }
        acc = next;
        i = i + 1;
    }
    proof {
        assert(seg.take(end - start) =~= seg);
    }
    Some(acc as u16)
}

/// Parse `a.b.c.d:port`.
pub fn parse_address(s: &[u8]) -> (r: Option<SocketAddressV4>)
    ensures
        r == addr_spec(s@),
{
    proof {
        lemma_find_from(s@, 0, 58);
        lemma_find_from(s@, 0, 46);
    }
    let c = match find_byte_from(s, 0, 58) {
        None => { return None },
        Some(i) => i,
    };
    let d1 = match find_byte_from(s, 0, 46) {
        None => { return None },
        Some(i) => i,
    };
    let n = s.len();
    proof {
        assert(d1 < n);
        lemma_find_from(s@, d1 + 1, 46);
    }
    let d2 = match find_byte_from(s, d1 + 1, 46) {
        None => { return None },
        Some(i) => i,
    };
    proof {
        assert(d2 < n);
        lemma_find_from(s@, d2 + 1, 46);
    }
    let d3 = match find_byte_from(s, d2 + 1, 46) {
        None => { return None },
        Some(i) => i,
    };
    if d3 >= c {
        return None;
    }
    let oa = parse_dec_range(s, 0, d1, 255);
    let ob = parse_dec_range(s, d1 + 1, d2, 255);
    let oc = parse_dec_range(s, d2 + 1, d3, 255);
    let od = parse_dec_range(s, d3 + 1, c, 255);
    let op = parse_dec_range(s, c + 1, s.len(), 0xffff);
    match (oa, ob, oc, od, op) {
        (Some(a), Some(b), Some(cc), Some(d), Some(p)) => Some(
            SocketAddressV4 { a: a as u8, b: b as u8, c: cc as u8, d: d as u8, port: p },
        ),
        _ => None,
    }
}

/// The first listed device whose identifier is written as `ip:port`,
/// with that address — how a pairing target is auto-detected from a
/// device listing.
pub fn first_address_device(devices: &Vec<DeviceShort>) -> (r: Option<(usize, SocketAddressV4)>)
    ensures
        r matches Some(p) ==> p.0 < devices@.len() && addr_spec(devices@[p.0 as int].identifier@)
            == Some(p.1) && (forall|k: int|
            0 <= k < p.0 ==> addr_spec(devices@[k].identifier@) is None),
        r is None ==> forall|k: int|
            0 <= k < devices@.len() ==> addr_spec(devices@[k].identifier@) is None,
{
    let mut i: usize = 0;
    while i < devices.len()
        invariant
            i <= devices@.len(),
            forall|k: int| 0 <= k < i ==> addr_spec(devices@[k].identifier@) is None,
        decreases devices@.len() - i,
    {
        match parse_address(devices[i].identifier.as_slice()) {
            Some(addr) => { return Some((i, addr)) },
            None => {},
        }
        i = i + 1;
    }
    None
}

} // verus!
