use vstd::prelude::*;

use crate::addr::{addr_bytes, all_digits, dec_digits, format_address, is_digit, SocketAddressV4};
use crate::bytes::push_all;
use crate::error::AdbError;
use crate::framing::{encode_request, request_bytes};

verus! {

/// Which transports a wait may select between.
#[derive(Debug, Clone, Copy, PartialEq, Eq, Structural)]
pub enum TransportType {
    Usb,
    Local,
    Any,
}

/// The device states a wait can block for.
#[derive(Debug, Clone, Copy, PartialEq, Eq, Structural)]
pub enum WaitForDeviceState {
    Device,
    Recovery,
    Rescue,
    Sideload,
    Bootloader,
    Any,
    Disconnect,
}

/// A host-directed request, built by variant rather than by string
/// formatting, so a malformed argument cannot slip into the wire
/// grammar.
#[derive(Debug, Clone, PartialEq, Eq)]
pub enum HostRequest {
    Version,
    Kill,
    Devices,
    DevicesLong,
    TrackDevices,
    Connect(SocketAddressV4),
    Disconnect(SocketAddressV4),
    Pair(SocketAddressV4, Vec<u8>),
    MdnsCheck,
    MdnsServices,
    ServerStatus,
    WaitForDevice(TransportType, WaitForDeviceState),
}

/// The wire word for a transport.
pub open spec fn transport_bytes(t: TransportType) -> Seq<u8> {
    match t {
        TransportType::Usb => seq![117u8, 115, 98],
        TransportType::Local => seq![108u8, 111, 99, 97, 108],
        TransportType::Any => seq![97u8, 110, 121],
    }
}

/// The wire word for a wait target state.
pub open spec fn wait_state_bytes(w: WaitForDeviceState) -> Seq<u8> {
    match w {
        WaitForDeviceState::Device => seq![100u8, 101, 118, 105, 99, 101],
        WaitForDeviceState::Recovery => seq![114u8, 101, 99, 111, 118, 101, 114, 121],
        WaitForDeviceState::Rescue => seq![114u8, 101, 115, 99, 117, 101],
        WaitForDeviceState::Sideload => seq![115u8, 105, 100, 101, 108, 111, 97, 100],
        WaitForDeviceState::Bootloader => seq![98u8, 111, 111, 116, 108, 111, 97, 100, 101, 114],
        WaitForDeviceState::Any => seq![97u8, 110, 121],
        WaitForDeviceState::Disconnect => seq![100u8, 105, 115, 99, 111, 110, 110, 101, 99, 116],
    }
}

/// A pairing code as the protocol accepts it: one to thirty-two decimal
/// digits, so it can neither be empty nor smuggle a separator into the
/// command.
pub open spec fn pair_code_valid(code: Seq<u8>) -> bool {
    1 <= code.len() <= 32 && all_digits(code)
}

/// Whether a request's arguments are well formed. Addresses are valid by
/// construction; only a pairing code can be malformed.
pub open spec fn request_valid(r: HostRequest) -> bool {
    match r {
        HostRequest::Pair(_, code) => pair_code_valid(code@),
        _ => true,
    }
}

/// The ASCII command a request puts on the wire.
pub open spec fn command_bytes(r: HostRequest) -> Seq<u8> {
    match r {
        HostRequest::Version => seq![104u8, 111, 115, 116, 58, 118, 101, 114, 115, 105, 111, 110],
        HostRequest::Kill => seq![104u8, 111, 115, 116, 58, 107, 105, 108, 108],
        HostRequest::Devices => seq![104u8, 111, 115, 116, 58, 100, 101, 118, 105, 99, 101, 115],
        HostRequest::DevicesLong => seq![
            104u8, 111, 115, 116, 58, 100, 101, 118, 105, 99, 101, 115, 45, 108,
        ],
        HostRequest::TrackDevices => seq![
            104u8, 111, 115, 116, 58, 116, 114, 97, 99, 107, 45, 100, 101, 118, 105, 99, 101, 115,
        ],
        HostRequest::Connect(addr) => seq![
            104u8, 111, 115, 116, 58, 99, 111, 110, 110, 101, 99, 116, 58,
        ] + addr_bytes(addr),
        HostRequest::Disconnect(addr) => seq![
            104u8, 111, 115, 116, 58, 100, 105, 115, 99, 111, 110, 110, 101, 99, 116, 58,
        ] + addr_bytes(addr),
        HostRequest::Pair(addr, code) => seq![104u8, 111, 115, 116, 58, 112, 97, 105, 114, 58]
            + code@ + seq![58u8] + addr_bytes(addr),
        HostRequest::MdnsCheck => seq![
            104u8, 111, 115, 116, 58, 109, 100, 110, 115, 58, 99, 104, 101, 99, 107,
        ],
        HostRequest::MdnsServices => seq![
            104u8, 111, 115, 116, 58, 109, 100, 110, 115, 58, 115, 101, 114, 118, 105, 99, 101,
            115,
        ],
        HostRequest::ServerStatus => seq![
            104u8, 111, 115, 116, 58, 115, 101, 114, 118, 101, 114, 45, 115, 116, 97, 116, 117,
            115,
        ],
        HostRequest::WaitForDevice(t, w) => seq![
            104u8, 111, 115, 116, 58, 119, 97, 105, 116, 45, 102, 111, 114, 45,
        ] + transport_bytes(t) + seq![45u8] + wait_state_bytes(w),
    }
}

/// Whether a successful reply to this request carries a length-prefixed
/// payload, or is a bare `OKAY`.
pub open spec fn expects_payload(r: HostRequest) -> bool {
    match r {
        HostRequest::Kill => false,
        HostRequest::TrackDevices => false,
        HostRequest::WaitForDevice(_, _) => false,
        _ => true,
    }
}

/// Whether a successful reply to this request carries a length-prefixed
/// payload — what a transport driver must know before reading.
pub fn response_carries_payload(r: &HostRequest) -> (b: bool)
    ensures
        b == expects_payload(*r),
{
    match r {
        HostRequest::Kill => false,
        HostRequest::TrackDevices => false,
        HostRequest::WaitForDevice(_, _) => false,
        _ => true,
    }
}

/// How many decimal digits a number has, by magnitude.
proof fn lemma_dec_digits_len(n: nat)
    ensures
        dec_digits(n).len() >= 1,
        n < 10 ==> dec_digits(n).len() == 1,
        n < 100 ==> dec_digits(n).len() <= 2,
        n < 1000 ==> dec_digits(n).len() <= 3,
        n < 10000 ==> dec_digits(n).len() <= 4,
        n < 100000 ==> dec_digits(n).len() <= 5,
    decreases n,
{
    if n >= 10 {
        lemma_dec_digits_len(n / 10);
    }
}

/// An address never takes more than 21 bytes of text.
proof fn lemma_addr_bytes_len(addr: SocketAddressV4)
    ensures
        addr_bytes(addr).len() <= 21,
{
    lemma_dec_digits_len(addr.a as nat);
    lemma_dec_digits_len(addr.b as nat);
    lemma_dec_digits_len(addr.c as nat);
    lemma_dec_digits_len(addr.d as nat);
    lemma_dec_digits_len(addr.port as nat);
}

/// Every well-formed command fits the framing's four-hex-digit length
/// capacity, so framing a valid request cannot fail.
pub proof fn lemma_command_fits(r: HostRequest)
    requires
        request_valid(r),
    ensures
        command_bytes(r).len() <= 0xffff,
{
    match r {
        HostRequest::Connect(addr) => lemma_addr_bytes_len(addr),
        HostRequest::Disconnect(addr) => lemma_addr_bytes_len(addr),
        HostRequest::Pair(addr, _) => lemma_addr_bytes_len(addr),
        _ => {},
    }
}

/// Build the ASCII command for a request, validating its arguments
/// first: a malformed pairing code is refused with `InvalidArgument`
/// before any I/O could happen.
pub fn host_command(r: &HostRequest) -> (res: Result<Vec<u8>, AdbError>)
    ensures
        request_valid(*r) ==> (res matches Ok(v) && v@ == command_bytes(*r)),
        !request_valid(*r) ==> res == Err::<Vec<u8>, AdbError>(AdbError::InvalidArgument),
{
    match r {
        HostRequest::Version => Ok(
            vec![104u8, 111, 115, 116, 58, 118, 101, 114, 115, 105, 111, 110],
        ),
        HostRequest::Kill => Ok(vec![104u8, 111, 115, 116, 58, 107, 105, 108, 108]),
        HostRequest::Devices => Ok(
            vec![104u8, 111, 115, 116, 58, 100, 101, 118, 105, 99, 101, 115],
        ),
        HostRequest::DevicesLong => Ok(
            vec![104u8, 111, 115, 116, 58, 100, 101, 118, 105, 99, 101, 115, 45, 108],
        ),
        HostRequest::TrackDevices => Ok(
            vec![
                104u8, 111, 115, 116, 58, 116, 114, 97, 99, 107, 45, 100, 101, 118, 105, 99, 101,
                115,
            ],
        ),
        HostRequest::Connect(addr) => {
            let mut v: Vec<u8> = vec![104u8, 111, 115, 116, 58, 99, 111, 110, 110, 101, 99, 116, 58];
            let ab = format_address(addr);
            push_all(&mut v, ab.as_slice());
            Ok(v)
        },
        HostRequest::Disconnect(addr) => {
            let mut v: Vec<u8> = vec![
                104u8, 111, 115, 116, 58, 100, 105, 115, 99, 111, 110, 110, 101, 99, 116, 58,
            ];
            let ab = format_address(addr);
            push_all(&mut v, ab.as_slice());
            Ok(v)
        },
        HostRequest::Pair(addr, code) => {
            if !pair_code_ok(code) {
                return Err(AdbError::InvalidArgument);
            }
            let mut v: Vec<u8> = vec![104u8, 111, 115, 116, 58, 112, 97, 105, 114, 58];
            push_all(&mut v, code.as_slice());
            v.push(58);
            let ab = format_address(addr);
            push_all(&mut v, ab.as_slice());
            proof {
                assert(v@ =~= command_bytes(*r));
            }
            Ok(v)
        },
        HostRequest::MdnsCheck => Ok(
            vec![104u8, 111, 115, 116, 58, 109, 100, 110, 115, 58, 99, 104, 101, 99, 107],
        ),
        HostRequest::MdnsServices => Ok(
            vec![
                104u8, 111, 115, 116, 58, 109, 100, 110, 115, 58, 115, 101, 114, 118, 105, 99,
                101, 115,
            ],
        ),
        HostRequest::ServerStatus => Ok(
            vec![
                104u8, 111, 115, 116, 58, 115, 101, 114, 118, 101, 114, 45, 115, 116, 97, 116,
                117, 115,
            ],
        ),
        HostRequest::WaitForDevice(t, w) => {
            let mut v: Vec<u8> = vec![104u8, 111, 115, 116, 58, 119, 97, 105, 116, 45, 102, 111, 114, 45];
            match t {
                TransportType::Usb => push_all(&mut v, vec![117u8, 115, 98].as_slice()),
                TransportType::Local => push_all(&mut v, vec![108u8, 111, 99, 97, 108].as_slice()),
                TransportType::Any => push_all(&mut v, vec![97u8, 110, 121].as_slice()),
            }
            v.push(45);
            match w {
                WaitForDeviceState::Device => push_all(
                    &mut v,
                    vec![100u8, 101, 118, 105, 99, 101].as_slice(),
                ),
                WaitForDeviceState::Recovery => push_all(
                    &mut v,
                    vec![114u8, 101, 99, 111, 118, 101, 114, 121].as_slice(),
                ),
                WaitForDeviceState::Rescue => push_all(
                    &mut v,
                    vec![114u8, 101, 115, 99, 117, 101].as_slice(),
                ),
                WaitForDeviceState::Sideload => push_all(
                    &mut v,
                    vec![115u8, 105, 100, 101, 108, 111, 97, 100].as_slice(),
                ),
                WaitForDeviceState::Bootloader => push_all(
                    &mut v,
                    vec![98u8, 111, 111, 116, 108, 111, 97, 100, 101, 114].as_slice(),
                ),
                WaitForDeviceState::Any => push_all(&mut v, vec![97u8, 110, 121].as_slice()),
                WaitForDeviceState::Disconnect => push_all(
                    &mut v,
                    vec![100u8, 105, 115, 99, 111, 110, 110, 101, 99, 116].as_slice(),
                ),
            }
            proof {
                assert(v@ =~= command_bytes(*r));
            }
            Ok(v)
        },
    }
}

/// Whether a pairing code is well formed.
fn pair_code_ok(code: &Vec<u8>) -> (r: bool)
    ensures
        r == pair_code_valid(code@),
{
    if code.len() < 1 || code.len() > 32 {
        return false;
    }
    let mut i: usize = 0;
    while i < code.len()
        invariant
            i <= code@.len(),
            forall|k: int| 0 <= k < i ==> is_digit(code@[k]),
        decreases code@.len() - i,
    {
        let b = code[i];
        if !(0x30 <= b && b <= 0x39) {
            return false;
        }
        i = i + 1;
    }
    true
}

/// Validate, build and frame a request in one step: the exact bytes to
/// write on a fresh connection to the server.
pub fn framed_request(r: &HostRequest) -> (res: Result<Vec<u8>, AdbError>)
    ensures
        request_valid(*r) ==> (res matches Ok(v) && v@ == request_bytes(command_bytes(*r))),
        !request_valid(*r) ==> res == Err::<Vec<u8>, AdbError>(AdbError::InvalidArgument),
{
    let cmd = match host_command(r) {
        Ok(c) => c,
        Err(e) => {
            return Err(e);
        },
    };
    proof {
        lemma_command_fits(*r);
    }
    match encode_request(cmd.as_slice()) {
        Ok(v) => Ok(v),
        Err(_) => {
            proof {
                assert(false);
            }
            Err(AdbError::EncodingError)
        },
    }
}

} // verus!
