use adb_host::addr::{first_address_device, format_address, parse_address, SocketAddressV4};
use adb_host::command::{
    framed_request, host_command, HostRequest, TransportType, WaitForDeviceState,
};
use adb_host::devices::{
    parse_device_list, parse_device_list_long, parse_state, DeviceShort, DeviceState,
};
use adb_host::error::AdbError;
use adb_host::ops::{
    mdns_check_from_payload, parse_mdns_services, parse_server_status, version_from_payload,
    MdnsBackend,
};

#[test]
fn devices_single_emulator() {
    let parsed = parse_device_list(b"emulator-5554\tdevice\n").unwrap();
    assert_eq!(parsed.len(), 1);
    assert_eq!(parsed[0].identifier, b"emulator-5554".to_vec());
    assert_eq!(parsed[0].state, DeviceState::Device);
}

#[test]
fn devices_several_lines_and_states() {
    let payload = b"emulator-5554\tdevice\n192.168.1.7:5555\tunauthorized\nserialx\toffline\n";
    let parsed = parse_device_list(payload).unwrap();
    assert_eq!(parsed.len(), 3);
    assert_eq!(parsed[1].identifier, b"192.168.1.7:5555".to_vec());
    assert_eq!(parsed[1].state, DeviceState::Unauthorized);
    assert_eq!(parsed[2].state, DeviceState::Offline);
}

#[test]
fn devices_empty_payload_is_empty_list() {
    assert_eq!(parse_device_list(b"").unwrap(), Vec::<DeviceShort>::new());
    assert_eq!(parse_device_list(b"\n\n").unwrap(), Vec::<DeviceShort>::new());
}

#[test]
fn devices_final_line_may_lack_newline() {
    let parsed = parse_device_list(b"emulator-5554\tdevice").unwrap();
    assert_eq!(parsed.len(), 1);
    assert_eq!(parsed[0].identifier, b"emulator-5554".to_vec());
}

#[test]
fn devices_long_several_lines() {
    let payload = b"emulator-5554 device product:a\n192.168.1.7:5555 offline transport_id:2\n";
    let parsed = parse_device_list_long(payload).unwrap();
    assert_eq!(parsed.len(), 2);
    assert_eq!(parsed[1].identifier, b"192.168.1.7:5555".to_vec());
    assert_eq!(parsed[1].state, DeviceState::Offline);
    assert_eq!(parsed[1].extras, vec![(b"transport_id".to_vec(), b"2".to_vec())]);
}

#[test]
fn devices_malformed_lines_rejected() {
    assert_eq!(
        parse_device_list(b"emulator-5554 device\n"),
        Err(AdbError::ProtocolError)
    );
    assert_eq!(
        parse_device_list(b"emulator-5554\tflying\n"),
        Err(AdbError::ProtocolError)
    );
    assert_eq!(parse_device_list(b"\tdevice\n"), Err(AdbError::ProtocolError));
}

#[test]
fn device_states_all_words() {
    let cases: [(&[u8], DeviceState); 9] = [
        (b"device", DeviceState::Device),
        (b"offline", DeviceState::Offline),
        (b"unauthorized", DeviceState::Unauthorized),
        (b"bootloader", DeviceState::Bootloader),
        (b"recovery", DeviceState::Recovery),
        (b"sideload", DeviceState::Sideload),
        (b"rescue", DeviceState::Rescue),
        (b"host", DeviceState::Host),
        (b"authorizing", DeviceState::Authorizing),
    ];
    for (word, state) in cases {
        assert_eq!(parse_state(word), Some(state));
    }
    assert_eq!(parse_state(b"Device"), None);
    assert_eq!(parse_state(b""), None);
}

#[test]
fn devices_long_line_with_metadata() {
    let payload = b"emulator-5554          device product:sdk_gphone model:Pixel transport_id:1\n";
    let parsed = parse_device_list_long(payload).unwrap();
    assert_eq!(parsed.len(), 1);
    assert_eq!(parsed[0].identifier, b"emulator-5554".to_vec());
    assert_eq!(parsed[0].state, DeviceState::Device);
    assert_eq!(
        parsed[0].extras,
        vec![
            (b"product".to_vec(), b"sdk_gphone".to_vec()),
            (b"model".to_vec(), b"Pixel".to_vec()),
            (b"transport_id".to_vec(), b"1".to_vec()),
        ]
    );
}

#[test]
fn devices_long_rejects_token_without_colon() {
    let payload = b"emulator-5554 device junk\n";
    assert_eq!(parse_device_list_long(payload), Err(AdbError::ProtocolError));
}

#[test]
fn version_payload_parses_hex() {
    assert_eq!(version_from_payload(b"0029"), Ok(41));
    assert_eq!(version_from_payload(b"0028"), Ok(40));
}

#[test]
fn version_payload_rejects_bad_shapes() {
    assert_eq!(version_from_payload(b"29"), Err(AdbError::ProtocolError));
    assert_eq!(version_from_payload(b"00290"), Err(AdbError::ProtocolError));
    assert_eq!(version_from_payload(b"0x29"), Err(AdbError::ProtocolError));
}

#[test]
fn mdns_check_verdicts() {
    assert!(mdns_check_from_payload(b"mdns daemon version [10.0.0-6665047]"));
    assert!(mdns_check_from_payload(b"mdns daemon version"));
    assert!(!mdns_check_from_payload(b"mdns daemon unavailable"));
    assert!(!mdns_check_from_payload(b""));
}

#[test]
fn mdns_services_lines() {
    let payload = b"adb-tls-001\t_adb-tls-connect._tcp\t192.168.1.7:5555\n";
    let parsed = parse_mdns_services(payload).unwrap();
    assert_eq!(parsed.len(), 1);
    assert_eq!(parsed[0].name, b"adb-tls-001".to_vec());
    assert_eq!(parsed[0].service_type, b"_adb-tls-connect._tcp".to_vec());
    assert_eq!(parsed[0].address, b"192.168.1.7:5555".to_vec());
}

#[test]
fn mdns_services_malformed_line_rejected() {
    assert_eq!(
        parse_mdns_services(b"name-only\n"),
        Err(AdbError::ProtocolError)
    );
    assert_eq!(
        parse_mdns_services(b"a\tb\tc\td\n"),
        Err(AdbError::ProtocolError)
    );
}

#[test]
fn server_status_backends() {
    let parsed = parse_server_status(b"mdns_backend=openscreen\nversion=36.0.0\n").unwrap();
    assert_eq!(parsed.mdns_backend, MdnsBackend::OpenScreen);
    assert_eq!(parsed.version, b"36.0.0".to_vec());
    let parsed = parse_server_status(b"mdns_backend=bonjour\nversion=35").unwrap();
    assert_eq!(parsed.mdns_backend, MdnsBackend::Bonjour);
    assert_eq!(parsed.version, b"35".to_vec());
    let parsed = parse_server_status(b"mdns_backend=unknown\nversion=").unwrap();
    assert_eq!(parsed.mdns_backend, MdnsBackend::Unknown);
    assert_eq!(parsed.version, Vec::<u8>::new());
}

#[test]
fn server_status_rejects_other_shapes() {
    assert_eq!(
        parse_server_status(b"mdns_backend=avahi\nversion=1\n"),
        Err(AdbError::ProtocolError)
    );
    assert_eq!(parse_server_status(b"version=1\n"), Err(AdbError::ProtocolError));
    assert_eq!(parse_server_status(b""), Err(AdbError::ProtocolError));
}

#[test]
fn address_formatting() {
    let addr = SocketAddressV4 { a: 192, b: 168, c: 1, d: 10, port: 5555 };
    assert_eq!(format_address(&addr), b"192.168.1.10:5555".to_vec());
    let addr = SocketAddressV4 { a: 127, b: 0, c: 0, d: 1, port: 5037 };
    assert_eq!(format_address(&addr), b"127.0.0.1:5037".to_vec());
}

#[test]
fn address_parsing_round_trip() {
    let addr = SocketAddressV4 { a: 10, b: 0, c: 254, d: 3, port: 65535 };
    assert_eq!(parse_address(&format_address(&addr)), Some(addr));
    assert_eq!(
        parse_address(b"127.0.0.1:5037"),
        Some(SocketAddressV4 { a: 127, b: 0, c: 0, d: 1, port: 5037 })
    );
}

#[test]
fn address_parsing_rejects_malformed() {
    assert_eq!(parse_address(b"300.1.1.1:1"), None);
    assert_eq!(parse_address(b"1.2.3:555"), None);
    assert_eq!(parse_address(b"1.2.3.4"), None);
    assert_eq!(parse_address(b"1.2.3.4:65536"), None);
    assert_eq!(parse_address(b"1.2.3.4:"), None);
    assert_eq!(parse_address(b"a.b.c.d:1"), None);
    assert_eq!(parse_address(b""), None);
}

#[test]
fn first_address_device_picks_earliest_parseable() {
    let devices = vec![
        DeviceShort { identifier: b"emulator-5554".to_vec(), state: DeviceState::Device },
        DeviceShort { identifier: b"192.168.1.7:5555".to_vec(), state: DeviceState::Device },
        DeviceShort { identifier: b"192.168.1.9:5555".to_vec(), state: DeviceState::Offline },
    ];
    let (idx, addr) = first_address_device(&devices).unwrap();
    assert_eq!(idx, 1);
    assert_eq!(addr, SocketAddressV4 { a: 192, b: 168, c: 1, d: 7, port: 5555 });
    let none = first_address_device(&vec![DeviceShort {
        identifier: b"emulator-5554".to_vec(),
        state: DeviceState::Device,
    }]);
    assert_eq!(none, None);
}

#[test]
fn host_commands_spell_the_wire_words() {
    assert_eq!(host_command(&HostRequest::Version).unwrap(), b"host:version".to_vec());
    assert_eq!(host_command(&HostRequest::Kill).unwrap(), b"host:kill".to_vec());
    assert_eq!(host_command(&HostRequest::Devices).unwrap(), b"host:devices".to_vec());
    assert_eq!(host_command(&HostRequest::DevicesLong).unwrap(), b"host:devices-l".to_vec());
    assert_eq!(
        host_command(&HostRequest::TrackDevices).unwrap(),
        b"host:track-devices".to_vec()
    );
    assert_eq!(host_command(&HostRequest::MdnsCheck).unwrap(), b"host:mdns:check".to_vec());
    assert_eq!(
        host_command(&HostRequest::MdnsServices).unwrap(),
        b"host:mdns:services".to_vec()
    );
    assert_eq!(
        host_command(&HostRequest::ServerStatus).unwrap(),
        b"host:server-status".to_vec()
    );
    let addr = SocketAddressV4 { a: 192, b: 168, c: 1, d: 2, port: 5555 };
    assert_eq!(
        host_command(&HostRequest::Connect(addr)).unwrap(),
        b"host:connect:192.168.1.2:5555".to_vec()
    );
    assert_eq!(
        host_command(&HostRequest::Disconnect(addr)).unwrap(),
        b"host:disconnect:192.168.1.2:5555".to_vec()
    );
    assert_eq!(
        host_command(&HostRequest::Pair(addr, b"123456".to_vec())).unwrap(),
        b"host:pair:123456:192.168.1.2:5555".to_vec()
    );
    assert_eq!(
        host_command(&HostRequest::WaitForDevice(TransportType::Any, WaitForDeviceState::Device))
            .unwrap(),
        b"host:wait-for-any-device".to_vec()
    );
    assert_eq!(
        host_command(&HostRequest::WaitForDevice(
            TransportType::Usb,
            WaitForDeviceState::Bootloader
        ))
        .unwrap(),
        b"host:wait-for-usb-bootloader".to_vec()
    );
}

#[test]
fn pair_code_validated_before_any_io() {
    let addr = SocketAddressV4 { a: 1, b: 2, c: 3, d: 4, port: 1 };
    assert_eq!(
        host_command(&HostRequest::Pair(addr, b"12:34".to_vec())),
        Err(AdbError::InvalidArgument)
    );
    assert_eq!(
        host_command(&HostRequest::Pair(addr, b"".to_vec())),
        Err(AdbError::InvalidArgument)
    );
    assert_eq!(
        framed_request(&HostRequest::Pair(addr, b"letters".to_vec())),
        Err(AdbError::InvalidArgument)
    );
}

#[test]
fn framed_request_prefixes_length() {
    assert_eq!(framed_request(&HostRequest::Version).unwrap(), b"000chost:version".to_vec());
    assert_eq!(framed_request(&HostRequest::Kill).unwrap(), b"0009host:kill".to_vec());
}
