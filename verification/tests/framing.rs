use adb_host::error::AdbError;
use adb_host::framing::{decode_response, encode_request};
use adb_host::hex::{encode_hex4, parse_hex4_at};
use adb_host::reader::{FrameReader, ResponseReader};

#[test]
fn encode_request_frames_command() {
    let framed = encode_request(b"host:version").unwrap();
    assert_eq!(framed, b"000chost:version".to_vec());
}

#[test]
fn encode_request_empty_command() {
    let framed = encode_request(b"").unwrap();
    assert_eq!(framed, b"0000".to_vec());
}

#[test]
fn encode_request_refuses_oversize() {
    let big = vec![0x61u8; 65536];
    assert_eq!(encode_request(&big), Err(AdbError::EncodingError));
    let largest = vec![0x61u8; 65535];
    let framed = encode_request(&largest).unwrap();
    assert_eq!(&framed[0..4], b"ffff");
    assert_eq!(framed.len(), 4 + 65535);
}

#[test]
fn hex_prefix_parses_both_cases() {
    assert_eq!(parse_hex4_at(b"000c", 0), Ok(12));
    assert_eq!(parse_hex4_at(b"00FF", 0), Ok(255));
    assert_eq!(parse_hex4_at(b"ffff", 0), Ok(65535));
    assert_eq!(parse_hex4_at(b"xx0041", 2), Ok(65));
}

#[test]
fn hex_prefix_rejects_non_hex() {
    assert_eq!(parse_hex4_at(b"00zz", 0), Err(AdbError::ProtocolError));
    assert_eq!(parse_hex4_at(b"0 12", 0), Err(AdbError::ProtocolError));
    assert_eq!(parse_hex4_at(b"-123", 0), Err(AdbError::ProtocolError));
}

#[test]
fn hex_encode_round_trip() {
    for n in [0u16, 1, 12, 255, 4096, 65535] {
        let enc = encode_hex4(n);
        assert_eq!(parse_hex4_at(&enc, 0), Ok(n));
    }
    assert_eq!(encode_hex4(12), b"000c".to_vec());
}

#[test]
fn okay_response_round_trip() {
    let r = decode_response(b"OKAY0005hello", true).unwrap();
    assert_eq!(r.0, b"hello".to_vec());
    assert_eq!(r.1, 13);
}

#[test]
fn okay_response_ignores_trailing_bytes() {
    let r = decode_response(b"OKAY0002hi0003abc", true).unwrap();
    assert_eq!(r.0, b"hi".to_vec());
    assert_eq!(r.1, 10);
}

#[test]
fn okay_with_empty_payload() {
    let r = decode_response(b"OKAY0000", true).unwrap();
    assert_eq!(r.0, Vec::<u8>::new());
    assert_eq!(r.1, 8);
}

#[test]
fn payload_may_contain_status_words() {
    let r = decode_response(b"OKAY0008FAILOKAY", true).unwrap();
    assert_eq!(r.0, b"FAILOKAY".to_vec());
    assert_eq!(r.1, 16);
}

#[test]
fn okay_without_payload() {
    let r = decode_response(b"OKAY", false).unwrap();
    assert_eq!(r.0, Vec::<u8>::new());
    assert_eq!(r.1, 4);
}

#[test]
fn unknown_status_is_protocol_error() {
    assert_eq!(decode_response(b"NOPE0000", true), Err(AdbError::ProtocolError));
    assert_eq!(decode_response(b"okay0000", true), Err(AdbError::ProtocolError));
    assert_eq!(decode_response(b"OKAX0000", false), Err(AdbError::ProtocolError));
}

#[test]
fn fail_message_surfaced_verbatim() {
    let r = decode_response(b"FAIL0007message", true);
    assert_eq!(r, Err(AdbError::RemoteError(b"message".to_vec())));
    let r = decode_response(b"FAIL0000", false);
    assert_eq!(r, Err(AdbError::RemoteError(Vec::new())));
}

#[test]
fn connect_rejection_consumes_whole_reply() {
    let reply = b"FAIL000ecannot connect";
    assert_eq!(
        decode_response(reply, true),
        Err(AdbError::RemoteError(b"cannot connect".to_vec()))
    );
    let mut reader = ResponseReader::new(true);
    reader.supply(reply);
    assert_eq!(reader.needed(), 0);
    assert_eq!(
        reader.finish(),
        Err(AdbError::RemoteError(b"cannot connect".to_vec()))
    );
}

#[test]
fn truncated_responses() {
    assert_eq!(decode_response(b"", true), Err(AdbError::ConnectionClosed));
    assert_eq!(decode_response(b"OK", true), Err(AdbError::ProtocolError));
    assert_eq!(decode_response(b"OKAY00", true), Err(AdbError::ConnectionClosed));
    assert_eq!(decode_response(b"OKAY0005he", true), Err(AdbError::ConnectionClosed));
    assert_eq!(decode_response(b"FAIL0007mess", true), Err(AdbError::ConnectionClosed));
}

#[test]
fn length_prefix_with_non_hex_is_protocol_error() {
    assert_eq!(decode_response(b"OKAY00g5hello", true), Err(AdbError::ProtocolError));
    assert_eq!(decode_response(b"FAIL00!0oops", true), Err(AdbError::ProtocolError));
}

#[test]
fn wait_reader_blocks_until_deferred_okay() {
    let mut reader = ResponseReader::new(false);
    assert_eq!(reader.needed(), 4);
    reader.supply(b"OK");
    assert_eq!(reader.needed(), 2);
    reader.supply(b"AY");
    assert_eq!(reader.needed(), 0);
    assert_eq!(reader.finish(), Ok((Vec::new(), 4)));
}

#[test]
fn wait_reader_reports_dropped_connection() {
    let reader = ResponseReader::new(false);
    assert_eq!(reader.finish(), Err(AdbError::ConnectionClosed));
}

#[test]
fn response_reader_assembles_payload_across_reads() {
    let mut reader = ResponseReader::new(true);
    reader.supply(b"OKAY");
    assert_eq!(reader.needed(), 4);
    reader.supply(b"0005");
    assert_eq!(reader.needed(), 5);
    reader.supply(b"hel");
    assert_eq!(reader.needed(), 2);
    reader.supply(b"lo");
    assert_eq!(reader.needed(), 0);
    assert_eq!(reader.finish(), Ok((b"hello".to_vec(), 13)));
}

#[test]
fn track_stream_yields_three_frames_in_order_then_clean_close() {
    let snap1 = b"emulator-5554\tdevice\n";
    let snap2 = b"emulator-5554\toffline\n";
    let snap3 = b"emulator-5554\tdevice\n192.168.1.7:5555\tunauthorized\n";
    let mut stream = Vec::new();
    for snap in [&snap1[..], &snap2[..], &snap3[..]] {
        stream.extend_from_slice(format!("{:04x}", snap.len()).as_bytes());
        stream.extend_from_slice(snap);
    }
    let mut reader = FrameReader::new();
    reader.supply(&stream);
    let mut seen: Vec<Vec<u8>> = Vec::new();
    loop {
        match reader.next_frame().unwrap() {
            Some(frame) => seen.push(frame),
            None => break,
        }
    }
    assert_eq!(seen.len(), 3);
    assert_eq!(seen[0], snap1.to_vec());
    assert_eq!(seen[1], snap2.to_vec());
    assert_eq!(seen[2], snap3.to_vec());
    assert_eq!(reader.close_verdict(), Ok(()));
}

#[test]
fn frame_reader_reports_needed_bytes() {
    let mut reader = FrameReader::new();
    assert_eq!(reader.needed(), 4);
    reader.supply(b"00");
    assert_eq!(reader.needed(), 2);
    reader.supply(b"05");
    assert_eq!(reader.needed(), 5);
    reader.supply(b"hel");
    assert_eq!(reader.needed(), 2);
    reader.supply(b"lo");
    assert_eq!(reader.needed(), 0);
    assert_eq!(reader.next_frame(), Ok(Some(b"hello".to_vec())));
    assert_eq!(reader.needed(), 4);
}

#[test]
fn track_stream_close_mid_frame_is_connection_closed() {
    let mut reader = FrameReader::new();
    reader.supply(b"0015emulator-5554\tdev");
    assert_eq!(reader.next_frame(), Ok(None));
    assert_eq!(reader.close_verdict(), Err(AdbError::ConnectionClosed));
}

#[test]
fn track_stream_bad_prefix_is_protocol_error() {
    let mut reader = FrameReader::new();
    reader.supply(b"00q5whatever");
    assert_eq!(reader.next_frame(), Err(AdbError::ProtocolError));
    assert_eq!(reader.close_verdict(), Err(AdbError::ProtocolError));
}
