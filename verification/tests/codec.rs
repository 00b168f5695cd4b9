use tgbot::server::transport::{Codec, Command};
use tgbot::server::Error;

fn encode(sequence: u32, data: Vec<u32>) -> Vec<u8> {
    let mut out = Vec::new();
    Codec.encode(&Command { data, sequence }, &mut out);
    out
}

#[test]
fn encode_matches_wire_format() {
    assert_eq!(
        encode(7, vec![10, 11]),
        b"{\"sequence\":7,\"data\":[10,11]}".to_vec()
    );
    assert_eq!(encode(0, vec![]), b"{\"sequence\":0,\"data\":[]}".to_vec());
    assert_eq!(
        encode(u32::MAX, vec![4294967295]),
        b"{\"sequence\":4294967295,\"data\":[4294967295]}".to_vec()
    );
}

#[test]
fn encode_then_decode_round_trips() {
    for (sequence, data) in [
        (1u32, vec![]),
        (7, vec![10u32, 11]),
        (42, vec![0]),
        (u32::MAX, vec![0, 1, u32::MAX]),
        (305419896, vec![9, 99, 999, 9999]),
    ] {
        let bytes = encode(sequence, data.clone());
        let back = Codec.decode_command(&bytes).expect("frame must decode");
        assert_eq!(back.sequence, sequence);
        assert_eq!(back.data, data);
    }
}

#[test]
fn decode_command_rejects_mangled_frames() {
    assert!(Codec.decode_command(&b"".to_vec()).is_none());
    assert!(Codec.decode_command(&b"{\"sequence\":7}".to_vec()).is_none());
    assert!(Codec.decode_command(&b"{\"sequence\":07,\"data\":[]}".to_vec()).is_none());
    assert!(Codec.decode_command(&b"{\"sequence\":7,\"data\":[1,]}".to_vec()).is_none());
    assert!(Codec.decode_command(&b"{\"sequence\":4294967296,\"data\":[]}".to_vec()).is_none());
    assert!(Codec.decode_command(&b"{\"sequence\":7,\"data\":[1]} ".to_vec()).is_none());
}

#[test]
fn decode_status_reads_acknowledgement() {
    let r = Codec.decode(&b"{\"last_command_sequence_number\":42}".to_vec());
    let status = r.unwrap().unwrap();
    assert_eq!(status.last_command_sequence_number, 42);
}

#[test]
fn decode_status_empty_datagram_is_no_frame() {
    assert!(matches!(Codec.decode(&Vec::new()), Ok(None)));
}

#[test]
fn decode_status_ignores_extra_fields() {
    let r = Codec.decode(&b"{\"last_command_sequence_number\":7,\"uptime\":123}".to_vec());
    assert_eq!(r.unwrap().unwrap().last_command_sequence_number, 7);
}

#[test]
fn decode_status_failure_is_json_error() {
    for bad in [
        &b"not json"[..],
        b"{\"last_command_sequence_number\":}",
        b"{\"last_command_sequence_number\":-1}",
        b"{\"last_command_sequence_number\":4294967296}",
        b"{\"other\":1}",
        b"[7]",
        b"{\"last_command_sequence_number\":07}",
        b"{\"last_command_sequence_number\":7.5}",
        b"{\"last_command_sequence_number\":7e2}",
        b"{\"last_command_sequence_number\":\"7\"}",
        b"{\"last_command_sequence_number\":7,}",
        b"{\"last_command_sequence_number\":7",
        b"{\"last_command_sequence_number\":7}}",
        b"{\"last_command_sequence_number\":7 \"x\":1}",
        b"{\"last_command_sequence_number\":7,\"last_command_sequence_number\":8}",
        b"{\"a\":\"unterminated,\"last_command_sequence_number\":7}",
        b"{\"a\":\"bad escape \\q\",\"last_command_sequence_number\":7}",
        b"{\"a\":{,},\"last_command_sequence_number\":7}",
        b"{,}",
        b"{}",
        b"{ }",
    ] {
        let r = Codec.decode(&bad.to_vec());
        assert!(matches!(r, Err(Error::JsonError(_))), "input {:?}", bad);
    }
}

#[test]
fn decode_status_allows_whitespace() {
    let r = Codec.decode(&b"  { \"last_command_sequence_number\" :\t7 }\n".to_vec());
    assert_eq!(r.unwrap().unwrap().last_command_sequence_number, 7);
}

#[test]
fn decode_status_accepts_any_field_order() {
    let r = Codec.decode(&b"{\"uptime\":1,\"last_command_sequence_number\":7}".to_vec());
    assert_eq!(r.unwrap().unwrap().last_command_sequence_number, 7);
}

#[test]
fn decode_status_skips_structured_fields() {
    let frame =
        b"{\"a\":\"x,}\",\"b\":[1,{\"c\":null},true],\"last_command_sequence_number\":9,\"d\":-1.5e3}";
    let r = Codec.decode(&frame.to_vec());
    assert_eq!(r.unwrap().unwrap().last_command_sequence_number, 9);
}

#[test]
fn decode_status_skips_escaped_strings() {
    let frame = b"{\"a\":\"q\\\"x\\u0041\\n\",\"last_command_sequence_number\":3}";
    let r = Codec.decode(&frame.to_vec());
    assert_eq!(r.unwrap().unwrap().last_command_sequence_number, 3);
}

#[test]
fn decode_status_boundary_values() {
    let r = Codec.decode(&b"{\"last_command_sequence_number\":0}".to_vec());
    assert_eq!(r.unwrap().unwrap().last_command_sequence_number, 0);
    let r = Codec.decode(&b"{\"last_command_sequence_number\":4294967295}".to_vec());
    assert_eq!(r.unwrap().unwrap().last_command_sequence_number, u32::MAX);
}
