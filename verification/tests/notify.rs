use device_notify::notify::notification_line;
use device_notify::notify::nul_terminated_prefix;
use device_notify::notify::show_device_line;
use device_notify::utf8::decode_lossy;

#[test]
fn line_for_dev42_battery_low() {
    let line = notification_line(b"dev-42", b"battery low");
    assert_eq!(line, b"[notify] dev-42: battery low\n".to_vec());
}

#[test]
fn line_for_empty_device_and_ping() {
    let line = notification_line(b"", b"ping");
    assert_eq!(line, b"[notify] : ping\n".to_vec());
}

#[test]
fn identical_calls_give_identical_lines() {
    let first = notification_line(b"sensor-7", b"temperature high");
    let second = notification_line(b"sensor-7", b"temperature high");
    assert_eq!(first, second);
}

#[test]
fn input_buffers_stay_caller_owned() {
    let mut id = b"dev-42".to_vec();
    let mut msg = b"battery low".to_vec();
    let line = notification_line(&id, &msg);
    // the call only borrows the buffers: the caller may refill them
    // afterwards without disturbing the line already built
    for b in id.iter_mut() {
        *b = 0xAA;
    }
    for b in msg.iter_mut() {
        *b = 0xAA;
    }
    assert_eq!(line, b"[notify] dev-42: battery low\n".to_vec());
}

#[test]
fn truncated_sequence_becomes_one_replacement() {
    let line = notification_line(&[0xE0, 0xA0], b"ping");
    let mut expected = b"[notify] ".to_vec();
    expected.extend_from_slice("\u{FFFD}".as_bytes());
    expected.extend_from_slice(b": ping\n");
    assert_eq!(line, expected);
}

#[test]
fn invalid_message_is_marked_not_fatal() {
    let line = notification_line(b"dev-42", &[0x61, 0xFF, 0x62]);
    let mut expected = b"[notify] dev-42: a".to_vec();
    expected.extend_from_slice("\u{FFFD}".as_bytes());
    expected.extend_from_slice(b"b\n");
    assert_eq!(line, expected);
}

#[test]
fn decoder_copies_wellformed_text_verbatim() {
    let samples: Vec<&str> = vec![
        "",
        "plain ascii",
        "h\u{E9}llo w\u{F6}rld",
        "\u{6C49}\u{5B57} text",
        "\u{1F600} ok",
        "\u{FFFD} already replaced",
    ];
    for s in samples {
        assert_eq!(decode_lossy(s.as_bytes()), s.as_bytes().to_vec());
    }
}

#[test]
fn decoder_matches_std_lossy_decoding() {
    let cases: Vec<Vec<u8>> = vec![
        vec![],
        b"hello".to_vec(),
        vec![0x80],
        vec![0xC0, 0x80],
        vec![0xC2],
        vec![0xC2, 0xA9],
        vec![0xE0, 0xA0],
        vec![0xE0, 0x9F, 0x80],
        vec![0xED, 0xA0, 0x80],
        vec![0xE2, 0x82],
        vec![0xE2, 0x82, 0xAC],
        vec![0xF0, 0x9F],
        vec![0xF0, 0x9F, 0x98],
        vec![0xF0, 0x80, 0x80, 0x80],
        vec![0xF4, 0x90, 0x80, 0x80],
        vec![0xF5, 0x41],
        vec![0x61, 0xC2, 0x62],
        vec![0x61, 0xE1, 0x80, 0x62],
        vec![0xFF, 0xFE],
        vec![0x61, 0x00, 0x62],
    ];
    for c in cases {
        let ours = decode_lossy(&c);
        let via_std = String::from_utf8_lossy(&c).into_owned().into_bytes();
        assert_eq!(ours, via_std);
    }
}

#[test]
fn prefix_stops_at_first_zero() {
    assert_eq!(nul_terminated_prefix(b"dev\0tail\0"), Some(b"dev".to_vec()));
}

#[test]
fn prefix_of_immediate_zero_is_empty() {
    assert_eq!(nul_terminated_prefix(b"\0"), Some(Vec::new()));
}

#[test]
fn missing_terminator_is_reported() {
    assert_eq!(nul_terminated_prefix(b"dev"), None);
    assert_eq!(nul_terminated_prefix(b""), None);
}

#[test]
fn bridge_cuts_buffers_and_builds_line() {
    let line = show_device_line(b"dev-42\0junk", b"battery low\0");
    assert_eq!(line, Some(b"[notify] dev-42: battery low\n".to_vec()));
}

#[test]
fn bridge_shows_empty_device_field() {
    let line = show_device_line(b"\0", b"ping\0");
    assert_eq!(line, Some(b"[notify] : ping\n".to_vec()));
}

#[test]
fn bridge_rejects_unterminated_buffer() {
    assert_eq!(show_device_line(b"dev-42", b"ping\0"), None);
    assert_eq!(show_device_line(b"dev-42\0", b"ping"), None);
}

#[test]
fn decoder_output_is_always_wellformed() {
    let cases: Vec<Vec<u8>> = vec![
        vec![0x80, 0x80, 0x80],
        vec![0xC2],
        vec![0xE0, 0xA0, 0xFF],
        vec![0xF0, 0x9F, 0x98],
        vec![0xFE, 0xFF, 0x41],
        vec![0xED, 0xBF, 0xBF],
    ];
    for c in cases {
        let out = decode_lossy(&c);
        assert!(std::str::from_utf8(&out).is_ok());
    }
}
