use t2totp::entry::{
    label_of, parse_enum_page, parse_read_one, serialize_delete_entry, serialize_read_entry,
    serialize_write_entry, validate_common, Algorithm, OtpType, WriteEntry,
};
use t2totp::hidframe::{build_send_frames, ResponseAssembler};
use t2totp::proto::ParseError;

#[test]
fn parse_single_totp_page() {
    let mut payload = vec![0x01, 0xC1, 0x00, 0x1E, 0x06, 0x00, 0x04];
    payload.extend_from_slice(b"Test");
    payload.push(0x05);
    payload.extend_from_slice(b"alice");
    payload.push(0x06);
    payload.extend_from_slice(b"123456");

    let page = parse_enum_page(&payload).unwrap();
    assert!(!page.more_pages);
    assert_eq!(page.entries.len(), 1);
    let e = &page.entries[0];
    assert_eq!(e.otp_type, OtpType::Totp);
    assert_eq!(e.app_name, "Test");
    assert_eq!(e.account_name, "alice");
    assert_eq!(e.code.as_deref(), Some("123456"));
}

#[test]
fn hotp_entry_has_no_code_tail() {
    let mut payload = vec![0x00, 0xC1, 0x00, 0x00, 0x00, 0x00, 0x01];
    payload.extend_from_slice(b"a");
    payload.push(0x01);
    payload.extend_from_slice(b"x");
    payload.extend_from_slice(&[0x01, 0xC1, 0x00, 0x1E, 0x06, 0x00, 0x01]);
    payload.extend_from_slice(b"b");
    payload.push(0x01);
    payload.extend_from_slice(b"y");
    payload.push(0x06);
    payload.extend_from_slice(b"999999");

    let page = parse_enum_page(&payload).unwrap();
    assert_eq!(page.entries.len(), 2);
    assert_eq!(page.entries[0].otp_type, OtpType::Hotp);
    assert_eq!(page.entries[0].code, None);
    assert_eq!(page.entries[1].code.as_deref(), Some("999999"));
}

#[test]
fn button_required_totp_has_no_code_tail() {
    let mut payload = vec![0x01, 0xC1, 0x00, 0x1E, 0x06, 0x01, 0x01];
    payload.extend_from_slice(b"b");
    payload.push(0x01);
    payload.extend_from_slice(b"y");
    let page = parse_enum_page(&payload).unwrap();
    assert!(page.entries[0].button_required);
    assert_eq!(page.entries[0].code, None);
}

#[test]
fn write_entry_cleartext() {
    let we = WriteEntry {
        otp_type: OtpType::Totp,
        algorithm: Algorithm::Sha1,
        timestep: 30,
        code_length: 6,
        button_required: false,
        app_name: "Test",
        account_name: "alice",
        seed: b"Hello",
    };
    let ct = serialize_write_entry(&we).unwrap();
    let mut want = vec![0x01, 0xC1, 0x00, 0x1E, 0x06, 0x00, 0x04];
    want.extend_from_slice(b"Test");
    want.push(0x05);
    want.extend_from_slice(b"alice");
    want.push(0x05);
    want.extend_from_slice(b"Hello");
    assert_eq!(ct.as_bytes(), want.as_slice());
}

#[test]
fn truncated_record_is_error_not_panic() {
    let payload = vec![0x01, 0xC1, 0x00, 0x1E, 0x06, 0x00, 0x04, b'T', b'e'];
    assert_eq!(parse_enum_page(&payload), Err(ParseError::Truncated));
}

fn sample<'a>(app_name: &'a str, account_name: &'a str, seed: &'a [u8]) -> WriteEntry<'a> {
    WriteEntry {
        otp_type: OtpType::Totp,
        algorithm: Algorithm::Sha256,
        timestep: 0x1234,
        code_length: 10,
        button_required: true,
        app_name,
        account_name,
        seed,
    }
}

#[test]
fn bytes_of_types_and_algorithms() {
    for t in [OtpType::Hotp, OtpType::Totp] {
        assert_eq!(OtpType::from_byte(t.to_byte()), Some(t));
    }
    for a in [Algorithm::Sha1, Algorithm::Sha256] {
        assert_eq!(Algorithm::from_byte(a.to_byte()), Some(a));
    }
    assert_eq!(OtpType::Totp.to_byte(), 1);
    assert_eq!(Algorithm::Sha256.to_byte(), 0xC2);
    assert_eq!(OtpType::from_byte(2), None);
    assert_eq!(Algorithm::from_byte(0), None);
    assert_eq!(OtpType::Hotp.as_str(), "HOTP");
    assert_eq!(OtpType::Totp.as_str(), "TOTP");
    assert_eq!(Algorithm::Sha1.as_str(), "SHA1");
    assert_eq!(Algorithm::Sha256.as_str(), "SHA256");
}

#[test]
fn parameters_are_checked_in_order() {
    let bad = |m| Err(ParseError::Invalid(m));
    let long = "x".repeat(65);
    assert_eq!(
        validate_common(0, 3, &long, "", true),
        bad("timestep must be 1..=0xFFFF for TOTP")
    );
    assert_eq!(validate_common(0, 3, &long, "", false), bad("code_length must be 4..=10"));
    assert_eq!(validate_common(1, 11, &long, "", true), bad("code_length must be 4..=10"));
    let app = bad("app_name must be ASCII, 0..=64 bytes");
    assert_eq!(validate_common(1, 4, &long, "", true), app);
    assert_eq!(validate_common(1, 4, "é", "", true), app);
    let account = bad("account_name must be ASCII, 1..=64 bytes");
    assert_eq!(validate_common(1, 4, "", "", true), account);
    assert_eq!(validate_common(1, 4, "", "ü", true), account);
    assert_eq!(validate_common(1, 4, "", &long, true), account);
    assert_eq!(validate_common(1, 10, &"x".repeat(64), &"y".repeat(64), true), Ok(()));
}

#[test]
fn seeds_are_checked_before_writing() {
    let bad = Some(ParseError::Invalid("seed must be 1..=64 bytes (decoded)"));
    assert_eq!(serialize_write_entry(&sample("", "a", &[])).err(), bad);
    assert_eq!(serialize_write_entry(&sample("", "a", &[0; 65])).err(), bad);
    let ct = serialize_write_entry(&sample("", "a", &[9; 64])).unwrap();
    assert_eq!(
        ct.as_bytes()[..10],
        [0x01, 0xC2, 0x12, 0x34, 10, 1, 0, 1, b'a', 64]
    );
    assert_eq!(
        serialize_write_entry(&sample("", "", &[1])).err(),
        Some(ParseError::Invalid("account_name must be ASCII, 1..=64 bytes"))
    );
}

#[test]
fn delete_and_read_payloads() {
    let del = serialize_delete_entry("Te", "al").unwrap();
    assert_eq!(del.as_bytes(), [0, 0, 0, 0, 0, 0, 2, b'T', b'e', 2, b'a', b'l', 0]);
    assert_eq!(
        serialize_read_entry(0x0102, "Te", "al").unwrap(),
        vec![1, 0, 0, 0, 0, 0, 0, 1, 2, 2, b'T', b'e', 2, b'a', b'l']
    );
    let account = ParseError::Invalid("account_name must be ASCII, 1..=64 bytes");
    let app = ParseError::Invalid("app_name must be ASCII, 0..=64 bytes");
    assert_eq!(serialize_delete_entry("T", "").err(), Some(account.clone()));
    assert_eq!(serialize_delete_entry("é", "a").err(), Some(app.clone()));
    assert_eq!(serialize_read_entry(0, "T", ""), Err(account));
    assert_eq!(serialize_read_entry(0, "é", "a"), Err(app));
}

#[test]
fn payloads_say_one_thing_only() {
    let a = serialize_write_entry(&sample("ab", "c", b"s")).unwrap();
    let b = serialize_write_entry(&sample("a", "bc", b"s")).unwrap();
    assert_ne!(a.as_bytes(), b.as_bytes());
    let c = serialize_delete_entry("ab", "c").unwrap();
    let d = serialize_delete_entry("a", "bc").unwrap();
    assert_ne!(c.as_bytes(), d.as_bytes());
    assert_ne!(a.as_bytes(), c.as_bytes());
    assert_ne!(
        serialize_read_entry(1, "ab", "c").unwrap(),
        serialize_read_entry(1, "a", "bc").unwrap()
    );
}

#[test]
fn marked_page_with_two_entries_is_read_whole() {
    let mut page = vec![0x81, 0xC2, 0x00, 0x3C, 0x08, 0x00, 0x00, 0x01, b'z', 0x02, b'4', b'2'];
    page.extend_from_slice(&[0x00, 0xC1, 0x00, 0x00, 0x06, 0x01, 0x01, b'q', 0x01, b'w']);
    let parsed = parse_enum_page(&page).unwrap();
    assert!(parsed.more_pages);
    assert_eq!(parsed.entries.len(), 2);
    let e = &parsed.entries[0];
    assert_eq!(e.timestep, 60);
    assert_eq!(e.code_length, 8);
    assert_eq!(e.algorithm, Algorithm::Sha256);
    assert_eq!(e.code.as_deref(), Some("42"));
    assert_eq!(e.label(), "z");
    assert!(!e.is_auto());
    let f = &parsed.entries[1];
    assert_eq!(f.otp_type, OtpType::Hotp);
    assert!(f.button_required && f.code.is_none());
    assert_eq!(f.label(), "q:w");
}

#[test]
fn read_one_always_has_a_code() {
    let data = [0x00, 0xC1, 0, 0, 6, 1, 3, b'[', b'A', b']', 1, b'x', 2, b'0', b'7', 0xEE];
    let e = parse_read_one(&data).unwrap();
    assert_eq!(e.code.as_deref(), Some("07"));
    assert!(e.is_auto());
    assert_eq!(parse_read_one(&data[..13]), Err(ParseError::Truncated));
}

#[test]
fn malformed_entries_are_refused() {
    let bad = |m| Err(ParseError::Malformed(m));
    assert_eq!(parse_enum_page(&[]), Err(ParseError::Truncated));
    assert_eq!(parse_enum_page(&[0x02]), bad("unknown OTP type byte"));
    assert_eq!(parse_enum_page(&[0x01]), Err(ParseError::Truncated));
    assert_eq!(parse_enum_page(&[0x01, 0xC3]), bad("unknown algorithm byte"));
    assert_eq!(parse_enum_page(&[0x01, 0xC1, 0, 30, 6]), Err(ParseError::Truncated));
    assert_eq!(parse_enum_page(&[0x01, 0xC1, 0, 30, 6, 2]), bad("button flag not 0/1"));
    assert_eq!(
        parse_enum_page(&[0x01, 0xC1, 0, 30, 6, 1, 0, 0]),
        bad("account_name length is zero")
    );
    assert_eq!(
        parse_enum_page(&[0x01, 0xC1, 0, 30, 6, 1, 1, 0x80, 1, b'a']),
        bad("non-ASCII text field")
    );
    assert_eq!(parse_enum_page(&[0x01, 0xC1, 0, 30, 6, 0, 0, 1, b'a']), Err(ParseError::Truncated));
}

#[test]
fn labels() {
    assert_eq!(label_of("", "bob"), "bob");
    assert_eq!(label_of("ACME", "bob"), "ACME:bob");
}

#[test]
fn page_comes_through_hid_frames() {
    let mut page = vec![0x81, 0xC1, 0x00, 0x1E, 0x06, 0x00, 0x40];
    page.extend_from_slice(&[b'i'; 64]);
    page.push(0x40);
    page.extend_from_slice(&[b'a'; 64]);
    page.extend_from_slice(&[0x06, b'1', b'2', b'3', b'4', b'5', b'6']);
    let mut response = page.clone();
    response.extend_from_slice(&[0x90, 0x00]);
    let mut assembler = ResponseAssembler::new();
    for frame in build_send_frames(&response) {
        assert!(assembler.push(&frame).is_ok());
    }
    let (data, sw) = assembler.into_response().unwrap();
    assert_eq!(sw, 0x9000);
    let parsed = parse_enum_page(&data).unwrap();
    assert!(parsed.more_pages);
    assert_eq!(parsed.entries[0].app_name, "i".repeat(64));
    assert_eq!(parsed.entries[0].code.as_deref(), Some("123456"));
}
