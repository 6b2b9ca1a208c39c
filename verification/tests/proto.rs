use t2totp::proto::{
    base32_decode, build_apdu, build_select, cmd, decode_ascii_hex, decode_base32_seed,
    enable_totp, erase_all, get_ecdh_pubkey, hex, parse_serial, read_config, read_serial_request,
    serialize_enum_all, sw, u64_be, validate_seed_len, DeviceInfo, OtpError, ParseError,
    FIDO_APPLET_AID, FIDO_USAGE_PAGE, OTP_APPLET_AID, USB_PID, USB_PRODUCT, USB_VID,
};

#[test]
fn read_config_apdu_form() {
    assert_eq!(read_config(64), vec![0x80, 0xC5, 0x02, 0x00, 0x40]);
    assert_eq!(*read_config(0).last().unwrap(), 0x01);
    assert_eq!(*read_config(200).last().unwrap(), 0x40);
    assert_eq!(get_ecdh_pubkey(), vec![0x80, 0xC5, 0x01, 0x00, 0x00]);
}

#[test]
fn extended_apdu_layout() {
    let mut data = vec![cmd::SUB_READ_ALL];
    data.extend_from_slice(&0u64.to_be_bytes());
    let apdu = build_apdu(cmd::ENUM_CODES, &data);
    assert_eq!(
        apdu,
        vec![0x80, 0xC5, 0x05, 0x00, 0x00, 0x00, 0x09, 0x03, 0, 0, 0, 0, 0, 0, 0, 0]
    );
}

#[test]
fn erase_all_is_bodyless_write_seed() {
    assert_eq!(erase_all(), vec![0x80, 0xC5, 0x05, 0x02]);
}

#[test]
fn select_uses_short_lc() {
    assert_eq!(
        build_select(&OTP_APPLET_AID),
        vec![0x00, 0xA4, 0x04, 0x00, 0x08, 0xF0, 0x00, 0x00, 0x01, 0x4F, 0x74, 0x70, 0x01]
    );
}

#[test]
fn status_word_mapping() {
    assert_eq!(OtpError::check(0x9000), Ok(()));
    assert_eq!(OtpError::check(0x6A80), Err(OtpError::EntryNotFound));
    assert_eq!(OtpError::check(0x6A84), Err(OtpError::NotEnoughSpace));
    assert!(OtpError::check(0x6A80).unwrap_err().is_empty_token());
}

#[test]
fn serial_double_decode() {
    let resp = [
        0xD1, 0x0A, b'1', b'2', b'3', b'4', b'5', b'6', b'7', b'8', b'9', b'0',
    ];
    assert_eq!(parse_serial(&resp).unwrap(), vec![0x12, 0x34, 0x56, 0x78, 0x90]);
}

#[test]
fn base32_seed_decodes_hello() {
    assert_eq!(&decode_base32_seed("JBSWY3DP").unwrap().as_slice()[..], b"Hello");
    assert_eq!(&decode_base32_seed("jbswy3dp").unwrap().as_slice()[..], b"Hello");
}

#[test]
fn device_info_short_response() {
    let info = DeviceInfo::parse(&[0x02]).unwrap();
    assert!(!info.fido_disabled());
    assert!(info.hotp_keystroke_disabled());
    assert!(!info.has_config_byte());
    assert!(DeviceInfo::parse(&[]).is_err());
}

#[test]
fn every_status_word_has_its_error() {
    assert_eq!(OtpError::check(sw::ENTRY_NOT_FOUND_ALT), Err(OtpError::EntryNotFound));
    assert_eq!(OtpError::check(sw::HID_NOT_SUPPORTED), Err(OtpError::HidNotSupported));
    assert_eq!(OtpError::check(sw::BUTTON_TIMEOUT), Err(OtpError::ButtonPressRequired));
    assert_eq!(OtpError::check(0x6D00), Err(OtpError::BadStatusCode(0x6D00)));
    assert!(!OtpError::check(0x6A84).unwrap_err().is_empty_token());
}

#[test]
fn otp_error_texts() {
    assert_eq!(OtpError::EntryNotFound.to_string(), "entry not found");
    assert_eq!(OtpError::NotEnoughSpace.to_string(), "not enough space on device");
    assert_eq!(
        OtpError::ButtonPressRequired.to_string(),
        "timed out waiting for a button press on the key"
    );
    assert_eq!(
        OtpError::HidNotSupported.to_string(),
        "HOTP-over-HID is not supported on this model"
    );
    for word in [0u16, 0x6D00, 0x1aBf, 0xFFFF] {
        assert_eq!(
            OtpError::BadStatusCode(word).to_string(),
            format!("unexpected status word {:#06X}", word)
        );
    }
}

#[test]
fn parse_error_texts() {
    assert_eq!(ParseError::Truncated.to_string(), "response truncated mid-record");
    assert_eq!(ParseError::Malformed("x y").to_string(), "malformed response: x y");
    assert_eq!(ParseError::Invalid("z").to_string(), "invalid parameter: z");
}

#[test]
fn identity_constants() {
    assert_eq!(USB_VID, 13470);
    assert_eq!(USB_PID, 0x0022);
    assert_eq!(USB_PRODUCT, "FIDO2 Security Key");
    assert_eq!(FIDO_USAGE_PAGE, 0xF1D0);
    assert_eq!(FIDO_APPLET_AID[..2], [0xA0, 0x00]);
}

#[test]
fn more_apdus() {
    assert_eq!(enable_totp(true), vec![0x80, 0xC5, 0x02, 0x05, 0x00, 0x00, 0x01, 0x01]);
    assert_eq!(enable_totp(false), vec![0x80, 0xC5, 0x02, 0x05, 0x00, 0x00, 0x01, 0x00]);
    let serial = read_serial_request();
    assert_eq!(serial[..9], [0x80, 0x33, 0x00, 0x00, 0x00, 0x00, 0x12, 0xD1, 0x10]);
    assert_eq!(serial.len(), 25);
    assert!(serial[9..].iter().all(|&b| b == 0));
    let long = build_apdu(cmd::WRITE_SEED, &[1u8; 300]);
    assert_eq!(long[..7], [0x80, 0xC5, 0x05, 0x02, 0x00, 0x01, 0x2C]);
    assert_eq!(long.len(), 307);
}

#[test]
fn numbers_are_big_endian() {
    let n = 0x0102_0304_A5F6_0708u64;
    assert_eq!(u64_be(n), n.to_be_bytes().to_vec());
    assert_eq!(serialize_enum_all(1), vec![3, 0, 0, 0, 0, 0, 0, 0, 1]);
}

#[test]
fn apdus_with_other_bodies_differ() {
    assert_ne!(build_apdu(cmd::WRITE_SEED, &[0]), erase_all());
    assert_ne!(build_apdu(cmd::WRITE_SEED, &[0, 0]), build_apdu(cmd::WRITE_SEED, &[0]));
    assert_eq!(build_apdu(cmd::WRITE_SEED, &[]), erase_all());
}

#[test]
fn bad_serials_are_refused() {
    assert_eq!(parse_serial(&[]), Err(ParseError::Truncated));
    assert_eq!(parse_serial(&[0xD1]), Err(ParseError::Truncated));
    assert_eq!(parse_serial(&[0xD2, 0]), Err(ParseError::Truncated));
    assert_eq!(parse_serial(&[0xD1, 2, b'1']), Err(ParseError::Truncated));
    assert_eq!(
        parse_serial(&[0xD1, 1, b'1']),
        Err(ParseError::Malformed("serial hex length is odd"))
    );
    assert_eq!(
        parse_serial(&[0xD1, 2, b'1', b'g']),
        Err(ParseError::Malformed("non-hex char in serial"))
    );
    assert_eq!(parse_serial(&[0xD1, 0, 9, 9]), Ok(vec![]));
}

#[test]
fn serial_round_trips_through_hex() {
    let serial = [0x00, 0x9f, 0xA0, 0x0f, 0xFF];
    let text = hex(&serial);
    assert_eq!(text, "009fa00fff");
    let mut resp = vec![0xD1, text.len() as u8];
    resp.extend_from_slice(text.as_bytes());
    resp.push(0x77);
    assert_eq!(parse_serial(&resp), Ok(serial.to_vec()));
    assert_eq!(decode_ascii_hex(b"aFfA"), Ok(vec![0xAF, 0xFA]));
}

#[test]
fn device_info_full_response() {
    let info = DeviceInfo::parse(&[0x05, 0x5E, 1, 2, 3, 4, 5, 6, 7, 0x13, 0xFF]).unwrap();
    assert!(info.fido_disabled() && !info.hotp_keystroke_disabled() && info.ccid_disabled());
    assert!(info.fido_pin_set() && info.hotp_supported() && info.fingerprint_present());
    assert!(info.nfc_supported() && info.pin_locked());
    assert!(info.totp_supported() && info.fido_21_supported() && info.ccid_supported());
    assert!(info.has_config_byte());
    assert_eq!(info.appearance, [1, 2, 3, 4]);
    assert_eq!(info.fido_version, [5, 6, 7]);
    assert_eq!(info.raw_len, 11);
    let clear = DeviceInfo::parse(&[0, 0xA1]).unwrap();
    assert!(!clear.fido_pin_set() && !clear.hotp_supported() && !clear.fingerprint_present());
    assert!(!clear.nfc_supported() && !clear.pin_locked() && !clear.totp_supported());
    assert!(!clear.fido_21_supported() && !clear.ccid_supported());
    assert_eq!(clear.appearance, [0; 4]);
}

#[test]
fn seed_lengths() {
    assert_eq!(validate_seed_len(1), Ok(()));
    assert_eq!(validate_seed_len(64), Ok(()));
    assert_eq!(validate_seed_len(0), Err("seed is empty after Base32 decode"));
    assert_eq!(validate_seed_len(65), Err("seed exceeds 64 bytes after Base32 decode"));
}

#[test]
fn seed_spelling_does_not_matter() {
    let want = b"Hello world".to_vec();
    for s in [
        "JBSWY3DPEB3W64TMMQ======",
        "JBSWY3DPEB3W64TMMQ",
        "jbsw y3dp eb3w 64tm mq",
        " JbSwY3dPeB3w64TmMq=\t=\n",
    ] {
        assert_eq!(decode_base32_seed(s).unwrap().as_slice(), &want[..]);
    }
}

#[test]
fn bad_seeds_are_refused() {
    assert_eq!(
        decode_base32_seed("").err(),
        Some("seed is empty after Base32 decode")
    );
    assert_eq!(decode_base32_seed("A").err(), Some("seed is empty after Base32 decode"));
    assert_eq!(
        decode_base32_seed("JB1W").err(),
        Some("invalid Base32 character in seed")
    );
    assert_eq!(
        decode_base32_seed("JB=W").err(),
        Some("invalid Base32 character in seed")
    );
    assert_eq!(
        decode_base32_seed("JBé").err(),
        Some("invalid Base32 character in seed")
    );
    assert_eq!(decode_base32_seed(&"A".repeat(103)).unwrap().as_slice().len(), 64);
    assert_eq!(
        decode_base32_seed(&"A".repeat(104)).err(),
        Some("seed exceeds 64 bytes after Base32 decode")
    );
}

#[test]
fn base32_digits_fill_bytes() {
    let digits: Vec<char> = "74".chars().collect();
    assert_eq!(base32_decode(&digits), Ok(vec![0xFF]));
    let digits: Vec<char> = "AAAAAAAB".chars().collect();
    assert_eq!(base32_decode(&digits), Ok(vec![0, 0, 0, 0, 1]));
    let digits: Vec<char> = "AABAGBAFAYDQQ".chars().collect();
    assert_eq!(base32_decode(&digits), Ok(vec![0, 2, 3, 4, 5, 6, 7, 8]));
    assert_eq!(base32_decode(&['a']), Err("invalid Base32 character in seed"));
}
