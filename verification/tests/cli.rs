use t2totp::cli::{
    code_line, deleted_message, entry_line, info_lines, list_lines, parse_add, parse_command,
    parse_globals, readers_lines, secret_from_env, secret_from_stdin, seed_from_secret, tag_issuer,
    touch_prompt, two_args, yes_no, CliError, Command, OpenTarget, ReaderStatus,
};
use t2totp::entry::{serialize_write_entry, Algorithm, Entry, OtpType};
use t2totp::proto::{DeviceInfo, ParseError};
use t2totp::transport::Interface;
use t2totp::AUTO_TAG;

fn args(line: &str) -> Vec<String> {
    line.split(' ').filter(|w| !w.is_empty()).map(|w| w.to_string()).collect()
}

fn usage(m: &str) -> CliError {
    CliError::Usage(m.to_string())
}

fn entry(otp_type: OtpType, app_name: &str, touch: bool, code: Option<&str>) -> Entry {
    Entry {
        otp_type,
        algorithm: Algorithm::Sha1,
        timestep: 30,
        code_length: 6,
        button_required: touch,
        app_name: app_name.to_string(),
        account_name: "bob".to_string(),
        code: code.map(|c| c.to_string()),
    }
}

#[test]
fn global_options() {
    let line = args("--transport usb --debug --reader R1 --transport pcsc list --debug");
    let (g, rest) = parse_globals(&line).unwrap();
    assert_eq!(g.iface, Interface::Nfc);
    assert!(g.debug);
    assert_eq!(g.reader.as_deref(), Some("R1"));
    assert_eq!(rest, &line[7..]);
    let (g, rest) = parse_globals(&[]).unwrap();
    assert_eq!(g.iface, Interface::Auto);
    assert!(!g.debug && g.reader.is_none() && rest.is_empty());
    for (word, iface) in [
        ("auto", Interface::Auto),
        ("hid", Interface::Hid),
        ("usb", Interface::Hid),
        ("nfc", Interface::Nfc),
        ("ccid", Interface::Nfc),
        ("pcsc", Interface::Nfc),
    ] {
        let line = args(&format!("--transport {}", word));
        assert_eq!(parse_globals(&line).unwrap().0.iface, iface);
    }
}

#[test]
fn bad_global_options() {
    assert_eq!(
        parse_globals(&args("--transport")).err(),
        Some(usage("--transport needs a value"))
    );
    assert_eq!(
        parse_globals(&args("--transport ble list")).err(),
        Some(usage("--transport must be auto|hid|nfc, got ble"))
    );
    assert_eq!(
        parse_globals(&args("--debug --reader")).err(),
        Some(usage("--reader needs a PC/SC reader name"))
    );
}

#[test]
fn commands() {
    assert_eq!(parse_command(&[]), Ok(Command::Help));
    for word in ["help", "--help", "-h"] {
        assert_eq!(parse_command(&args(word)), Ok(Command::Help));
    }
    assert_eq!(parse_command(&args("info extra")), Ok(Command::Info));
    assert_eq!(parse_command(&args("readers")), Ok(Command::Readers));
    assert_eq!(parse_command(&args("list")), Ok(Command::List));
    assert_eq!(
        parse_command(&args("code A b")),
        Ok(Command::Code { issuer: "A".to_string(), account: "b".to_string() })
    );
    for word in ["delete", "del", "rm"] {
        assert_eq!(
            parse_command(&args(&format!("{} A b", word))),
            Ok(Command::Delete { issuer: "A".to_string(), account: "b".to_string() })
        );
    }
    assert!(matches!(parse_command(&args("add A b")), Ok(Command::Add(_))));
}

#[test]
fn bad_commands() {
    assert_eq!(parse_command(&args("lst")), Err(usage("unknown command: lst")));
    assert_eq!(parse_command(&args("code A")), Err(usage("code needs <issuer> <account>")));
    assert_eq!(parse_command(&args("rm A b c")), Err(usage("delete needs <issuer> <account>")));
    assert_eq!(
        two_args(&args("A"), "code"),
        Err(usage("code needs <issuer> <account>"))
    );
    assert_eq!(two_args(&args("A b"), "code"), Ok(("A", "b")));
    assert_eq!(
        parse_command(&args("add --nope A b")),
        Err(usage("unknown flag for add: --nope"))
    );
}

#[test]
fn erase_must_be_confirmed() {
    let refused = Err(usage("erase wipes ALL profiles on the key; pass --yes to confirm"));
    assert_eq!(parse_command(&args("erase")), refused);
    assert_eq!(parse_command(&args("erase yes --Yes")), refused);
    assert_eq!(parse_command(&args("erase now --yes")), Ok(Command::Erase));
}

#[test]
fn add_defaults_and_options() {
    let a = parse_add(&args("ACME alice")).unwrap();
    assert_eq!((a.issuer.as_str(), a.account.as_str()), ("ACME", "alice"));
    assert_eq!((a.period, a.digits), (30, 6));
    assert!(!a.auto && !a.sha256 && !a.touch);
    let a = parse_add(&args("--auto ACME --period 60 --sha256 alice --digits 10 --touch --period 1"))
        .unwrap();
    assert_eq!(a.issuer, "ACME[A]");
    assert_eq!((a.period, a.digits), (1, 10));
    assert!(a.auto && a.sha256 && a.touch);
    assert_eq!(a.added_message(), "added TOTP profile ACME[A]:alice  (Auto-OTP [A])");
    assert_eq!(
        parse_add(&args("A b")).unwrap().added_message(),
        "added TOTP profile A:b"
    );
}

#[test]
fn bad_adds() {
    let bad = |line: &str, m: &str| assert_eq!(parse_add(&args(line)), Err(usage(m)));
    bad("A b --period", "--period needs a value");
    bad("A b --period x", "--period must be 1..=65535 seconds");
    bad("A b --period 65536", "--period must be 1..=65535 seconds");
    bad("A b --period 0", "--period must be at least 1 second");
    bad("A b --digits", "--digits needs a value");
    bad("A b --digits 256", "--digits must be 4..=10");
    bad("A b --digits 3", "--digits must be between 4 and 10");
    bad("A b --digits 11", "--digits must be between 4 and 10");
    bad("A b --", "unknown flag for add: --");
    let needs = "add needs <issuer> <account> (and a secret on stdin or $T2TOTP_SECRET)";
    bad("A", needs);
    bad("A b c", needs);
    bad("", needs);
}

#[test]
fn accepted_adds_can_be_written() {
    let a = parse_add(&args("ACME alice --sha256 --period 60 --digits 8 --touch")).unwrap();
    let seed = seed_from_secret("JBSWY3DP").unwrap();
    let w = a.to_entry(seed.as_slice());
    assert_eq!(w.algorithm, Algorithm::Sha256);
    assert_eq!(w.otp_type, OtpType::Totp);
    let ct = serialize_write_entry(&w).unwrap();
    assert_eq!(ct.as_bytes()[..7], [1, 0xC2, 0, 60, 8, 1, 4]);
    assert!(ct.as_bytes().ends_with(b"Hello"));
    let long = parse_add(&args(&format!("{} alice", "x".repeat(65)))).unwrap();
    assert_eq!(
        serialize_write_entry(&long.to_entry(seed.as_slice())).err(),
        Some(ParseError::Invalid("app_name must be ASCII, 0..=64 bytes"))
    );
    assert_eq!(
        parse_add(&args("A b")).unwrap().to_entry(b"s").algorithm,
        Algorithm::Sha1
    );
}

#[test]
fn auto_tag_round_trips() {
    assert_eq!(AUTO_TAG, "[A]");
    assert_eq!(tag_issuer("X", true), "X[A]");
    assert_eq!(tag_issuer("X[A]", true), "X[A]");
    assert_eq!(tag_issuer("[A]X", true), "[A]X");
    assert_eq!(tag_issuer("X", false), "X");
    assert_eq!(tag_issuer("", true), "[A]");
    let a = parse_add(&args("X bob --auto")).unwrap();
    let e = entry(OtpType::Totp, &a.issuer, false, Some("123456"));
    assert!(e.is_auto());
    assert_eq!(entry_line(&e), "  TOTP X[A]:bob (Auto-OTP)  ->  123456");
}

#[test]
fn secrets() {
    assert_eq!(secret_from_env(" ABC \n"), "ABC");
    assert_eq!(secret_from_env(" "), "");
    assert_eq!(secret_from_env(""), "");
    assert_eq!(secret_from_env("ABC"), "ABC");
    assert_eq!(secret_from_env("\u{a0}\u{3000}JBSW é Y3DP\u{2028}"), "JBSW é Y3DP");
    assert_eq!(secret_from_stdin("\tABC\n"), Ok("ABC".to_string()));
    assert_eq!(
        secret_from_stdin(" \n"),
        Err(CliError::Other(
            "no secret provided (pipe it on stdin or set $T2TOTP_SECRET)".to_string()
        ))
    );
    assert_eq!(
        seed_from_secret("A1").err(),
        Some(CliError::Other(
            "invalid Base32 secret: invalid Base32 character in seed".to_string()
        ))
    );
}

#[test]
fn info_output() {
    let info = DeviceInfo::parse(&[0, 0x12, 0, 0, 0, 0, 0, 0, 0, 1]).unwrap();
    assert_eq!(
        info_lines(true, &Some(vec![0xAB, 0x01]), &Ok(info)),
        vec![
            "Token2 FIDO2 key",
            "  transport : NFC / PC-SC",
            "  serial    : ab01",
            "  TOTP      : supported",
            "  NFC       : yes",
            "  FIDO PIN  : yes",
        ]
    );
    let old = DeviceInfo::parse(&[0, 0]).unwrap();
    assert_eq!(
        info_lines(false, &None, &Ok(old)),
        vec![
            "Token2 FIDO2 key",
            "  transport : USB-HID",
            "  serial    : (unavailable on this model/reader)",
            "  TOTP      : NOT supported (first-gen key — HOTP only)",
            "  NFC       : no",
            "  FIDO PIN  : no",
        ]
    );
    let short = DeviceInfo::parse(&[0]).unwrap();
    assert_eq!(
        info_lines(false, &None, &Ok(short))[3],
        "  TOTP      : (device returned a short config block; unknown)"
    );
    let failed = info_lines(false, &None, &Err("gone".to_string()));
    assert_eq!(failed.len(), 4);
    assert_eq!(failed[3], "  device-info unavailable: gone");
    assert_eq!((yes_no(true), yes_no(false)), ("yes", "no"));
}

#[test]
fn readers_output() {
    assert_eq!(readers_lines(&[]), vec!["no PC/SC readers connected"]);
    let readers = [
        ReaderStatus { reader_name: "R 1".to_string(), serial_hex: Some("12ab".to_string()) },
        ReaderStatus { reader_name: "R 2".to_string(), serial_hex: None },
    ];
    assert_eq!(
        readers_lines(&readers),
        vec![
            "PC/SC readers (2):",
            "  [Token2 FIDO] R 1  serial=12ab",
            "  [other/empty] R 2",
        ]
    );
}

#[test]
fn list_output() {
    assert_eq!(list_lines(&[]), vec!["no profiles stored on the key"]);
    let entries = [
        entry(OtpType::Totp, "A", false, Some("123456")),
        entry(OtpType::Hotp, "", false, None),
        entry(OtpType::Totp, "B[A]", true, None),
    ];
    assert_eq!(
        list_lines(&entries),
        vec![
            "3 profile(s):",
            "  TOTP A:bob  ->  123456",
            "  HOTP bob  ->  (touch key to view)",
            "  TOTP B[A]:bob (Auto-OTP) [touch]  ->  (touch key to view)",
        ]
    );
    let twelve: Vec<Entry> = (0..12).map(|_| entry(OtpType::Totp, "A", false, None)).collect();
    assert_eq!(list_lines(&twelve)[0], "12 profile(s):");
}

#[test]
fn code_and_delete_output() {
    assert_eq!(
        code_line(entry(OtpType::Totp, "A", false, Some("1"))),
        Ok("1".to_string())
    );
    assert_eq!(
        code_line(entry(OtpType::Totp, "A", true, None)),
        Err(CliError::Other("the key returned no code for that profile".to_string()))
    );
    assert_eq!(deleted_message("A", "b"), "deleted profile A:b");
}

#[test]
fn reader_name_pins_the_key() {
    let line = args("--transport hid --reader R1 list");
    let (g, _) = parse_globals(&line).unwrap();
    assert_eq!(g.target(), OpenTarget::Reader("R1".to_string()));
    let line = args("--transport hid list");
    let (g, _) = parse_globals(&line).unwrap();
    assert_eq!(g.target(), OpenTarget::Interface(Interface::Hid));
}

#[test]
fn touch_prompts() {
    let code = Command::Code { issuer: "A".to_string(), account: "b".to_string() };
    assert_eq!(touch_prompt(&code, false), Some("touch your key to release the code..."));
    assert_eq!(touch_prompt(&code, true), None);
    assert_eq!(
        touch_prompt(&Command::Erase, false),
        Some("touch your key to confirm the erase...")
    );
    assert_eq!(touch_prompt(&Command::List, false), None);
}
