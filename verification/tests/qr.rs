use t2totp::qr::{
    apply_label, apply_param, decode_grid, decode_screen, hex_val, parse_otpauth, percent_decode,
    percent_decode_bytes, pick_totp, scan_screens, Algo, GridBits, ScannedTotp,
};

/// A picture of a QR code with four cells of white around it, three pixels to a
/// cell, as a PNG file.
const PICTURE: [u8; 489] = [
    0x89, 0x50, 0x4E, 0x47, 0x0D, 0x0A, 0x1A, 0x0A, 0x00, 0x00, 0x00, 0x0D, 0x49, 0x48, 0x44, 0x52,
    0x00, 0x00, 0x00, 0x87, 0x00, 0x00, 0x00, 0x87, 0x01, 0x00, 0x00, 0x00, 0x00, 0x14, 0x9C, 0x77,
    0xA7, 0x00, 0x00, 0x01, 0xB0, 0x49, 0x44, 0x41, 0x54, 0x78, 0xDA, 0xDD, 0x96, 0x3D, 0x8E, 0xEB,
    0x20, 0x14, 0x85, 0x6F, 0x44, 0x41, 0xE7, 0x6C, 0xC0, 0x12, 0xDB, 0xA0, 0x63, 0x4B, 0xF6, 0x06,
    0x8C, 0x67, 0x03, 0xF1, 0x96, 0xE8, 0xBC, 0x0D, 0x24, 0x36, 0x00, 0x1D, 0x05, 0xE2, 0xCE, 0x21,
    0x99, 0xBC, 0x27, 0x4D, 0xE3, 0x9B, 0x76, 0x2C, 0x14, 0x39, 0x5F, 0xA4, 0xC3, 0xFD, 0x3D, 0x0A,
    0xF1, 0xAF, 0xA7, 0xD3, 0x1F, 0x21, 0x99, 0x68, 0x73, 0xE6, 0x81, 0x9F, 0x42, 0x23, 0x32, 0x42,
    0x52, 0xB8, 0xF9, 0x40, 0xB7, 0x60, 0x8E, 0x3A, 0x7B, 0x16, 0x93, 0x30, 0x2F, 0x7A, 0x5E, 0x2B,
    0x7F, 0x31, 0x5E, 0x3E, 0x20, 0x1B, 0x41, 0x2A, 0xDE, 0x43, 0xFB, 0x88, 0xF8, 0x93, 0x8F, 0x8A,
    0x1C, 0x3F, 0x21, 0xDC, 0x36, 0xC7, 0x5F, 0xB5, 0x4D, 0x50, 0x63, 0x29, 0x41, 0x7D, 0xD6, 0x73,
    0x7E, 0x9D, 0x7F, 0x15, 0xBB, 0x24, 0x78, 0xB2, 0xA6, 0xC5, 0xD2, 0x46, 0xFF, 0xBB, 0x73, 0x49,
    0xF0, 0xF5, 0x16, 0xE2, 0x62, 0xCD, 0xEE, 0x08, 0xC1, 0x0B, 0x49, 0x1F, 0x37, 0xB6, 0x95, 0x67,
    0xB2, 0x8A, 0x9F, 0x31, 0x8B, 0x88, 0xA3, 0x15, 0xB7, 0x9E, 0x48, 0x33, 0xA2, 0x8F, 0x62, 0xC2,
    0x47, 0x88, 0x13, 0x45, 0xA4, 0x59, 0x9E, 0x31, 0x4B, 0x48, 0x76, 0x71, 0x71, 0x44, 0x8E, 0xA6,
    0xD1, 0x7D, 0x23, 0x25, 0x1A, 0x3A, 0x98, 0x13, 0xF2, 0x4C, 0x9B, 0x96, 0x12, 0xAE, 0x74, 0xAB,
    0xF3, 0xCA, 0xB4, 0x38, 0x0C, 0x8C, 0x94, 0x74, 0xAD, 0x76, 0x9C, 0x11, 0x00, 0x3F, 0x1C, 0x0B,
    0x09, 0x8F, 0x7A, 0x42, 0xC4, 0x74, 0x37, 0x8F, 0x4F, 0x19, 0x29, 0xAC, 0x1E, 0x36, 0x15, 0x4E,
    0x59, 0x63, 0xB0, 0xA5, 0x24, 0x5B, 0x54, 0x46, 0x95, 0xD3, 0x30, 0xB7, 0x5B, 0x95, 0x92, 0x52,
    0xD5, 0x11, 0x52, 0xB6, 0x69, 0xB7, 0x71, 0xB2, 0x2C, 0x26, 0x58, 0x99, 0x94, 0x1D, 0x04, 0x51,
    0x25, 0x23, 0x24, 0x98, 0xB1, 0xDD, 0x45, 0x5F, 0x91, 0x2C, 0x56, 0x4F, 0x4A, 0x10, 0xF3, 0xF0,
    0x04, 0x1E, 0x67, 0xB2, 0x52, 0x82, 0x98, 0x99, 0x55, 0xA6, 0xD4, 0x49, 0xE5, 0x77, 0x16, 0x97,
    0xA4, 0xEB, 0x76, 0x3F, 0xD3, 0x78, 0xB1, 0xE4, 0xAB, 0x11, 0x12, 0x0E, 0xE9, 0x38, 0x13, 0x07,
    0x95, 0xB5, 0x3A, 0x4E, 0x29, 0x29, 0x1C, 0xFD, 0x58, 0x6B, 0x03, 0xC1, 0xC5, 0x4A, 0x49, 0x77,
    0x06, 0x66, 0x42, 0x14, 0xE1, 0x78, 0x77, 0x96, 0x12, 0xF4, 0x62, 0xAD, 0x69, 0xF8, 0x09, 0x86,
    0xF3, 0xDD, 0xC1, 0x4B, 0xF2, 0xF4, 0x1F, 0x88, 0x40, 0xCD, 0x94, 0x6A, 0x84, 0x64, 0x78, 0x1D,
    0x16, 0x47, 0x37, 0x8F, 0x0D, 0x0A, 0x52, 0x02, 0x5F, 0x5D, 0x48, 0x75, 0x9D, 0x76, 0x07, 0x1D,
    0x96, 0x92, 0xB1, 0xDA, 0xEA, 0xE5, 0x93, 0x3F, 0xF3, 0x2C, 0x23, 0x7E, 0xAC, 0x40, 0xC4, 0xD5,
    0x25, 0x7C, 0x40, 0x46, 0xC0, 0xE7, 0xF0, 0xFF, 0xDD, 0x8A, 0x09, 0xC3, 0x54, 0x69, 0x72, 0xA9,
    0xEB, 0xF9, 0xFE, 0xCE, 0xE2, 0x92, 0xA0, 0x3E, 0xC8, 0x74, 0xD4, 0xD3, 0xA9, 0x97, 0x8E, 0x84,
    0xFC, 0xCD, 0x7F, 0x29, 0xDF, 0xC9, 0xF4, 0xC5, 0x5A, 0x16, 0x97, 0x3B, 0x54, 0x00, 0x00, 0x00,
    0x00, 0x49, 0x45, 0x4E, 0x44, 0xAE, 0x42, 0x60, 0x82,
];

/// The cells of the QR code in the picture.
const TOTP_CODE: [&str; 37] = [
    "1111111001001001011100000011001111111",
    "1000001000111111101110010001101000001",
    "1011101011101010100100011000101011101",
    "1011101001110010001101110011001011101",
    "1011101000100001000100000111001011101",
    "1000001001000001100100110111001000001",
    "1111111010101010101010101010101111111",
    "0000000011101110110111100111000000000",
    "1110111110110110110110011100111000100",
    "0111100001110010100010111101110000001",
    "0100111010000000001000100000011110111",
    "0100000100110111011101111111100010000",
    "1100011011001111110011110110101010011",
    "1110000100111010111011100000111001101",
    "0001111110011010100011101100011100111",
    "0110110111101101110011111100000101000",
    "0000101111011110110010000100101011001",
    "1000110101010100100001001110101001111",
    "1101111101101100101010000000001110011",
    "1001110100110100110101011101011101010",
    "1001001011100100110000001101101010001",
    "0111100111000110000111101100101000101",
    "1101111011101010100010101000101101011",
    "1001110000001100111101000111110011010",
    "0110001100100100011100000101111000011",
    "0011010100100100001111001110110100101",
    "1000011000000000000010000110001011011",
    "0100100011111111111101100111001100001",
    "1001001010010100000000001100111111010",
    "0000000011100110011110001111100010011",
    "1111111010001110111000100001101010111",
    "1000001011111100011001011100100010010",
    "1011101011101100000000001110111110011",
    "1011101000101000000001101011100010111",
    "1011101011100010001000100100000111011",
    "1000001010001111010001000110101100010",
    "1111111011111100100110000100110111011",
];

/// The cells of a QR code that says "rqrr".
const OTHER_CODE: [&str; 21] = [
    "111111100010001111111",
    "100000101110001000001",
    "101110100101101011101",
    "101110100000101011101",
    "101110101101101011101",
    "100000100111001000001",
    "111111101010101111111",
    "000000000010000000000",
    "101010100000100010010",
    "100110000001010101001",
    "010110110111011101111",
    "110001001111110110011",
    "001011101001011101001",
    "000000001110001001001",
    "111111100110100010011",
    "100000100110001000010",
    "101110101000101011011",
    "101110100101010101010",
    "101110101101011100001",
    "100000100011110111010",
    "111111101001011100111",
];

/// Three gray pixels side by side, as a PNG file.
const GRAY_FILE: [u8; 69] = [
    0x89, 0x50, 0x4E, 0x47, 0x0D, 0x0A, 0x1A, 0x0A, 0x00, 0x00, 0x00, 0x0D, 0x49, 0x48, 0x44, 0x52,
    0x00, 0x00, 0x00, 0x03, 0x00, 0x00, 0x00, 0x01, 0x08, 0x00, 0x00, 0x00, 0x00, 0x3E, 0x8B, 0x4B,
    0x68, 0x00, 0x00, 0x00, 0x0C, 0x49, 0x44, 0x41, 0x54, 0x78, 0xDA, 0x63, 0x60, 0x68, 0xF8, 0x0F,
    0x00, 0x02, 0x03, 0x01, 0x80, 0x1A, 0x9C, 0x26, 0x3B, 0x00, 0x00, 0x00, 0x00, 0x49, 0x45, 0x4E,
    0x44, 0xAE, 0x42, 0x60, 0x82,
];

/// A red pixel above a white one, as a PNG file.
const COLOUR_FILE: [u8; 73] = [
    0x89, 0x50, 0x4E, 0x47, 0x0D, 0x0A, 0x1A, 0x0A, 0x00, 0x00, 0x00, 0x0D, 0x49, 0x48, 0x44, 0x52,
    0x00, 0x00, 0x00, 0x01, 0x00, 0x00, 0x00, 0x02, 0x08, 0x02, 0x00, 0x00, 0x00, 0x16, 0xE3, 0x21,
    0x70, 0x00, 0x00, 0x00, 0x10, 0x49, 0x44, 0x41, 0x54, 0x78, 0xDA, 0x63, 0xF8, 0xCF, 0xC0, 0xC0,
    0xF0, 0xFF, 0xFF, 0x7F, 0x00, 0x0C, 0xFB, 0x03, 0xFD, 0x89, 0xCB, 0xE4, 0xA4, 0x00, 0x00, 0x00,
    0x00, 0x49, 0x45, 0x4E, 0x44, 0xAE, 0x42, 0x60, 0x82,
];

fn cells(rows: &[&str]) -> GridBits {
    let bits = rows.iter().flat_map(|r| r.chars().map(|c| c == '1')).collect();
    GridBits { size: rows.len(), bits }
}

/// A PNG file made of these chunks, each with its length and check sum.
fn png(chunks: &[(&[u8; 4], &[u8])]) -> Vec<u8> {
    let mut file = vec![0x89, 0x50, 0x4E, 0x47, 0x0D, 0x0A, 0x1A, 0x0A];
    for (kind, data) in chunks {
        file.extend_from_slice(&(data.len() as u32).to_be_bytes());
        let mut sum = 0xFFFF_FFFFu32;
        for b in kind.iter().chain(data.iter()) {
            sum ^= *b as u32;
            for _ in 0..8 {
                sum = if sum & 1 == 1 { (sum >> 1) ^ 0xEDB8_8320 } else { sum >> 1 };
            }
            file.push(*b);
        }
        file.extend_from_slice(&(!sum).to_be_bytes());
    }
    file
}

/// Two pixels side by side that are the first two entries of a palette.
const INDEXED_HEADER: [u8; 13] = [0, 0, 0, 2, 0, 0, 0, 1, 8, 3, 0, 0, 0];
const INDEXED_DATA: [u8; 14] =
    [0x78, 0x01, 0x01, 0x03, 0x00, 0xFC, 0xFF, 0x00, 0x00, 0x01, 0x00, 0x04, 0x00, 0x02];

/// One white pixel that needs no palette.
const RGB_HEADER: [u8; 13] = [0, 0, 0, 1, 0, 0, 0, 1, 8, 2, 0, 0, 0];
const RGB_DATA: [u8; 15] =
    [0x78, 0x01, 0x01, 0x04, 0x00, 0xFB, 0xFF, 0x00, 0xFF, 0xFF, 0xFF, 0x05, 0xFE, 0x02, 0xFE];

fn indexed(palette: &[u8]) -> Vec<u8> {
    png(&[
        (b"IHDR", &INDEXED_HEADER),
        (b"PLTE", palette),
        (b"IDAT", &INDEXED_DATA),
        (b"IEND", &[]),
    ])
}

#[test]
fn decodes_png_pipeline() {
    let gray = decode_screen(&PICTURE).expect("decode fixture PNG");
    let (w, h) = (gray.width as usize, gray.height as usize);
    let mut prep =
        rqrr::PreparedImage::prepare_from_greyscale(w, h, |x, y| gray.pixels[y * w + x]);
    let grids = prep.detect_grids();
    assert!(!grids.is_empty(), "should detect at least one QR grid");
    let (_m, content) = grids[0].decode().expect("decode QR");
    let t = parse_otpauth(&content).expect("parse otpauth");
    assert_eq!(t.secret, "JBSWY3DPEHPK3PXP");
    assert_eq!(t.algorithm, Some(Algo::Sha256));
    assert_eq!(t.digits, Some(8));
    assert_eq!(t.period, Some(60));
}

#[test]
fn parses_full_uri() {
    let uri = "otpauth://totp/ACME%20Co:alice@acme.test?secret=JBSWY3DPEHPK3PXP&issuer=ACME%20Co&algorithm=SHA256&digits=8&period=60";
    let t = parse_otpauth(uri).unwrap();
    assert_eq!(t.issuer.as_deref(), Some("ACME Co"));
    assert_eq!(t.account.as_deref(), Some("alice@acme.test"));
    assert_eq!(t.secret, "JBSWY3DPEHPK3PXP");
    assert_eq!(t.algorithm, Some(Algo::Sha256));
    assert_eq!(t.digits, Some(8));
    assert_eq!(t.period, Some(60));
}

#[test]
fn account_only_label() {
    let uri = "otpauth://totp/justme?secret=ABCDEFGH";
    let t = parse_otpauth(uri).unwrap();
    assert_eq!(t.account.as_deref(), Some("justme"));
    assert!(t.issuer.is_none());
    assert_eq!(t.secret, "ABCDEFGH");
    assert!(t.algorithm.is_none());
}

#[test]
fn missing_secret_is_error() {
    let uri = "otpauth://totp/Acme:bob?issuer=Acme&digits=6";
    assert!(parse_otpauth(uri).is_err());
}

#[test]
fn non_totp_is_error() {
    assert!(parse_otpauth("https://example.com").is_err());
    assert!(parse_otpauth("otpauth://hotp/x?secret=A&counter=1").is_err());
}

#[test]
fn refusals_say_why() {
    assert_eq!(
        parse_otpauth("https://example.com").unwrap_err(),
        "the QR code is not an otpauth://totp code"
    );
    assert_eq!(
        parse_otpauth("otpauth://hotp/x?secret=A").unwrap_err(),
        "this is an HOTP code; only TOTP is supported"
    );
    assert_eq!(
        parse_otpauth("otpauth://totp/x?secret=%20&digits=6").unwrap_err(),
        "the QR code has no secret — nothing to add"
    );
    assert_eq!(
        parse_otpauth("otpauth://totp/x").unwrap_err(),
        "the QR code has no secret — nothing to add"
    );
}

#[test]
fn odd_uris_are_understood() {
    let t = parse_otpauth("  otpauth://TOTP/%20:%20bob+b?SECRET=a%3D&junk&Digits=+%38&period=70000&algorithm=sha512\n")
        .unwrap();
    assert_eq!(t.issuer, None);
    assert_eq!(t.account.as_deref(), Some("bob b"));
    assert_eq!(t.secret, "a=");
    assert_eq!(t.digits, Some(8));
    assert_eq!(t.period, None);
    assert_eq!(t.algorithm, Some(Algo::Sha512));
    let t = parse_otpauth("otpauth://totp/A:b?secret=X&issuer=&algorithm=MD5&digits=300").unwrap();
    assert_eq!(t.issuer.as_deref(), Some("A"));
    assert_eq!(t.algorithm, None);
    assert_eq!(t.digits, None);
    let t = parse_otpauth("otpauth://totp/A:b:c?secret=X&issuer=B&secret=Y&algorithm=SHA1").unwrap();
    assert_eq!(t.issuer.as_deref(), Some("B"));
    assert_eq!(t.account.as_deref(), Some("b:c"));
    assert_eq!(t.secret, "Y");
    assert_eq!(t.algorithm, Some(Algo::Sha1));
}

#[test]
fn labels_and_parameters_apart() {
    let t = apply_label(" Issuer : account ");
    assert_eq!(t.issuer.as_deref(), Some("Issuer"));
    assert_eq!(t.account.as_deref(), Some("account"));
    let t = apply_param(t, "issuer", " ");
    assert_eq!(t.issuer.as_deref(), Some("Issuer"));
    let t = apply_param(t, "issuer", " Other");
    assert_eq!(t.issuer.as_deref(), Some("Other"));
    let t = apply_param(t, "digits", " 7 ");
    assert_eq!(t.digits, Some(7));
    let t = apply_param(t, "period", "65535");
    assert_eq!(t.period, Some(65535));
    let t = apply_param(t, "colour", "red");
    assert_eq!(t.secret, "");
    let t = apply_param(t, "secret", " s ");
    assert_eq!(t.secret, "s");
    let none = ScannedTotp::default();
    assert!(none.issuer.is_none() && none.account.is_none() && none.secret.is_empty());
}

#[test]
fn percent_decoding() {
    assert_eq!(percent_decode("plain: é"), "plain: é");
    assert_eq!(percent_decode("a%20b+c%2B"), "a b c+");
    assert_eq!(percent_decode("%C3%A9%e2%82%ac"), "é€");
    assert_eq!(percent_decode("100%"), "100%");
    assert_eq!(percent_decode("%4"), "%4");
    assert_eq!(percent_decode("%zz%41"), "%zzA");
    assert_eq!(percent_decode("%41%4"), "A%4");
    assert_eq!(percent_decode("x%FFy"), "x\u{FFFD}y");
    assert_eq!(percent_decode_bytes(b"%00%fF%25+"), vec![0x00, 0xFF, 0x25, 0x20]);
}

#[test]
fn every_escape_decodes_to_its_byte() {
    for b in 0..=255u8 {
        assert_eq!(percent_decode_bytes(format!("%{:02x}", b).as_bytes()), vec![b]);
    }
    assert_eq!(hex_val(b'f'), Some(15));
    assert_eq!(hex_val(b'F'), Some(15));
    assert_eq!(hex_val(b'9'), Some(9));
    assert_eq!(hex_val(b'g'), None);
}

#[test]
fn screen_files_become_gray_pictures() {
    let p = decode_screen(&GRAY_FILE).unwrap();
    assert_eq!((p.width, p.height), (3, 1));
    assert_eq!(p.pixels, vec![0, 128, 255]);
    let p = decode_screen(&COLOUR_FILE).unwrap();
    assert_eq!((p.width, p.height), (1, 2));
    assert_eq!(p.pixels, vec![54, 255]);
    assert_eq!(decode_screen(b"no picture"), None);
    assert_eq!(decode_screen(&GRAY_FILE[..40]), None);
}

#[test]
fn palettes_that_fit_are_used() {
    let p = decode_screen(&indexed(&[10, 10, 10, 200, 200, 200])).unwrap();
    assert_eq!((p.width, p.height), (2, 1));
    assert_eq!(p.pixels, vec![10, 200]);
    assert_eq!(decode_screen(&indexed(&[10, 10, 10])).unwrap().pixels, vec![10, 0]);
    assert_eq!(decode_screen(&indexed(&[7; 768])).unwrap().pixels, vec![7, 7]);
}

#[test]
fn palettes_that_do_not_fit_are_refused() {
    for n in [1, 2, 4, 5, 7, 767, 769, 771, 1024] {
        assert_eq!(decode_screen(&indexed(&vec![7; n])), None);
    }
    assert_eq!(decode_screen(&indexed(&[])), None);
    let late = png(&[
        (b"IHDR", &[]),
        (b"IHDR", &INDEXED_HEADER),
        (b"gAMA", &[0, 0, 177, 143]),
        (b"PLTE", &[7; 4]),
        (b"IDAT", &INDEXED_DATA),
        (b"IEND", &[]),
    ]);
    assert_eq!(decode_screen(&late), None);
    let mut cut = indexed(&[7; 6]);
    cut[33] = 0xFF;
    assert_eq!(decode_screen(&cut), None);
}

#[test]
fn palettes_without_use_are_passed_over() {
    let p = decode_screen(&png(&[
        (b"IHDR", &RGB_HEADER),
        (b"PLTE", &[7; 4]),
        (b"IDAT", &RGB_DATA),
        (b"IEND", &[]),
    ]));
    assert_eq!(p.unwrap().pixels, vec![255]);
    let p = decode_screen(&png(&[
        (b"IHDR", &INDEXED_HEADER),
        (b"PLTE", &[9, 9, 9, 90, 90, 90]),
        (b"IDAT", &INDEXED_DATA),
        (b"PLTE", &[7; 4]),
        (b"IEND", &[]),
    ]));
    assert_eq!(p.unwrap().pixels, vec![9, 90]);
}

#[test]
fn frame_data_ends_the_search_for_palettes() {
    let mut control = vec![0, 0, 0, 0, 0, 0, 0, 2, 0, 0, 0, 1];
    control.resize(26, 0);
    let mut frame = vec![0, 0, 0, 1];
    frame.extend_from_slice(&INDEXED_DATA);
    let p = decode_screen(&png(&[
        (b"IHDR", &INDEXED_HEADER),
        (b"PLTE", &[9, 9, 9, 90, 90, 90]),
        (b"fcTL", &control),
        (b"fdAT", &frame),
        (b"PLTE", &[7; 4]),
        (b"IEND", &[]),
    ]));
    assert_eq!(p.unwrap().pixels, vec![9, 90]);
    let p = decode_screen(&png(&[
        (b"IHDR", &INDEXED_HEADER),
        (b"PLTE", &[7; 4]),
        (b"fcTL", &control),
        (b"fdAT", &frame),
        (b"IEND", &[]),
    ]));
    assert_eq!(p, None);
}

#[test]
fn grids_are_decoded() {
    assert_eq!(decode_grid(&cells(&OTHER_CODE)).as_deref(), Some("rqrr"));
    assert_eq!(
        decode_grid(&cells(&TOTP_CODE)).as_deref(),
        Some("otpauth://totp/ACME%20Co:alice@acme.test?secret=JBSWY3DPEHPK3PXP&algorithm=SHA256&digits=8&period=60")
    );
}

#[test]
fn damaged_cells_are_corrected() {
    let mut grid = cells(&TOTP_CODE);
    for k in 0..12 {
        let i = 20 * 37 + 3 * k;
        grid.bits[i] = !grid.bits[i];
    }
    assert!(decode_grid(&grid).unwrap().contains("JBSWY3DPEHPK3PXP"));
}

#[test]
fn other_grids_hold_no_text() {
    assert_eq!(decode_grid(&GridBits { size: 0, bits: vec![] }), None);
    assert_eq!(decode_grid(&GridBits { size: 17, bits: vec![true; 289] }), None);
    assert_eq!(decode_grid(&GridBits { size: 22, bits: vec![true; 484] }), None);
    assert_eq!(decode_grid(&GridBits { size: 181, bits: vec![true; 181 * 181] }), None);
    assert_eq!(decode_grid(&GridBits { size: 21, bits: vec![true; 440] }), None);
    assert_eq!(decode_grid(&GridBits { size: 21, bits: vec![true; 441] }), None);
}

#[test]
fn cells_are_found_by_row_and_column() {
    let grid = cells(&OTHER_CODE);
    assert!(grid.bit(0, 6) && !grid.bit(0, 7) && grid.bit(20, 0) && grid.bit(0, 10));
    assert!(!grid.bit(10, 0));
}

#[test]
fn first_totp_code_is_picked() {
    let good = |s: &str| Some(format!("otpauth://totp/a?secret={}", s));
    let t = pick_totp(&[None, Some("x".to_string()), good("ONE"), good("TWO")]).unwrap();
    assert_eq!(t.secret, "ONE");
    assert_eq!(
        pick_totp(&[]).unwrap_err(),
        "no QR code found on screen — make sure the TOTP QR is visible"
    );
    assert_eq!(
        pick_totp(&[None, None]).unwrap_err(),
        "a QR code was found, but it isn't a TOTP (otpauth://totp) code"
    );
    assert_eq!(
        pick_totp(&[Some("x".to_string()), Some("otpauth://hotp/".to_string()), None]).unwrap_err(),
        "this is an HOTP code; only TOTP is supported"
    );
}

#[test]
fn screens_are_scanned_in_order() {
    assert_eq!(scan_screens(&[]).unwrap_err(), "no screens available to scan");
    assert_eq!(
        scan_screens(&[vec![], vec![]]).unwrap_err(),
        "no QR code found on screen — make sure the TOTP QR is visible"
    );
    assert_eq!(
        scan_screens(&[vec![cells(&OTHER_CODE)]]).unwrap_err(),
        "the QR code is not an otpauth://totp code"
    );
    let bad = GridBits { size: 21, bits: vec![false; 441] };
    let t = scan_screens(&[vec![bad, cells(&OTHER_CODE)], vec![], vec![cells(&TOTP_CODE)]]).unwrap();
    assert_eq!(t.secret, "JBSWY3DPEHPK3PXP");
    assert_eq!(t.issuer.as_deref(), Some("ACME Co"));
}
