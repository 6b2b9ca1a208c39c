//! Pure-byte protocol layer for the Token2 second-generation FIDO2 key's
//! on-device OTP management applet — building APDUs, parsing responses, and the
//! base32/serial helpers. Hardware-free: no I/O lives here.
//!
//! This is the *OTP management* applet (provisioning and reading the TOTP/HOTP
//! entries the key stores), **not** CTAP/FIDO2 — that is the standard FIDO
//! interface and is untouched by this tool.

use crate::secret::SecretBytes;
use crate::text;
use vstd::arithmetic::power2::*;
use vstd::prelude::*;
use vstd::slice::slice_subrange;

pub mod cmd;
pub mod sw;

verus! {

// --- USB / applet identity -----------------------------------------------------

/// USB Vendor ID for Token2 FIDO2 keys (decimal 13470).
pub const USB_VID: u16 = 0x349E;

/// A USB Product ID seen on these keys (they ship under several; matched only as
/// a fallback alongside the FIDO usage page and product string).
pub const USB_PID: u16 = 0x0022;

/// Product string to match alongside the VID when the PID is ambiguous.
pub const USB_PRODUCT: &'static str = "FIDO2 Security Key";

/// HID usage page these keys expose (the standard FIDO/U2F page).
pub const FIDO_USAGE_PAGE: u16 = 0xF1D0;

/// SELECT AID for the OTP management applet.
pub const OTP_APPLET_AID: [u8; 8] = [0xF0, 0x00, 0x00, 0x01, 0x4F, 0x74, 0x70, 0x01];

/// SELECT AID for the FIDO applet — needed before reading the serial over PC/SC.
pub const FIDO_APPLET_AID: [u8; 8] = [0xA0, 0x00, 0x00, 0x06, 0x47, 0x2F, 0x00, 0x01];

// --- status words --------------------------------------------------------------

/// An expected, surfaced-to-user applet error.
#[derive(Debug, Clone, PartialEq, Eq, Structural)]
pub enum OtpError {
    /// `6A80` / `6A83`. On a clean READ_ALL this means "zero entries".
    EntryNotFound,
    /// `6A84` — device storage is full.
    NotEnoughSpace,
    /// `6FF9` — timed out waiting for a confirming button press.
    ButtonPressRequired,
    /// `6A86` — this model does not expose HOTP-over-HID.
    HidNotSupported,
    /// Any other non-`9000` status word.
    BadStatusCode(u16),
}

/// What a status word means.
pub open spec fn status_of(word: u16) -> Result<(), OtpError> {
    if word == sw::OK {
        Ok(())
    } else if word == sw::ENTRY_NOT_FOUND || word == sw::ENTRY_NOT_FOUND_ALT {
        Err(OtpError::EntryNotFound)
    } else if word == sw::NOT_ENOUGH_SPACE {
        Err(OtpError::NotEnoughSpace)
    } else if word == sw::BUTTON_TIMEOUT {
        Err(OtpError::ButtonPressRequired)
    } else if word == sw::HID_NOT_SUPPORTED {
        Err(OtpError::HidNotSupported)
    } else {
        Err(OtpError::BadStatusCode(word))
    }
}

/// The capital hexadecimal digit of value `v`.
pub open spec fn upper_hex_digit(v: nat) -> char {
    text::ascii_upper(text::digit_char(v))
}

/// A status word in hexadecimal: `0x` and four capital digits.
pub open spec fn status_word_text(word: u16) -> Seq<char> {
    seq![
        '0',
        'x',
        upper_hex_digit((word / 4096) as nat),
        upper_hex_digit((word / 256 % 16) as nat),
        upper_hex_digit((word / 16 % 16) as nat),
        upper_hex_digit((word % 16) as nat),
    ]
}

fn upper_digit(v: u8) -> (c: char)
    requires
        v < 16,
    ensures
        c == upper_hex_digit(v as nat),
{
    if v < 10 {
        (0x30 + v) as char
    } else {
        (0x41 + (v - 10)) as char
    }
}

impl OtpError {
    /// Map a status word to an error, or `Ok(())` for `9000`.
    pub fn check(sw: u16) -> (r: Result<(), OtpError>)
        ensures
            r == status_of(sw),
    {
        match sw {
            sw::OK => Ok(()),
            sw::ENTRY_NOT_FOUND | sw::ENTRY_NOT_FOUND_ALT => Err(OtpError::EntryNotFound),
            sw::NOT_ENOUGH_SPACE => Err(OtpError::NotEnoughSpace),
            sw::BUTTON_TIMEOUT => Err(OtpError::ButtonPressRequired),
            sw::HID_NOT_SUPPORTED => Err(OtpError::HidNotSupported),
            other => Err(OtpError::BadStatusCode(other)),
        }
    }

    /// True for the `EntryNotFound` a READ_ALL returns on an empty token.
    pub fn is_empty_token(&self) -> (r: bool)
        ensures
            r == (self is EntryNotFound),
    {
        matches!(self, OtpError::EntryNotFound)
    }

    /// The text that names the error to a user.
    pub open spec fn text(self) -> Seq<char> {
        match self {
            OtpError::EntryNotFound => "entry not found"@,
            OtpError::NotEnoughSpace => "not enough space on device"@,
            OtpError::ButtonPressRequired => "timed out waiting for a button press on the key"@,
            OtpError::HidNotSupported => "HOTP-over-HID is not supported on this model"@,
            OtpError::BadStatusCode(word) => "unexpected status word "@ + status_word_text(word),
        }
    }

    /// The text that names the error to a user.
    pub fn to_string(&self) -> (s: String)
        ensures
            s@ == self.text(),
    {
        match self {
            OtpError::EntryNotFound => text::owned("entry not found"),
            OtpError::NotEnoughSpace => text::owned("not enough space on device"),
            OtpError::ButtonPressRequired => text::owned(
                "timed out waiting for a button press on the key",
            ),
            OtpError::HidNotSupported => text::owned(
                "HOTP-over-HID is not supported on this model",
            ),
            OtpError::BadStatusCode(word) => {
                let word: u16 = *word;
                let mut s = text::owned("unexpected status word ");
                let ghost head = s@;
                s.push('0');
                s.push('x');
                s.push(upper_digit((word / 4096) as u8));
                s.push(upper_digit((word / 256 % 16) as u8));
                s.push(upper_digit((word / 16 % 16) as u8));
                s.push(upper_digit((word % 16) as u8));
                assert(s@ == head + status_word_text(word));
                s
            },
        }
    }
}

// --- shared parse error --------------------------------------------------------

/// Why a response could not be parsed, or a request not be built.
#[derive(Debug, Clone, PartialEq, Eq)]
pub enum ParseError {
    /// Ran off the end of the buffer mid-record.
    Truncated,
    /// A field held a value outside its documented range.
    Malformed(&'static str),
    /// A validation rule failed before sending.
    Invalid(&'static str),
}

/// What a `ParseError` says, with its text as characters.
pub enum Fault {
    Truncated,
    Malformed(Seq<char>),
    Invalid(Seq<char>),
}

impl View for ParseError {
    type V = Fault;

    open spec fn view(&self) -> Fault {
        match *self {
            ParseError::Truncated => Fault::Truncated,
            ParseError::Malformed(s) => Fault::Malformed(s@),
            ParseError::Invalid(s) => Fault::Invalid(s@),
        }
    }
}

impl Fault {
    /// The text that names the error to a user.
    pub open spec fn text(self) -> Seq<char> {
        match self {
            Fault::Truncated => "response truncated mid-record"@,
            Fault::Malformed(s) => "malformed response: "@ + s,
            Fault::Invalid(s) => "invalid parameter: "@ + s,
        }
    }
}

impl ParseError {
    /// The text that names the error to a user.
    pub fn to_string(&self) -> (s: String)
        ensures
            s@ == self@.text(),
    {
        match self {
            ParseError::Truncated => text::owned("response truncated mid-record"),
            ParseError::Malformed(m) => {
                let mut s = text::owned("malformed response: ");
                text::append(&mut s, m);
                s
            },
            ParseError::Invalid(m) => {
                let mut s = text::owned("invalid parameter: ");
                text::append(&mut s, m);
                s
            },
        }
    }
}

// --- numbers as bytes ----------------------------------------------------------

/// The last `k` bytes of `n`, most significant byte first.
pub open spec fn be_bytes(n: nat, k: nat) -> Seq<u8>
    decreases k,
{
    if k == 0 {
        seq![]
    } else {
        be_bytes(n / 256, (k - 1) as nat).push((n % 256) as u8)
    }
}

pub proof fn lemma_be_bytes_len(n: nat, k: nat)
    ensures
        be_bytes(n, k).len() == k,
    decreases k,
{
    if k > 0 {
        lemma_be_bytes_len(n / 256, (k - 1) as nat);
    }
}

/// Numbers that differ have different bytes, as far as the bytes hold them.
pub proof fn lemma_be_bytes_injective(n: nat, m: nat, k: nat)
    requires
        n < pow2(8 * k),
        m < pow2(8 * k),
        be_bytes(n, k) == be_bytes(m, k),
    ensures
        n == m,
    decreases k,
{
    lemma2_to64();
    if k > 0 {
        let j = (k - 1) as nat;
        assert(8 * k == 8 * j + 8);
        lemma_pow2_adds(8 * j, 8);
        assert(pow2(8 * k) == pow2(8 * j) * 256);
        assert(be_bytes(n, k) == be_bytes(n / 256, j).push((n % 256) as u8));
        assert(be_bytes(m, k) == be_bytes(m / 256, j).push((m % 256) as u8));
        assert(be_bytes(n, k).last() == (n % 256) as u8);
        assert(be_bytes(m, k).last() == (m % 256) as u8);
        assert(be_bytes(n, k).drop_last() == be_bytes(n / 256, j));
        assert(be_bytes(m, k).drop_last() == be_bytes(m / 256, j));
        lemma_be_bytes_injective(n / 256, m / 256, j);
    } else {
        assert(pow2(8 * k) == pow2(0));
    }
}

/// The last `k` bytes of `n`, most significant byte first.
fn to_be_bytes(n: u64, k: usize) -> (v: Vec<u8>)
    ensures
        v@ == be_bytes(n as nat, k as nat),
    decreases k,
{
    if k == 0 {
        Vec::new()
    } else {
        let mut v = to_be_bytes(n / 256, k - 1);
        v.push((n % 256) as u8);
        v
    }
}

/// The eight bytes of `n`, most significant byte first.
pub fn u64_be(n: u64) -> (v: Vec<u8>)
    ensures
        v@ == be_bytes(n as nat, 8),
{
    to_be_bytes(n, 8)
}

// --- APDU builders -------------------------------------------------------------

/// An extended-length APDU: `CLA INS P1 P2 00 Lc_hi Lc_lo data...`, and the bare
/// header without data.
pub open spec fn apdu(header: Seq<u8>, data: Seq<u8>) -> Seq<u8> {
    if data.len() == 0 {
        header
    } else {
        header + seq![0x00u8] + be_bytes(data.len(), 2) + data
    }
}

/// Build an extended-length APDU: `CLA INS P1 P2 00 Lc_hi Lc_lo data...`.
/// An empty body sends just the 4-byte header (the device reads a bodyless
/// WRITE_SEED as erase-all).
pub fn build_apdu(header: [u8; 4], data: &[u8]) -> (out: Vec<u8>)
    requires
        data@.len() <= 0xFFFF,
    ensures
        out@ == apdu(header@, data@),
{
    let len: usize = data.len();
    let mut out: Vec<u8> = Vec::new();
    out.extend_from_slice(&header);
    assert(out@ == header@);
    if len > 0 {
        out.push(0x00);
        out.push((len / 256) as u8);
        out.push((len % 256) as u8);
        out.extend_from_slice(data);
        proof {
            reveal_with_fuel(be_bytes, 3);
        }
        assert(be_bytes(len as nat, 2) == seq![(len / 256) as u8, (len % 256) as u8]);
        assert(out@ == apdu(header@, data@));
    }
    out
}

/// The parts of an APDU with a four-byte header.
proof fn lemma_apdu_parts(header: Seq<u8>, data: Seq<u8>)
    requires
        header.len() == 4,
    ensures
        apdu(header, data).take(4) == header,
        apdu(header, data).len() == (if data.len() == 0 {
            4
        } else {
            7 + data.len()
        }),
        data.len() > 0 ==> apdu(header, data).skip(7) == data,
{
    lemma_be_bytes_len(data.len(), 2);
    let a = apdu(header, data);
    assert(a.take(4) == header);
    if data.len() > 0 {
        assert(a.skip(7) == data);
    }
}

/// An APDU says one thing only: two with four-byte headers and bodies that fit
/// have the same bytes only where headers and bodies are the same.
pub proof fn law_apdu_unambiguous(h1: Seq<u8>, d1: Seq<u8>, h2: Seq<u8>, d2: Seq<u8>)
    requires
        h1.len() == 4,
        h2.len() == 4,
        d1.len() <= 0xFFFF,
        d2.len() <= 0xFFFF,
        apdu(h1, d1) == apdu(h2, d2),
    ensures
        h1 == h2,
        d1 == d2,
{
    lemma_apdu_parts(h1, d1);
    lemma_apdu_parts(h2, d2);
    if d1.len() == 0 {
        assert(d1 == d2);
    }
}

/// Only the write without a body erases everything: no write with a body has the
/// bytes of the erase.
pub proof fn law_write_with_body_is_no_erase(data: Seq<u8>)
    ensures
        apdu(cmd::WRITE_SEED@, data) == cmd::WRITE_SEED@ <==> data.len() == 0,
{
    lemma_be_bytes_len(data.len(), 2);
    if data.len() > 0 {
        assert(apdu(cmd::WRITE_SEED@, data).len() == 7 + data.len());
    }
}

/// The short-form SELECT-by-name APDU: `00 A4 04 00 Lc aid...`.
pub open spec fn select_apdu(aid: Seq<u8>) -> Seq<u8> {
    seq![0x00u8, 0xA4, 0x04, 0x00, aid.len() as u8] + aid
}

/// Build the short-form SELECT-by-name APDU: `00 A4 04 00 Lc aid...`.
pub fn build_select(aid: &[u8]) -> (out: Vec<u8>)
    requires
        1 <= aid@.len() <= 255,
    ensures
        out@ == select_apdu(aid@),
{
    let mut out: Vec<u8> = Vec::new();
    out.push(0x00);
    out.push(0xA4);
    out.push(0x04);
    out.push(0x00);
    out.push(aid.len() as u8);
    out.extend_from_slice(aid);
    assert(out@ == select_apdu(aid@));
    out
}

/// Build the `GET_ECDH_PUBKEY` request: short case-2 `80 C5 01 00 00`.
pub fn get_ecdh_pubkey() -> (v: Vec<u8>)
    ensures
        v@ == cmd::GET_ECDH_PUBKEY@.push(0x00),
{
    let mut v: Vec<u8> = Vec::new();
    v.extend_from_slice(&cmd::GET_ECDH_PUBKEY);
    v.push(0x00);
    v
}

/// Build the `READ_CONFIG` request for `num_bytes` (clamped to 1..=64).
pub fn read_config(num_bytes: u8) -> (v: Vec<u8>)
    ensures
        v@ == cmd::READ_CONFIG@.push(
            if num_bytes < 1 {
                1
            } else if num_bytes > 64 {
                64
            } else {
                num_bytes
            },
        ),
{
    let n: u8 = if num_bytes < 1 {
        1
    } else if num_bytes > 64 {
        64
    } else {
        num_bytes
    };
    let mut v: Vec<u8> = Vec::new();
    v.extend_from_slice(&cmd::READ_CONFIG);
    v.push(n);
    v
}

/// Build the `ENABLE_TOTP` APDU.
pub fn enable_totp(enabled: bool) -> (v: Vec<u8>)
    ensures
        v@ == apdu(
            cmd::ENABLE_TOTP@,
            seq![
                if enabled {
                    1u8
                } else {
                    0u8
                },
            ],
        ),
{
    let flag: [u8; 1] = [
        if enabled {
            1u8
        } else {
            0u8
        },
    ];
    assert(flag@ == seq![flag@[0]]);
    build_apdu(cmd::ENABLE_TOTP, &flag)
}

/// Build the bodyless `WRITE_SEED` that erases every entry.
pub fn erase_all() -> (v: Vec<u8>)
    ensures
        v@ == cmd::WRITE_SEED@,
{
    build_apdu(cmd::WRITE_SEED, &[])
}

/// Build the FIDO-applet serial-number request: `D1 10` + 16 zero bytes.
pub fn read_serial_request() -> (v: Vec<u8>)
    ensures
        v@ == apdu(cmd::READ_SERIAL_INS@, seq![0xD1u8, 0x10] + Seq::new(16, |i: int| 0u8)),
{
    let mut payload = [0u8;18];
    payload[0] = 0xD1;
    payload[1] = 0x10;
    assert(payload@ == seq![0xD1u8, 0x10] + Seq::new(16, |i: int| 0u8));
    build_apdu(cmd::READ_SERIAL_INS, &payload)
}

/// Serialize the READ_ALL request body: `03 || u64_be(ts)`.
pub fn serialize_enum_all(timestamp: u64) -> (buf: Vec<u8>)
    ensures
        buf@ == seq![cmd::SUB_READ_ALL] + be_bytes(timestamp as nat, 8),
{
    let mut buf: Vec<u8> = Vec::new();
    buf.push(cmd::SUB_READ_ALL);
    buf.extend_from_slice(u64_be(timestamp).as_slice());
    assert(buf@ == seq![cmd::SUB_READ_ALL] + be_bytes(timestamp as nat, 8));
    buf
}

// --- serial parsing -----------------------------------------------------------

/// The value of a hexadecimal digit in ASCII.
pub open spec fn nibble_value(c: u8) -> Option<u8> {
    if 0x30 <= c <= 0x39 {
        Some((c - 0x30) as u8)
    } else if 0x61 <= c <= 0x66 {
        Some((c - 0x61 + 10) as u8)
    } else if 0x41 <= c <= 0x46 {
        Some((c - 0x41 + 10) as u8)
    } else {
        None
    }
}

/// The bytes that ASCII-hex characters spell, two characters to a byte.
pub open spec fn hex_bytes(hex: Seq<u8>) -> Result<Seq<u8>, Fault> {
    if hex.len() % 2 != 0 {
        Err(Fault::Malformed("serial hex length is odd"@))
    } else if exists|i: int| 0 <= i < hex.len() && nibble_value(#[trigger] hex[i]) is None {
        Err(Fault::Malformed("non-hex char in serial"@))
    } else {
        Ok(
            Seq::new(
                hex.len() / 2,
                |i: int|
                    (nibble_value(hex[2 * i])->0 * 16 + nibble_value(hex[2 * i + 1])->0) as u8,
            ),
        )
    }
}

/// The serial number in a response: `D1 len ascii_hex...`.
pub open spec fn serial_of(data: Seq<u8>) -> Result<Seq<u8>, Fault> {
    if data.len() < 2 || data[0] != 0xD1 || 2 + data[1] > data.len() {
        Err(Fault::Truncated)
    } else {
        hex_bytes(data.subrange(2, 2 + data[1]))
    }
}

/// Parse the serial-number response: `D1 len ascii_hex...`. The serial is
/// double-encoded — ASCII-hex characters the host then hex-decodes to bytes.
pub fn parse_serial(data: &[u8]) -> (r: Result<Vec<u8>, ParseError>)
    ensures
        match r {
            Ok(v) => serial_of(data@) == Ok::<Seq<u8>, Fault>(v@),
            Err(e) => serial_of(data@) == Err::<Seq<u8>, Fault>(e@),
        },
{
    if data.len() < 2 || data[0] != 0xD1 {
        return Err(ParseError::Truncated);
    }
    let sn_len: usize = data[1] as usize;
    if data.len() - 2 < sn_len {
        return Err(ParseError::Truncated);
    }
    decode_ascii_hex(slice_subrange(data, 2, 2 + sn_len))
}

/// Decode ASCII-hex characters, two to a byte.
pub fn decode_ascii_hex(hex: &[u8]) -> (r: Result<Vec<u8>, ParseError>)
    ensures
        match r {
            Ok(v) => hex_bytes(hex@) == Ok::<Seq<u8>, Fault>(v@),
            Err(e) => hex_bytes(hex@) == Err::<Seq<u8>, Fault>(e@),
        },
{
    let len: usize = hex.len();
    if len % 2 != 0 {
        return Err(ParseError::Malformed("serial hex length is odd"));
    }
    let mut out: Vec<u8> = Vec::new();
    for i in 0..len / 2
        invariant
            len == hex@.len(),
            len % 2 == 0,
            out@ == Seq::new(
                i as nat,
                |j: int|
                    (nibble_value(hex@[2 * j])->0 * 16 + nibble_value(hex@[2 * j + 1])->0) as u8,
            ),
            forall|j: int| 0 <= j < 2 * i ==> nibble_value(#[trigger] hex@[j]) is Some,
    {
        let hi: Option<u8> = hex_nibble(hex[2 * i]);
        let lo: Option<u8> = hex_nibble(hex[2 * i + 1]);
        match (hi, lo) {
            (Some(hi), Some(lo)) => {
                out.push(hi * 16 + lo);
                assert(out@ == Seq::new(
                    (i + 1) as nat,
                    |j: int|
                        (nibble_value(hex@[2 * j])->0 * 16 + nibble_value(hex@[2 * j + 1])->0)
                            as u8,
                ));
            },
            _ => {
                return Err(ParseError::Malformed("non-hex char in serial"));
            },
        }
    }
    assert(hex_bytes(hex@)->Ok_0 == out@);
    Ok(out)
}

/// The value of a hexadecimal digit in ASCII.
pub fn hex_nibble(c: u8) -> (r: Option<u8>)
    ensures
        r == nibble_value(c),
        r is Some ==> r->0 < 16,
{
    match c {
        0x30..=0x39 => Some(c - 0x30),
        0x61..=0x66 => Some(c - 0x61 + 10),
        0x41..=0x46 => Some(c - 0x41 + 10),
        _ => None,
    }
}

/// Bytes as lower-case hex, two digits to a byte.
pub open spec fn hex_text(bytes: Seq<u8>) -> Seq<char>
    decreases bytes.len(),
{
    if bytes.len() == 0 {
        seq![]
    } else {
        hex_text(bytes.drop_last()) + text::hex_pair(bytes.last())
    }
}

/// Render bytes as lower-case hex.
pub fn hex(bytes: &[u8]) -> (s: String)
    ensures
        s@ == hex_text(bytes@),
{
    let mut s = String::new();
    assert(s@ == hex_text(bytes@.take(0)));
    for i in 0..bytes.len()
        invariant
            s@ == hex_text(bytes@.take(i as int)),
    {
        let ghost before = s@;
        s.push(text::hex_digit(bytes[i] / 16));
        s.push(text::hex_digit(bytes[i] % 16));
        assert(bytes@.take(i + 1).drop_last() == bytes@.take(i as int));
        assert(s@ == before + text::hex_pair(bytes@[i as int]));
    }
    assert(bytes@.take(bytes@.len() as int) == bytes@);
    s
}

proof fn lemma_hex_text(bytes: Seq<u8>)
    ensures
        hex_text(bytes).len() == 2 * bytes.len(),
        forall|i: int|
            0 <= i < bytes.len() ==> {
                &&& hex_text(bytes)[2 * i] == text::hex_pair(#[trigger] bytes[i])[0]
                &&& hex_text(bytes)[2 * i + 1] == text::hex_pair(bytes[i])[1]
            },
    decreases bytes.len(),
{
    if bytes.len() > 0 {
        lemma_hex_text(bytes.drop_last());
        assert forall|i: int| 0 <= i < bytes.len() implies {
            &&& hex_text(bytes)[2 * i] == text::hex_pair(#[trigger] bytes[i])[0]
            &&& hex_text(bytes)[2 * i + 1] == text::hex_pair(bytes[i])[1]
        } by {
            if i < bytes.len() - 1 {
                assert(bytes.drop_last()[i] == bytes[i]);
            }
        }
    }
}

/// A serial number of up to 127 bytes survives its double encoding: a response
/// that carries the serial's lower-case hex text, with anything behind it, parses
/// back to the serial.
pub proof fn law_serial_round_trip(serial: Seq<u8>, rest: Seq<u8>)
    requires
        serial.len() <= 127,
    ensures
        serial_of(
            seq![0xD1u8, (2 * serial.len()) as u8] + text::ascii_bytes(hex_text(serial)) + rest,
        ) == Ok::<Seq<u8>, Fault>(serial),
{
    lemma_hex_text(serial);
    let coded = text::ascii_bytes(hex_text(serial));
    let data = seq![0xD1u8, (2 * serial.len()) as u8] + coded + rest;
    assert(data.subrange(2, 2 + data[1]) == coded);
    assert forall|i: int| 0 <= i < coded.len() implies nibble_value(#[trigger] coded[i]) is Some by {
        let b = serial[i / 2];
        assert(coded[i] == text::hex_pair(b)[i % 2] as u8);
    }
    assert forall|i: int| 0 <= i < serial.len() implies (nibble_value(coded[2 * i])->0 * 16
        + nibble_value(coded[2 * i + 1])->0) as u8 == #[trigger] serial[i] by {
        let b = serial[i];
        assert(coded[2 * i] == text::hex_pair(b)[0] as u8);
        assert(coded[2 * i + 1] == text::hex_pair(b)[1] as u8);
    }
    assert(hex_bytes(coded)->Ok_0 == serial);
}

// --- device-info --------------------------------------------------------------

/// Decoded `READ_CONFIG` device-info block. Each meaningful bit is a named
/// boolean. "bit 1" is `value & 0x01`, "bit 8" is `value & 0x80`.
#[derive(Debug, Clone, PartialEq, Eq)]
pub struct DeviceInfo {
    pub transfer_type: u8,
    pub device_config: u8,
    pub appearance: [u8; 4],
    pub fido_version: [u8; 3],
    pub device_extension: u8,
    pub raw_len: usize,
}

/// Byte `i` of `data`, and zero behind its end.
pub open spec fn byte_or_zero(data: Seq<u8>, i: int) -> u8 {
    if i < data.len() {
        data[i]
    } else {
        0
    }
}

fn get_or_zero(data: &[u8], i: usize) -> (b: u8)
    ensures
        b == byte_or_zero(data@, i as int),
{
    if i < data.len() {
        data[i]
    } else {
        0
    }
}

impl DeviceInfo {
    /// Whether this is what a response's bytes say.
    pub open spec fn describes(self, data: Seq<u8>) -> bool {
        &&& self.transfer_type == byte_or_zero(data, 0)
        &&& self.device_config == byte_or_zero(data, 1)
        &&& self.appearance@ == Seq::new(4, |i: int| byte_or_zero(data, 2 + i))
        &&& self.fido_version@ == Seq::new(3, |i: int| byte_or_zero(data, 6 + i))
        &&& self.device_extension == byte_or_zero(data, 9)
        &&& self.raw_len == data.len()
    }

    /// Decode a device-info response. A short one is read as if zeros followed.
    pub fn parse(data: &[u8]) -> (r: Result<Self, ParseError>)
        ensures
            match r {
                Ok(info) => data@.len() > 0 && info.describes(data@),
                Err(e) => data@.len() == 0 && e@ == Fault::Truncated,
            },
    {
        if data.len() == 0 {
            return Err(ParseError::Truncated);
        }
        let info = DeviceInfo {
            transfer_type: data[0],
            device_config: get_or_zero(data, 1),
            appearance: [
                get_or_zero(data, 2),
                get_or_zero(data, 3),
                get_or_zero(data, 4),
                get_or_zero(data, 5),
            ],
            fido_version: [get_or_zero(data, 6), get_or_zero(data, 7), get_or_zero(data, 8)],
            device_extension: get_or_zero(data, 9),
            raw_len: data.len(),
        };
        assert(info.appearance@ == Seq::new(4, |i: int| byte_or_zero(data@, 2 + i)));
        assert(info.fido_version@ == Seq::new(3, |i: int| byte_or_zero(data@, 6 + i)));
        Ok(info)
    }

    /// Whether the response actually carried the config byte (byte 1), vs. a
    /// short CCID/NFC stub that only carried byte 0.
    pub fn has_config_byte(&self) -> (r: bool)
        ensures
            r == (self.raw_len >= 2),
    {
        self.raw_len >= 2
    }

    // transfer-type bits (byte 0)
    pub fn fido_disabled(&self) -> (r: bool)
        ensures
            r == (self.transfer_type & 0x01 != 0),
    {
        self.transfer_type & 0x01 != 0
    }

    pub fn hotp_keystroke_disabled(&self) -> (r: bool)
        ensures
            r == (self.transfer_type & 0x02 != 0),
    {
        self.transfer_type & 0x02 != 0
    }

    pub fn ccid_disabled(&self) -> (r: bool)
        ensures
            r == (self.transfer_type & 0x04 != 0),
    {
        self.transfer_type & 0x04 != 0
    }

    // device-config bits (byte 1)
    pub fn fido_pin_set(&self) -> (r: bool)
        ensures
            r == (self.device_config & 0x02 != 0),
    {
        self.device_config & 0x02 != 0
    }

    pub fn hotp_supported(&self) -> (r: bool)
        ensures
            r == (self.device_config & 0x04 != 0),
    {
        self.device_config & 0x04 != 0
    }

    pub fn fingerprint_present(&self) -> (r: bool)
        ensures
            r == (self.device_config & 0x08 != 0),
    {
        self.device_config & 0x08 != 0
    }

    pub fn nfc_supported(&self) -> (r: bool)
        ensures
            r == (self.device_config & 0x10 != 0),
    {
        self.device_config & 0x10 != 0
    }

    pub fn pin_locked(&self) -> (r: bool)
        ensures
            r == (self.device_config & 0x40 != 0),
    {
        self.device_config & 0x40 != 0
    }

    // device-extension bits (byte 9)
    pub fn totp_supported(&self) -> (r: bool)
        ensures
            r == (self.device_extension & 0x01 != 0),
    {
        self.device_extension & 0x01 != 0
    }

    pub fn fido_21_supported(&self) -> (r: bool)
        ensures
            r == (self.device_extension & 0x02 != 0),
    {
        self.device_extension & 0x02 != 0
    }

    pub fn ccid_supported(&self) -> (r: bool)
        ensures
            r == (self.device_extension & 0x10 != 0),
    {
        self.device_extension & 0x10 != 0
    }
}

// --- base32 -------------------------------------------------------------------

/// What `validate_seed_len` says of a length.
pub open spec fn seed_len_check(len: nat) -> Result<(), Seq<char>> {
    if len == 0 {
        Err("seed is empty after Base32 decode"@)
    } else if len > 64 {
        Err("seed exceeds 64 bytes after Base32 decode"@)
    } else {
        Ok(())
    }
}

/// Validate a decoded seed length: 1..=64 bytes.
pub fn validate_seed_len(decoded_len: usize) -> (r: Result<(), &'static str>)
    ensures
        match r {
            Ok(_) => seed_len_check(decoded_len as nat) is Ok,
            Err(e) => seed_len_check(decoded_len as nat) == Err::<(), Seq<char>>(e@),
        },
{
    match decoded_len {
        1..=64 => Ok(()),
        0 => Err("seed is empty after Base32 decode"),
        _ => Err("seed exceeds 64 bytes after Base32 decode"),
    }
}

/// The value of a digit of the RFC 4648 Base32 alphabet: `A`..`Z`, then `2`..`7`.
pub open spec fn base32_digit(c: char) -> Option<nat> {
    if 'A' <= c <= 'Z' {
        Some((c as nat - 'A' as nat) as nat)
    } else if '2' <= c <= '7' {
        Some((c as nat - '2' as nat + 26) as nat)
    } else {
        None
    }
}

/// The number that Base32 digits spell, most significant digit first.
pub open spec fn base32_value(s: Seq<char>) -> Option<nat>
    decreases s.len(),
{
    if s.len() == 0 {
        Some(0)
    } else {
        match (base32_value(s.drop_last()), base32_digit(s.last())) {
            (Some(v), Some(d)) => Some(v * 32 + d),
            _ => None,
        }
    }
}

/// The whole bytes at the front of the bit string that Base32 digits spell, five
/// bits to a digit; up to seven bits that remain behind them are dropped.
pub open spec fn base32_bytes(s: Seq<char>) -> Option<Seq<u8>> {
    match base32_value(s) {
        Some(v) => Some(be_bytes(v / pow2(5 * s.len() % 8), 5 * s.len() / 8)),
        None => None,
    }
}

fn base32_digit_value(c: char) -> (r: Option<u32>)
    ensures
        match r {
            Some(v) => base32_digit(c) == Some(v as nat) && v < 32,
            None => base32_digit(c) is None,
        },
{
    if 'A' <= c && c <= 'Z' {
        Some(c as u32 - 0x41)
    } else if '2' <= c && c <= '7' {
        Some(c as u32 - 0x32 + 26)
    } else {
        None
    }
}

/// `2^bits` for the few bits that wait between two bytes.
fn small_power(bits: u32) -> (p: u32)
    requires
        bits < 8,
    ensures
        p == pow2(bits as nat),
        1 <= p <= 128,
{
    proof {
        lemma2_to64();
    }
    match bits {
        0 => 1,
        1 => 2,
        2 => 4,
        3 => 8,
        4 => 16,
        5 => 32,
        6 => 64,
        _ => 128,
    }
}

/// One more digit `d` behind a number `v` of which `bits` bits wait for a byte to
/// be filled.
#[verifier::spinoff_prover]
#[verifier::rlimit(60)]
proof fn lemma_base32_step(v: nat, d: nat, bits: nat)
    requires
        bits < 8,
        d < 32,
    ensures
        ({
            let w = v * 32 + d;
            let more = bits + 5;
            &&& v % pow2(bits) < pow2(bits) <= 128
            &&& more < 8 ==> w / pow2(more) == v / pow2(bits) && w % pow2(more) == (v % pow2(bits))
                * 32 + d
            &&& more >= 8 ==> {
                let left = (more - 8) as nat;
                let held = (v % pow2(bits)) * 32 + d;
                &&& w / pow2(left) / 256 == v / pow2(bits)
                &&& (w / pow2(left)) % 256 == held / pow2(left)
                &&& w % pow2(left) == held % pow2(left)
            }
        }),
{
    lemma2_to64();
    let w = v * 32 + d;
    if bits == 0 {
        assert(pow2(bits) == 1 && pow2(bits + 5) == 32);
        assert(w / 32 == v / 1 && w % 32 == (v % 1) * 32 + d);
    } else if bits == 1 {
        assert(pow2(bits) == 2 && pow2(bits + 5) == 64);
        assert(w / 64 == v / 2 && w % 64 == (v % 2) * 32 + d);
    } else if bits == 2 {
        assert(pow2(bits) == 4 && pow2(bits + 5) == 128);
        assert(w / 128 == v / 4 && w % 128 == (v % 4) * 32 + d);
    } else if bits == 3 {
        assert(pow2(bits) == 8 && pow2((bits - 3) as nat) == 1);
        assert(w / 1 / 256 == v / 8);
        assert((w / 1) % 256 == ((v % 8) * 32 + d) / 1 && w % 1 == ((v % 8) * 32 + d) % 1);
    } else if bits == 4 {
        assert(pow2(bits) == 16 && pow2((bits - 3) as nat) == 2);
        assert(w / 2 / 256 == v / 16);
        assert((w / 2) % 256 == ((v % 16) * 32 + d) / 2 && w % 2 == ((v % 16) * 32 + d) % 2);
    } else if bits == 5 {
        assert(pow2(bits) == 32 && pow2((bits - 3) as nat) == 4);
        assert(w / 4 / 256 == v / 32);
        assert((w / 4) % 256 == ((v % 32) * 32 + d) / 4 && w % 4 == ((v % 32) * 32 + d) % 4);
    } else if bits == 6 {
        assert(pow2(bits) == 64 && pow2((bits - 3) as nat) == 8);
        assert(w / 8 / 256 == v / 64);
        assert((w / 8) % 256 == ((v % 64) * 32 + d) / 8 && w % 8 == ((v % 64) * 32 + d) % 8);
    } else {
        assert(bits == 7);
        assert(pow2(bits) == 128 && pow2((bits - 3) as nat) == 16);
        assert(w / 16 / 256 == v / 128);
        assert((w / 16) % 256 == ((v % 128) * 32 + d) / 16 && w % 16 == ((v % 128) * 32 + d) % 16);
    }
}

/// Decode Base32 digits into the whole bytes they fill.
pub fn base32_decode(s: &[char]) -> (r: Result<Vec<u8>, &'static str>)
    ensures
        match r {
            Ok(v) => base32_bytes(s@) == Some(v@) && v@.len() == 5 * s@.len() / 8,
            Err(e) => base32_bytes(s@) is None && e@ == "invalid Base32 character in seed"@,
        },
{
    let mut buffer: u32 = 0;
    let mut bits: u32 = 0;
    // Room for all of it, so that no outgrown copy of a seed is left behind.
    let room: usize = s.len() / 8 * 5 + s.len() % 8 * 5 / 8;
    let mut out: Vec<u8> = Vec::with_capacity(room);
    proof {
        lemma2_to64();
        assert(s@.take(0).len() == 0);
    }
    for i in 0..s.len()
        invariant
            bits < 8,
            5 * i == 8 * out@.len() + bits,
            base32_value(s@.take(i as int)) is Some,
            buffer == base32_value(s@.take(i as int))->0 % pow2(bits as nat),
            out@ == be_bytes(
                base32_value(s@.take(i as int))->0 / pow2(bits as nat),
                out@.len(),
            ),
    {
        let ghost v = base32_value(s@.take(i as int))->0;
        proof {
            assert(s@.take(i + 1).drop_last() == s@.take(i as int));
        }
        match base32_digit_value(s[i]) {
            None => {
                proof {
                    lemma_base32_prefix(s@, i + 1);
                }
                return Err("invalid Base32 character in seed");
            },
            Some(val) => {
                proof {
                    lemma_base32_step(v, val as nat, bits as nat);
                }
                buffer = buffer * 32 + val;
                bits = bits + 5;
                if bits >= 8 {
                    bits = bits - 8;
                    let unit: u32 = small_power(bits);
                    let ghost w = v * 32 + val as nat;
                    assert(buffer as nat / unit as nat == (w / pow2(bits as nat)) % 256);
                    let byte: u32 = buffer / unit;
                    buffer = buffer % unit;
                    let ghost before = out@;
                    out.push(byte as u8);
                    assert(be_bytes(w / pow2(bits as nat), out@.len()) == be_bytes(
                        w / pow2(bits as nat) / 256,
                        before.len(),
                    ).push(((w / pow2(bits as nat)) % 256) as u8));
                }
            },
        }
    }
    assert(s@.take(s@.len() as int) == s@);
    Ok(out)
}

proof fn lemma_base32_prefix(s: Seq<char>, k: int)
    requires
        0 <= k <= s.len(),
        base32_value(s.take(k)) is None,
    ensures
        base32_value(s) is None,
    decreases s.len() - k,
{
    if k == s.len() {
        assert(s.take(k) == s);
    } else {
        assert(s.take(k + 1).drop_last() == s.take(k));
        lemma_base32_prefix(s, k + 1);
    }
}

/// `s` without its whitespace.
pub open spec fn without_white(s: Seq<char>) -> Seq<char> {
    s.filter(|c: char| !text::is_white(c))
}

/// `s` without the padding at its end.
pub open spec fn without_padding(s: Seq<char>) -> Seq<char>
    decreases s.len(),
{
    if s.len() > 0 && s.last() == '=' {
        without_padding(s.drop_last())
    } else {
        s
    }
}

/// The Base32 digits in a seed as a user writes it.
pub open spec fn seed_digits(s: Seq<char>) -> Seq<char> {
    without_padding(without_white(s)).map_values(|c: char| text::ascii_upper(c))
}

/// The seed that a user's text stands for, or why it stands for none.
pub open spec fn seed_of(s: Seq<char>) -> Result<Seq<u8>, Seq<char>> {
    match base32_bytes(seed_digits(s)) {
        None => Err("invalid Base32 character in seed"@),
        Some(bytes) => match seed_len_check(bytes.len()) {
            Ok(_) => Ok(bytes),
            Err(m) => Err(m),
        },
    }
}

/// Decode a user-supplied Base32 (RFC 4648) seed, ignoring padding at its end,
/// whitespace and case. Returns bytes that are scrubbed on drop.
pub fn decode_base32_seed(s: &str) -> (r: Result<SecretBytes, &'static str>)
    ensures
        match r {
            Ok(seed) => seed_of(s@) == Ok::<Seq<u8>, Seq<char>>(seed@),
            Err(e) => seed_of(s@) == Err::<Seq<u8>, Seq<char>>(e@),
        },
{
    let mut cleaned: Vec<char> = Vec::new();
    proof {
        reveal(Seq::filter);
        assert(s@.take(0) == Seq::<char>::empty());
    }
    for c in it: s.chars()
        invariant
            it.seq() == s@,
            cleaned@ == without_white(s@.take(it.index() as int)),
    {
        proof {
            reveal(Seq::filter);
            assert(s@.take(it.index() + 1).drop_last() == s@.take(it.index() as int));
        }
        if !text::is_whitespace(c) {
            cleaned.push(c);
        }
    }
    assert(s@.take(s@.len() as int) == s@);
    let mut end: usize = cleaned.len();
    assert(cleaned@.take(end as int) == cleaned@);
    while end > 0 && cleaned[end - 1] == '='
        invariant
            end <= cleaned@.len(),
            without_padding(cleaned@.take(end as int)) == without_padding(cleaned@),
        decreases end,
    {
        assert(cleaned@.take(end as int).drop_last() == cleaned@.take(end - 1));
        end = end - 1;
    }
    assert(without_padding(cleaned@) == cleaned@.take(end as int));
    let upper = text::to_ascii_uppercase(slice_subrange(cleaned.as_slice(), 0, end));
    assert(upper@ == seed_digits(s@));
    let decoded = match base32_decode(upper.as_slice()) {
        Ok(decoded) => decoded,
        Err(e) => {
            return Err(e);
        },
    };
    match validate_seed_len(decoded.len()) {
        Ok(_) => Ok(SecretBytes::new(decoded)),
        Err(e) => Err(e),
    }
}

proof fn lemma_without_padding_upper(s: Seq<char>, t: Seq<char>)
    requires
        s.len() == t.len(),
        forall|i: int|
            0 <= i < s.len() ==> text::ascii_upper(#[trigger] s[i]) == text::ascii_upper(t[i]),
    ensures
        without_padding(s).map_values(|c: char| text::ascii_upper(c)) == without_padding(
            t,
        ).map_values(|c: char| text::ascii_upper(c)),
    decreases s.len(),
{
    if s.len() > 0 && s.last() == '=' {
        assert(t.last() == '=');
        lemma_without_padding_upper(s.drop_last(), t.drop_last());
    } else if s.len() > 0 {
        assert(t.last() != '=');
        assert(s.map_values(|c: char| text::ascii_upper(c)) == t.map_values(
            |c: char| text::ascii_upper(c),
        ));
    }
}

proof fn lemma_without_white_upper(s: Seq<char>, t: Seq<char>)
    requires
        s.len() == t.len(),
        forall|i: int|
            0 <= i < s.len() ==> text::ascii_upper(#[trigger] s[i]) == text::ascii_upper(t[i]),
    ensures
        without_white(s).len() == without_white(t).len(),
        forall|i: int|
            0 <= i < without_white(s).len() ==> text::ascii_upper(#[trigger] without_white(s)[i])
                == text::ascii_upper(without_white(t)[i]),
    decreases s.len(),
{
    reveal(Seq::filter);
    if s.len() > 0 {
        lemma_without_white_upper(s.drop_last(), t.drop_last());
        assert(text::ascii_upper(s[s.len() - 1]) == text::ascii_upper(t[s.len() - 1]));
    }
}

/// A seed's letter case does not matter: two texts that differ in the case of
/// ASCII letters alone stand for the same seed.
pub proof fn law_seed_ignores_case(s: Seq<char>, t: Seq<char>)
    requires
        s.map_values(|c: char| text::ascii_upper(c)) == t.map_values(
            |c: char| text::ascii_upper(c),
        ),
    ensures
        seed_of(s) == seed_of(t),
{
    let upper = |c: char| text::ascii_upper(c);
    assert(s.map_values(upper).len() == t.map_values(upper).len());
    assert forall|i: int| 0 <= i < s.len() implies text::ascii_upper(#[trigger] s[i])
        == text::ascii_upper(t[i]) by {
        assert(s.map_values(upper)[i] == t.map_values(upper)[i]);
    }
    lemma_without_white_upper(s, t);
    lemma_without_padding_upper(without_white(s), without_white(t));
}

/// Whitespace in a seed does not matter, wherever it stands.
pub proof fn law_seed_ignores_whitespace(a: Seq<char>, gap: Seq<char>, b: Seq<char>)
    requires
        forall|i: int| 0 <= i < gap.len() ==> text::is_white(#[trigger] gap[i]),
    ensures
        seed_of(a + gap + b) == seed_of(a + b),
{
    let pred = |c: char| !text::is_white(c);
    Seq::filter_distributes_over_add(a + gap, b, pred);
    Seq::filter_distributes_over_add(a, gap, pred);
    Seq::filter_distributes_over_add(a, b, pred);
    if gap.filter(pred).len() > 0 {
        gap.lemma_filter_pred(pred, 0);
        gap.lemma_filter_contains_rev(pred, gap.filter(pred)[0]);
    }
    assert(a.filter(pred) + gap.filter(pred) == a.filter(pred));
}

proof fn lemma_without_padding_more(s: Seq<char>, k: nat)
    ensures
        without_padding(s + Seq::new(k, |i: int| '=')) == without_padding(s),
    decreases k,
{
    let pad = Seq::new(k, |i: int| '=');
    if k == 0 {
        assert(s + pad == s);
    } else {
        assert((s + pad).drop_last() == s + Seq::new((k - 1) as nat, |i: int| '='));
        lemma_without_padding_more(s, (k - 1) as nat);
    }
}

/// Padding at the end of a seed does not matter, however much of it there is.
pub proof fn law_seed_ignores_padding(s: Seq<char>, k: nat)
    ensures
        seed_of(s + Seq::new(k, |i: int| '=')) == seed_of(s),
{
    let pred = |c: char| !text::is_white(c);
    let pad = Seq::new(k, |i: int| '=');
    Seq::filter_distributes_over_add(s, pad, pred);
    assert(pad.filter(pred) == pad) by {
        lemma_padding_stays(k);
    }
    lemma_without_padding_more(without_white(s), k);
}

proof fn lemma_padding_stays(k: nat)
    ensures
        without_white(Seq::new(k, |i: int| '=')) == Seq::new(k, |i: int| '='),
    decreases k,
{
    reveal(Seq::filter);
    let pad = Seq::new(k, |i: int| '=');
    if k > 0 {
        assert(pad.drop_last() == Seq::new((k - 1) as nat, |i: int| '='));
        lemma_padding_stays((k - 1) as nat);
    }
}

/// Every seed that is accepted has the length that an entry can hold, and as many
/// bytes as its digits fill.
pub proof fn law_seed_length(s: Seq<char>)
    ensures
        seed_of(s) matches Ok(seed) ==> 1 <= seed.len() <= 64 && seed.len() == 5 * seed_digits(
            s,
        ).len() / 8,
{
    if let Some(v) = base32_value(seed_digits(s)) {
        let n = seed_digits(s).len();
        lemma_be_bytes_len(v / pow2(5 * n % 8), 5 * n / 8);
    }
}

/// The number that bytes spell, most significant byte first.
pub open spec fn be_value(b: Seq<u8>) -> nat
    decreases b.len(),
{
    if b.len() == 0 {
        0
    } else {
        be_value(b.drop_last()) * 256 + b.last() as nat
    }
}

/// The Base32 digit of value `d`.
pub open spec fn base32_char(d: nat) -> char {
    if d < 26 {
        (('A' as u8 + d) as u8) as char
    } else {
        (('2' as u8 + (d - 26)) as u8) as char
    }
}

/// The last `n` Base32 digits of `v`, most significant digit first.
pub open spec fn base32_digits(v: nat, n: nat) -> Seq<char>
    decreases n,
{
    if n == 0 {
        seq![]
    } else {
        base32_digits(v / 32, (n - 1) as nat).push(base32_char(v % 32))
    }
}

/// The Base32 (RFC 4648) encoding of bytes, without padding: five bits to a digit,
/// with zero bits behind the last byte to fill the last digit.
pub open spec fn base32_text(b: Seq<u8>) -> Seq<char> {
    let n = (8 * b.len() + 4) / 5;
    base32_digits(be_value(b) * pow2((5 * n - 8 * b.len()) as nat), n)
}

proof fn lemma_be_value(b: Seq<u8>)
    ensures
        be_value(b) < pow2(8 * b.len()),
        be_bytes(be_value(b), b.len()) == b,
    decreases b.len(),
{
    lemma2_to64();
    if b.len() == 0 {
        assert(pow2(8 * b.len()) == 1);
        assert(be_bytes(0, 0) == b);
    } else {
        let t = b.drop_last();
        lemma_be_value(t);
        assert(8 * b.len() == 8 * t.len() + 8);
        lemma_pow2_adds(8 * t.len(), 8);
        assert(pow2(8 * b.len()) == pow2(8 * t.len()) * 256);
        let v = be_value(b);
        assert(v / 256 == be_value(t) && v % 256 == b.last() as nat);
        assert(be_bytes(v, b.len()) == be_bytes(v / 256, t.len()).push((v % 256) as u8));
        assert(t.push(b.last()) == b);
    }
}

proof fn lemma_base32_digits(v: nat, n: nat)
    requires
        v < pow2(5 * n),
    ensures
        base32_digits(v, n).len() == n,
        base32_value(base32_digits(v, n)) == Some(v),
        forall|i: int|
            0 <= i < n ==> base32_digit(#[trigger] base32_digits(v, n)[i]) is Some,
    decreases n,
{
    lemma2_to64();
    if n == 0 {
        assert(pow2(5 * n) == 1);
    } else {
        let m = (n - 1) as nat;
        assert(5 * n == 5 * m + 5);
        lemma_pow2_adds(5 * m, 5);
        assert(pow2(5 * n) == pow2(5 * m) * 32);
        lemma_base32_digits(v / 32, m);
        let front = base32_digits(v / 32, m);
        let all = base32_digits(v, n);
        assert(all == front.push(base32_char(v % 32)));
        assert(base32_digit(base32_char(v % 32)) == Some(v % 32));
        assert(all.drop_last() == front);
        assert forall|i: int| 0 <= i < n implies base32_digit(#[trigger] all[i]) is Some by {
            if i < m {
                assert(all[i] == front[i]);
            }
        }
    }
}

proof fn lemma_digits_stay(s: Seq<char>)
    requires
        forall|i: int| 0 <= i < s.len() ==> base32_digit(#[trigger] s[i]) is Some,
    ensures
        without_white(s) == s,
        seed_digits(s) == s,
    decreases s.len(),
{
    reveal(Seq::filter);
    if s.len() > 0 {
        let t = s.drop_last();
        assert forall|i: int| 0 <= i < t.len() implies base32_digit(#[trigger] t[i]) is Some by {
            assert(t[i] == s[i]);
        }
        lemma_digits_stay(t);
        assert(base32_digit(s[s.len() - 1]) is Some);
        assert(t.push(s.last()) == s);
    }
    assert(without_padding(s) == s);
    assert(s.map_values(|c: char| text::ascii_upper(c)) == s) by {
        assert forall|i: int| 0 <= i < s.len() implies text::ascii_upper(#[trigger] s[i])
            == s[i] by {
            assert(base32_digit(s[i]) is Some);
        }
    }
}

/// A seed survives its encoding: the Base32 text of every seed that an entry can
/// hold decodes to that seed.
pub proof fn law_base32_round_trip(seed: Seq<u8>)
    requires
        1 <= seed.len() <= 64,
    ensures
        seed_of(base32_text(seed)) == Ok::<Seq<u8>, Seq<char>>(seed),
{
    let k = seed.len();
    let n = (8 * k + 4) / 5;
    let spare = (5 * n - 8 * k) as nat;
    assert(spare < 5);
    assert(5 * n % 8 == spare && 5 * n / 8 == k);
    let v = be_value(seed);
    let w = v * pow2(spare);
    lemma_be_value(seed);
    lemma_pow2_adds(8 * k, spare);
    lemma_pow2_pos(spare);
    assert(w < pow2(5 * n)) by (nonlinear_arith)
        requires
            w == v * pow2(spare),
            v < pow2(8 * k),
            pow2(spare) > 0,
            pow2(5 * n) == pow2(8 * k) * pow2(spare),
    ;
    lemma_base32_digits(w, n);
    lemma_digits_stay(base32_text(seed));
    assert(w / pow2(spare) == v) by (nonlinear_arith)
        requires
            w == v * pow2(spare),
            pow2(spare) > 0,
    ;
}

// --- laws ----------------------------------------------------------------------

/// What each status word means: `9000` alone is success, the applet's own words
/// have their errors, and any other word is reported as it came.
pub proof fn law_status_words(word: u16)
    ensures
        status_of(word) is Ok <==> word == 0x9000,
        status_of(word) == Err::<(), OtpError>(OtpError::EntryNotFound) <==> word == 0x6A80 || word
            == 0x6A83,
        status_of(word) == Err::<(), OtpError>(OtpError::NotEnoughSpace) <==> word == 0x6A84,
        status_of(word) == Err::<(), OtpError>(OtpError::ButtonPressRequired) <==> word == 0x6FF9,
        status_of(word) == Err::<(), OtpError>(OtpError::HidNotSupported) <==> word == 0x6A86,
        status_of(word) matches Err(OtpError::BadStatusCode(w)) ==> w == word,
{
}

/// An unexpected status word is shown in full: the text ends in `0x` and the four
/// capital hexadecimal digits that spell the word.
pub proof fn law_status_word_is_shown(word: u16)
    ensures
        ({
            let table = seq![
                '0',
                '1',
                '2',
                '3',
                '4',
                '5',
                '6',
                '7',
                '8',
                '9',
                'A',
                'B',
                'C',
                'D',
                'E',
                'F',
            ];
            let t = OtpError::BadStatusCode(word).text();
            let n = t.len() - 6;
            &&& t.take(n) == "unexpected status word "@
            &&& t[n] == '0' && t[n + 1] == 'x'
            &&& t[n + 2] == table[word as int / 4096]
            &&& t[n + 3] == table[word as int / 256 % 16]
            &&& t[n + 4] == table[word as int / 16 % 16]
            &&& t[n + 5] == table[word as int % 16]
        }),
{
    let t = OtpError::BadStatusCode(word).text();
    let n = t.len() - 6;
    assert(t.take(n) == "unexpected status word "@);
}

/// What is wrong is named in full behind the words that say of which kind it is.
pub proof fn law_fault_is_named(m: Seq<char>)
    ensures
        Fault::Malformed(m).text().len() == "malformed response: "@.len() + m.len(),
        "malformed response: "@.is_prefix_of(Fault::Malformed(m).text()),
        m.is_suffix_of(Fault::Malformed(m).text()),
        Fault::Invalid(m).text().len() == "invalid parameter: "@.len() + m.len(),
        "invalid parameter: "@.is_prefix_of(Fault::Invalid(m).text()),
        m.is_suffix_of(Fault::Invalid(m).text()),
        Fault::Truncated.text() == "response truncated mid-record"@,
{
    let a = "malformed response: "@;
    let b = "invalid parameter: "@;
    assert((a + m).subrange(0, a.len() as int) == a);
    assert((a + m).subrange(a.len() as int, (a + m).len() as int) == m);
    assert((b + m).subrange(0, b.len() as int) == b);
    assert((b + m).subrange(b.len() as int, (b + m).len() as int) == m);
}

/// An error of the applet is named by what it says.
pub proof fn law_otp_errors_are_named()
    ensures
        OtpError::EntryNotFound.text() == "entry not found"@,
        OtpError::NotEnoughSpace.text() == "not enough space on device"@,
        OtpError::ButtonPressRequired.text() == "timed out waiting for a button press on the key"@,
        OtpError::HidNotSupported.text() == "HOTP-over-HID is not supported on this model"@,
{
}

/// What a parse error shows is what it holds.
pub proof fn law_parse_error_view(e: ParseError)
    ensures
        match e {
            ParseError::Truncated => e@ == Fault::Truncated,
            ParseError::Malformed(m) => e@ == Fault::Malformed(m@),
            ParseError::Invalid(m) => e@ == Fault::Invalid(m@),
        },
{
}

/// Each byte of a number has its place: byte `i` of `k` is the number divided by
/// 256 as often as bytes follow, as far as a byte holds it.
pub proof fn law_be_bytes(n: nat, k: nat, i: nat)
    requires
        i < k,
    ensures
        be_bytes(n, k).len() == k,
        be_bytes(n, k)[i as int] == (n / pow2((8 * (k - 1 - i)) as nat)) % 256,
    decreases k,
{
    lemma_be_bytes_len(n, k);
    lemma2_to64();
    let j = (k - 1) as nat;
    lemma_be_bytes_len(n / 256, j);
    if i == j {
        assert(8 * (k - 1 - i) == 0);
        assert(n / 1 == n);
    } else {
        law_be_bytes(n / 256, j, i);
        let e = (8 * (j - 1 - i)) as nat;
        lemma_pow2_adds(8, e);
        lemma_pow2_pos(e);
        assert(pow2(8) == 256);
        vstd::arithmetic::div_mod::lemma_div_denominator(n as int, 256, pow2(e) as int);
        assert((8 * (k - 1 - i)) as nat == 8 + e);
    }
}

/// Eight bytes spell every 64-bit number, the most significant first.
pub proof fn law_u64_bytes(n: u64)
    ensures
        ({
            let b = be_bytes(n as nat, 8);
            &&& b.len() == 8
            &&& n == b[0] * 0x100_0000_0000_0000 + b[1] * 0x1_0000_0000_0000 + b[2]
                * 0x100_0000_0000 + b[3] * 0x1_0000_0000 + b[4] * 0x100_0000 + b[5] * 0x1_0000
                + b[6] * 0x100 + b[7]
        }),
{
    let n0 = n as nat;
    let n1 = n0 / 256;
    let n2 = n1 / 256;
    let n3 = n2 / 256;
    let n4 = n3 / 256;
    let n5 = n4 / 256;
    let n6 = n5 / 256;
    let n7 = n6 / 256;
    let b = be_bytes(n0, 8);
    assert(be_bytes(n7 / 256, 0) == Seq::<u8>::empty());
    let c1 = be_bytes(n7, 1);
    assert(c1 == be_bytes(n7 / 256, 0).push((n7 % 256) as u8));
    let c2 = be_bytes(n6, 2);
    assert(c2 == c1.push((n6 % 256) as u8));
    let c3 = be_bytes(n5, 3);
    assert(c3 == c2.push((n5 % 256) as u8));
    let c4 = be_bytes(n4, 4);
    assert(c4 == c3.push((n4 % 256) as u8));
    let c5 = be_bytes(n3, 5);
    assert(c5 == c4.push((n3 % 256) as u8));
    let c6 = be_bytes(n2, 6);
    assert(c6 == c5.push((n2 % 256) as u8));
    let c7 = be_bytes(n1, 7);
    assert(c7 == c6.push((n1 % 256) as u8));
    assert(b == c7.push((n0 % 256) as u8));
    assert(n7 < 256);
}

/// An APDU in bytes: the header as it is; behind it, where there is a body, a zero,
/// the body's length in two bytes, the higher first, and the body; and nothing else.
pub proof fn law_apdu_layout(header: Seq<u8>, data: Seq<u8>)
    requires
        header.len() == 4,
        data.len() <= 0xFFFF,
    ensures
        ({
            let a = apdu(header, data);
            &&& a[0] == header[0] && a[1] == header[1] && a[2] == header[2] && a[3] == header[3]
            &&& data.len() == 0 ==> a.len() == 4
            &&& data.len() > 0 ==> {
                &&& a.len() == 7 + data.len()
                &&& a[4] == 0
                &&& a[5] * 256 + a[6] == data.len()
                &&& forall|i: int| 0 <= i < data.len() ==> a[7 + i] == #[trigger] data[i]
            }
        }),
{
    let n = data.len();
    reveal_with_fuel(be_bytes, 3);
    assert(be_bytes(n, 2) == seq![(n / 256 % 256) as u8, (n % 256) as u8]);
    if n > 0 {
        let a = apdu(header, data);
        assert(a[5] == (n / 256 % 256) as u8 && a[6] == (n % 256) as u8);
    }
}

/// A SELECT in bytes: `00 A4 04 00`, the length of the name, and the name.
pub proof fn law_select_layout(aid: Seq<u8>)
    requires
        aid.len() <= 255,
    ensures
        ({
            let a = select_apdu(aid);
            &&& a.len() == 5 + aid.len()
            &&& a[0] == 0x00 && a[1] == 0xA4 && a[2] == 0x04 && a[3] == 0x00 && a[4] == aid.len()
            &&& forall|i: int| 0 <= i < aid.len() ==> a[5 + i] == #[trigger] aid[i]
        }),
{
}

/// The bytes and numbers that the key is known and commanded by.
pub proof fn law_numbers_of_the_key()
    ensures
        cmd::GET_ECDH_PUBKEY@ == seq![0x80u8, 0xC5, 0x01, 0x00],
        cmd::READ_CONFIG@ == seq![0x80u8, 0xC5, 0x02, 0x00],
        cmd::ENABLE_TOTP@ == seq![0x80u8, 0xC5, 0x02, 0x05],
        cmd::ENUM_CODES@ == seq![0x80u8, 0xC5, 0x05, 0x00],
        cmd::ENUM_CODES_CONTINUE@ == seq![0x80u8, 0xC5, 0x05, 0x01],
        cmd::WRITE_SEED@ == seq![0x80u8, 0xC5, 0x05, 0x02],
        cmd::READ_SERIAL_INS@ == seq![0x80u8, 0x33, 0x00, 0x00],
        cmd::SUB_READ_ONE == 0x01,
        cmd::SUB_READ_ALL == 0x03,
        OTP_APPLET_AID@ == seq![0xF0u8, 0x00, 0x00, 0x01, 0x4F, 0x74, 0x70, 0x01],
        FIDO_APPLET_AID@ == seq![0xA0u8, 0x00, 0x00, 0x06, 0x47, 0x2F, 0x00, 0x01],
        USB_VID == 13470,
        USB_PID == 0x0022,
        FIDO_USAGE_PAGE == 0xF1D0,
        USB_PRODUCT@ == "FIDO2 Security Key"@,
{
}

/// A hexadecimal digit in ASCII: `0` to `9` are worth themselves, `a` to `f` and `A`
/// to `F` ten to fifteen, and nothing else is a digit.
pub proof fn law_hex_digit_value(c: u8)
    ensures
        48 <= c <= 57 ==> nibble_value(c) == Some((c - 48) as u8),
        97 <= c <= 102 ==> nibble_value(c) == Some((c - 87) as u8),
        65 <= c <= 70 ==> nibble_value(c) == Some((c - 55) as u8),
        nibble_value(c) is Some <==> 48 <= c <= 57 || 97 <= c <= 102 || 65 <= c <= 70,
{
}

/// Hexadecimal characters are read in pairs, in order, each pair as one byte with the
/// higher half first. An odd number of them, and a character that is no digit, are
/// refused.
pub proof fn law_hex_is_read(hex: Seq<u8>, i: int)
    ensures
        hex.len() % 2 == 1 ==> hex_bytes(hex) == Err::<Seq<u8>, Fault>(
            Fault::Malformed("serial hex length is odd"@),
        ),
        hex.len() % 2 == 0 && 0 <= i < hex.len() && nibble_value(hex[i]) is None ==> hex_bytes(hex)
            == Err::<Seq<u8>, Fault>(Fault::Malformed("non-hex char in serial"@)),
        hex.len() % 2 == 0 && (forall|j: int|
            0 <= j < hex.len() ==> nibble_value(#[trigger] hex[j]) is Some) ==> {
            &&& hex_bytes(hex) is Ok
            &&& 2 * hex_bytes(hex)->Ok_0.len() == hex.len()
            &&& 0 <= i < hex_bytes(hex)->Ok_0.len() ==> hex_bytes(hex)->Ok_0[i] == nibble_value(
                hex[2 * i],
            )->0 * 16 + nibble_value(hex[2 * i + 1])->0
        },
{
    if 0 <= 2 * i && 2 * i + 1 < hex.len() {
        law_hex_digit_value(hex[2 * i]);
        law_hex_digit_value(hex[2 * i + 1]);
    }
}

/// A serial number in a response: behind `D1` and the count of characters, each pair
/// of hexadecimal characters gives one byte, in order. What follows is not looked
/// at; a response without all of it is truncated, and an odd count or a character
/// that is no digit is malformed.
pub proof fn law_serial_is_read(data: Seq<u8>, i: int)
    ensures
        (serial_of(data) == Err::<Seq<u8>, Fault>(Fault::Truncated)) <==> (data.len() < 2
            || data[0] != 0xD1 || data.len() < 2 + data[1]),
        serial_of(data) matches Ok(serial) ==> {
            &&& 2 * serial.len() == data[1]
            &&& 0 <= i < serial.len() ==> {
                &&& nibble_value(data[2 + 2 * i]) is Some
                &&& nibble_value(data[3 + 2 * i]) is Some
                &&& serial[i] == nibble_value(data[2 + 2 * i])->0 * 16 + nibble_value(
                    data[3 + 2 * i],
                )->0
            }
        },
        data.len() >= 2 && data[0] == 0xD1 && data.len() >= 2 + data[1] && data[1] % 2 == 1
            ==> serial_of(data) == Err::<Seq<u8>, Fault>(
            Fault::Malformed("serial hex length is odd"@),
        ),
        serial_of(data) is Err && data.len() >= 2 && data[0] == 0xD1 && data.len() >= 2 + data[1]
            && data[1] % 2 == 0 ==> serial_of(data) == Err::<Seq<u8>, Fault>(
            Fault::Malformed("non-hex char in serial"@),
        ) && exists|j: int| 2 <= j < 2 + data[1] && nibble_value(#[trigger] data[j]) is None,
{
    if data.len() >= 2 && data[0] == 0xD1 && data.len() >= 2 + data[1] {
        let hex = data.subrange(2, 2 + data[1]);
        assert(forall|i: int| 0 <= i < hex.len() ==> #[trigger] hex[i] == data[2 + i]);
        if let Ok(serial) = serial_of(data) {
            assert(hex.len() == data[1]);
            if 0 <= i < serial.len() {
                assert(hex[2 * i] == data[2 + 2 * i] && hex[2 * i + 1] == data[3 + 2 * i]);
                assert(nibble_value(hex[2 * i]) is Some && nibble_value(hex[2 * i + 1]) is Some);
            }
        } else if data[1] % 2 == 0 {
            let j = choose|j: int| 0 <= j < hex.len() && nibble_value(#[trigger] hex[j]) is None;
            assert(nibble_value(data[2 + j]) is None);
        }
    }
}

/// Bytes are shown in hexadecimal two characters to a byte, in order: the digit of
/// the higher half, then that of the lower.
pub proof fn law_hex_text(bytes: Seq<u8>, i: int)
    requires
        0 <= i < bytes.len(),
    ensures
        ({
            let table = seq![
                '0',
                '1',
                '2',
                '3',
                '4',
                '5',
                '6',
                '7',
                '8',
                '9',
                'a',
                'b',
                'c',
                'd',
                'e',
                'f',
            ];
            &&& hex_text(bytes).len() == 2 * bytes.len()
            &&& hex_text(bytes)[2 * i] == table[bytes[i] as int / 16]
            &&& hex_text(bytes)[2 * i + 1] == table[bytes[i] as int % 16]
        }),
{
    lemma_hex_text(bytes);
    text::law_hex_digits(0, bytes[i]);
}

/// Each field of a device-info block stands at its own place, and what a short
/// block lacks is zero.
pub proof fn law_device_info_fields(info: DeviceInfo, data: Seq<u8>)
    requires
        info.describes(data),
    ensures
        info.raw_len == data.len(),
        data.len() > 0 ==> info.transfer_type == data[0],
        data.len() > 1 ==> info.device_config == data[1],
        forall|i: int| 0 <= i < 4 && 2 + i < data.len() ==> #[trigger] info.appearance@[i] == data[2
            + i],
        forall|i: int| 0 <= i < 3 && 6 + i < data.len() ==> #[trigger] info.fido_version@[i]
            == data[6 + i],
        data.len() > 9 ==> info.device_extension == data[9],
        data.len() == 0 ==> info.transfer_type == 0,
        data.len() <= 1 ==> info.device_config == 0,
        forall|i: int| 0 <= i < 4 && 2 + i >= data.len() ==> #[trigger] info.appearance@[i] == 0,
        forall|i: int| 0 <= i < 3 && 6 + i >= data.len() ==> #[trigger] info.fido_version@[i] == 0,
        data.len() <= 9 ==> info.device_extension == 0,
{
}

/// A decoded seed has 1 to 64 bytes; any other length is refused, with the reason.
pub proof fn law_seed_lengths(len: nat)
    ensures
        seed_len_check(len) is Ok <==> 1 <= len <= 64,
        len == 0 ==> seed_len_check(len) == Err::<(), Seq<char>>(
            "seed is empty after Base32 decode"@,
        ),
        len > 64 ==> seed_len_check(len) == Err::<(), Seq<char>>(
            "seed exceeds 64 bytes after Base32 decode"@,
        ),
{
}

/// The Base32 alphabet: `A` to `Z` are worth 0 to 25, `2` to `7` 26 to 31, and
/// nothing else is a digit.
pub proof fn law_base32_alphabet(c: char)
    ensures
        65 <= c as int <= 90 ==> base32_digit(c) == Some((c as int - 65) as nat),
        50 <= c as int <= 55 ==> base32_digit(c) == Some((c as int - 24) as nat),
        base32_digit(c) is Some <==> 65 <= c as int <= 90 || 50 <= c as int <= 55,
{
}

proof fn lemma_base32_all_digits(s: Seq<char>)
    ensures
        base32_value(s) is Some <==> forall|i: int|
            0 <= i < s.len() ==> base32_digit(#[trigger] s[i]) is Some,
    decreases s.len(),
{
    if s.len() > 0 {
        let t = s.drop_last();
        lemma_base32_all_digits(t);
        if base32_value(s) is Some {
            assert forall|i: int| 0 <= i < s.len() implies base32_digit(#[trigger] s[i]) is Some by {
                if i < t.len() {
                    assert(t[i] == s[i]);
                }
            }
        }
        if forall|i: int| 0 <= i < s.len() ==> base32_digit(#[trigger] s[i]) is Some {
            assert(base32_digit(s[s.len() - 1]) is Some);
            assert forall|i: int| 0 <= i < t.len() implies base32_digit(#[trigger] t[i]) is Some by {
                assert(t[i] == s[i]);
            }
        }
    }
}

/// What stands above the lowest `n` bits does not reach bit `e` of them.
proof fn lemma_low_bit(h: nat, l: nat, e: nat, n: nat)
    requires
        e < n,
    ensures
        ((h * pow2(n) + l) / pow2(e)) % 2 == (l / pow2(e)) % 2,
{
    let p = pow2(e) as int;
    let q = pow2((n - e - 1) as nat) as int;
    let k = h * q;
    lemma_pow2_pos(e);
    lemma_pow2_adds(e, (n - e) as nat);
    lemma_pow2_adds(1, (n - e - 1) as nat);
    assert(pow2(1) == 2) by {
        lemma2_to64();
    }
    assert(h * pow2(n) == (2 * k) * p) by (nonlinear_arith)
        requires
            pow2(n) == p * (2 * q),
            k == h * q,
    ;
    vstd::arithmetic::div_mod::lemma_hoist_over_denominator(l as int, 2 * k, p as nat);
    vstd::arithmetic::div_mod::lemma_mod_multiples_vanish(k, l as int / p, 2);
}

proof fn lemma_low_bit_of_sum(v: nat, d: nat, e: nat)
    requires
        d < 32,
        e <= 4,
    ensures
        ((v * 32 + d) / pow2(e)) % 2 == (d / pow2(e)) % 2,
{
    assert(pow2(5) == 32) by {
        lemma2_to64();
    }
    lemma_low_bit(v, d, e, 5);
}

proof fn lemma_low_bit_of_byte(w: nat, e: nat)
    requires
        e <= 7,
    ensures
        ((w % 256) / pow2(e)) % 2 == (w / pow2(e)) % 2,
{
    assert(pow2(8) == 256) by {
        lemma2_to64();
    }
    lemma_low_bit(w / 256, w % 256, e, 8);
}

proof fn lemma_shift_twice(v: nat, a: nat, b: nat)
    ensures
        v / pow2(a) / pow2(b) == v / pow2(a + b),
{
    lemma_pow2_adds(a, b);
    lemma_pow2_pos(a);
    lemma_pow2_pos(b);
    vstd::arithmetic::div_mod::lemma_div_denominator(v as int, pow2(a) as int, pow2(b) as int);
}

proof fn lemma_base32_value_bit(s: Seq<char>, k: nat)
    requires
        base32_value(s) is Some,
        k < 5 * s.len(),
    ensures
        base32_digit(s[k as int / 5]) is Some,
        (base32_value(s)->0 / pow2((5 * s.len() - 1 - k) as nat)) % 2 == (base32_digit(
            s[k as int / 5],
        )->0 / pow2((4 - k % 5) as nat)) % 2,
    decreases s.len(),
{
    let t = s.drop_last();
    let v = base32_value(t)->0;
    let d = base32_digit(s.last())->0;
    let n = s.len();
    if k >= 5 * t.len() {
        assert(k / 5 == n - 1);
        assert(5 * n - 1 - k == 4 - k % 5);
        lemma_low_bit_of_sum(v, d, (4 - k % 5) as nat);
    } else {
        lemma_base32_value_bit(t, k);
        let e = (5 * t.len() - 1 - k) as nat;
        assert((5 * n - 1 - k) as nat == 5 + e);
        lemma2_to64();
        lemma_shift_twice(v * 32 + d, 5, e);
        assert((v * 32 + d) / 32 == v);
        assert(t[k as int / 5] == s[k as int / 5]);
    }
}

proof fn lemma_be_bytes_bit(w: nat, m: nat, k: nat)
    requires
        k < 8 * m,
    ensures
        be_bytes(w, m).len() == m,
        (be_bytes(w, m)[k as int / 8] as nat / pow2((7 - k % 8) as nat)) % 2 == (w / pow2(
            (8 * m - 1 - k) as nat,
        )) % 2,
    decreases m,
{
    let j = (m - 1) as nat;
    lemma_be_bytes_len(w, m);
    lemma_be_bytes_len(w / 256, j);
    if k >= 8 * j {
        assert(k / 8 == j);
        assert(8 * m - 1 - k == 7 - k % 8);
        assert(be_bytes(w, m)[j as int] == (w % 256) as u8);
        lemma_low_bit_of_byte(w, (7 - k % 8) as nat);
    } else {
        lemma_be_bytes_bit(w / 256, j, k);
        let e = (8 * j - 1 - k) as nat;
        assert((8 * m - 1 - k) as nat == 8 + e);
        lemma2_to64();
        lemma_shift_twice(w, 8, e);
        assert(be_bytes(w, m)[k as int / 8] == be_bytes(w / 256, j)[k as int / 8]);
    }
}

/// Base32 bit by bit: written one behind the other, the five bits of each digit and
/// the eight bits of each byte, the highest first, are the same bits, as far as
/// they fill whole bytes. There are bytes exactly where every character is a digit.
pub proof fn law_base32_bits(s: Seq<char>, k: nat)
    ensures
        base32_bytes(s) is Some <==> forall|i: int|
            0 <= i < s.len() ==> base32_digit(#[trigger] s[i]) is Some,
        base32_bytes(s) matches Some(b) ==> {
            &&& b.len() == 5 * s.len() / 8
            &&& k < 8 * b.len() ==> (b[k as int / 8] as nat / pow2((7 - k % 8) as nat)) % 2 == (
            base32_digit(s[k as int / 5])->0 / pow2((4 - k % 5) as nat)) % 2
        },
{
    lemma_base32_all_digits(s);
    if let Some(b) = base32_bytes(s) {
        let v = base32_value(s)->0;
        let r = 5 * s.len() % 8;
        let m = 5 * s.len() / 8;
        let w = v / pow2(r);
        lemma_be_bytes_len(w, m);
        if k < 8 * m {
            lemma_be_bytes_bit(w, m, k);
            lemma_base32_value_bit(s, k);
            lemma_shift_twice(v, r, (8 * m - 1 - k) as nat);
            assert(r + (8 * m - 1 - k) as nat == (5 * s.len() - 1 - k) as nat);
        }
    }
}

/// A text of Base32 digits stands for the bytes that they spell, all of them, where
/// an entry can hold as many.
pub proof fn law_seed_of_digits(s: Seq<char>)
    requires
        forall|i: int| 0 <= i < s.len() ==> base32_digit(#[trigger] s[i]) is Some,
    ensures
        seed_digits(s) == s,
        base32_bytes(s) is Some,
        1 <= 5 * s.len() / 8 <= 64 ==> seed_of(s) == Ok::<Seq<u8>, Seq<char>>(base32_bytes(s)->0),
        5 * s.len() / 8 == 0 ==> seed_of(s) == Err::<Seq<u8>, Seq<char>>(
            "seed is empty after Base32 decode"@,
        ),
        5 * s.len() / 8 > 64 ==> seed_of(s) == Err::<Seq<u8>, Seq<char>>(
            "seed exceeds 64 bytes after Base32 decode"@,
        ),
{
    lemma_digits_stay(s);
    law_base32_bits(s, 0);
}

proof fn lemma_padding_ends(t: Seq<char>, j: int)
    requires
        0 <= j < t.len(),
        t[j] != '=',
    ensures
        j < without_padding(t).len() <= t.len(),
        forall|i: int| 0 <= i <= j ==> without_padding(t)[i] == #[trigger] t[i],
    decreases t.len(),
{
    if t.last() == '=' {
        lemma_padding_ends(t.drop_last(), j);
        assert forall|i: int| 0 <= i <= j implies without_padding(t)[i] == #[trigger] t[i] by {
            assert(t.drop_last()[i] == t[i]);
        }
    }
}

/// A character that is neither white space nor padding nor, in either letter case, a
/// digit spoils a seed, wherever it stands.
pub proof fn law_seed_refuses_other_characters(s: Seq<char>, i: int)
    requires
        0 <= i < s.len(),
        !text::is_white(s[i]),
        s[i] != '=',
        base32_digit(text::ascii_upper(s[i])) is None,
    ensures
        seed_of(s) == Err::<Seq<u8>, Seq<char>>("invalid Base32 character in seed"@),
{
    let pred = |c: char| !text::is_white(c);
    s.lemma_filter_contains(pred, i);
    let t = without_white(s);
    let j = choose|j: int| 0 <= j < t.len() && t[j] == s[i];
    lemma_padding_ends(t, j);
    lemma_base32_all_digits(seed_digits(s));
    assert(seed_digits(s)[j] == text::ascii_upper(t[j]));
}

/// Padding may stand at the end alone: before anything but white space and more
/// padding it spoils a seed.
pub proof fn law_seed_refuses_padding_inside(a: Seq<char>, b: Seq<char>, i: int)
    requires
        0 <= i < b.len(),
        !text::is_white(b[i]),
        b[i] != '=',
    ensures
        seed_of(a + seq!['='] + b) == Err::<Seq<u8>, Seq<char>>(
            "invalid Base32 character in seed"@,
        ),
{
    let pred = |c: char| !text::is_white(c);
    let s = a + seq!['='] + b;
    Seq::filter_distributes_over_add(a + seq!['='], b, pred);
    Seq::filter_distributes_over_add(a, seq!['='], pred);
    assert(seq!['='].filter(pred) == seq!['=']) by {
        reveal(Seq::filter);
        let one = seq!['='];
        assert(one.drop_last() == Seq::<char>::empty());
        assert(one.drop_last().filter(pred) == Seq::<char>::empty());
        assert(pred('='));
        assert(one.filter(pred) == Seq::<char>::empty().push('='));
    }
    b.lemma_filter_contains(pred, i);
    let fa = a.filter(pred);
    let fb = b.filter(pred);
    let j = choose|j: int| 0 <= j < fb.len() && fb[j] == b[i];
    let t = without_white(s);
    assert(t == fa + seq!['='] + fb);
    let at = fa.len() as int;
    assert(t[at] == '=');
    assert(t[at + 1 + j] == b[i]);
    lemma_padding_ends(t, at + 1 + j);
    lemma_base32_all_digits(seed_digits(s));
    assert(without_padding(t)[at] == t[at]);
    assert(seed_digits(s)[at] == text::ascii_upper('='));
}

} // verus!
