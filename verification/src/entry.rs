//! OTP entry types, the write/read/delete payload serializers, and the
//! variable-tail `ENUM_CODES` response parser.
//!
//! The subtlest rule: in a READ_ALL page, an entry's trailing
//! `otp_code_len || otp_code` is present **only** when the entry is TOTP *and*
//! its button-required flag is clear. Entries carry no length prefix, so a
//! parser that gets this branch wrong desynchronizes across the rest of the
//! page. READ_ONE responses always include the code.

use crate::hidframe;
use crate::proto;
use crate::proto::{cmd, Fault, ParseError};
use crate::secret::SecretBytes;
use crate::text;
use crate::AUTO_TAG;
use vstd::arithmetic::power2::*;
use vstd::prelude::*;
use vstd::slice::slice_subrange;
use vstd::utf8::*;

verus! {

/// OTP type byte: `00` = HOTP, `01` = TOTP.
#[derive(Debug, Clone, Copy, PartialEq, Eq, Structural)]
pub enum OtpType {
    Hotp,
    Totp,
}

impl OtpType {
    /// The byte that stands for the type.
    pub open spec fn byte(self) -> u8 {
        match self {
            OtpType::Hotp => 0x00,
            OtpType::Totp => 0x01,
        }
    }

    /// The type that a byte stands for.
    pub open spec fn of_byte(b: u8) -> Option<OtpType> {
        if b == 0x00 {
            Some(OtpType::Hotp)
        } else if b == 0x01 {
            Some(OtpType::Totp)
        } else {
            None
        }
    }

    pub fn to_byte(self) -> (b: u8)
        ensures
            b == self.byte(),
    {
        match self {
            OtpType::Hotp => 0x00,
            OtpType::Totp => 0x01,
        }
    }

    pub fn from_byte(b: u8) -> (r: Option<Self>)
        ensures
            r == OtpType::of_byte(b),
    {
        match b {
            0x00 => Some(OtpType::Hotp),
            0x01 => Some(OtpType::Totp),
            _ => None,
        }
    }

    /// The type's name.
    pub open spec fn name(self) -> Seq<char> {
        match self {
            OtpType::Hotp => "HOTP"@,
            OtpType::Totp => "TOTP"@,
        }
    }

    pub fn as_str(self) -> (s: &'static str)
        ensures
            s@ == self.name(),
    {
        match self {
            OtpType::Hotp => "HOTP",
            OtpType::Totp => "TOTP",
        }
    }
}

/// HMAC algorithm byte: `C1` = SHA1, `C2` = SHA256.
#[derive(Debug, Clone, Copy, PartialEq, Eq, Structural)]
pub enum Algorithm {
    Sha1,
    Sha256,
}

impl Algorithm {
    /// The byte that stands for the algorithm.
    pub open spec fn byte(self) -> u8 {
        match self {
            Algorithm::Sha1 => 0xC1,
            Algorithm::Sha256 => 0xC2,
        }
    }

    /// The algorithm that a byte stands for.
    pub open spec fn of_byte(b: u8) -> Option<Algorithm> {
        if b == 0xC1 {
            Some(Algorithm::Sha1)
        } else if b == 0xC2 {
            Some(Algorithm::Sha256)
        } else {
            None
        }
    }

    pub fn to_byte(self) -> (b: u8)
        ensures
            b == self.byte(),
    {
        match self {
            Algorithm::Sha1 => 0xC1,
            Algorithm::Sha256 => 0xC2,
        }
    }

    pub fn from_byte(b: u8) -> (r: Option<Self>)
        ensures
            r == Algorithm::of_byte(b),
    {
        match b {
            0xC1 => Some(Algorithm::Sha1),
            0xC2 => Some(Algorithm::Sha256),
            _ => None,
        }
    }

    /// The algorithm's name.
    pub open spec fn name(self) -> Seq<char> {
        match self {
            Algorithm::Sha1 => "SHA1"@,
            Algorithm::Sha256 => "SHA256"@,
        }
    }

    pub fn as_str(self) -> (s: &'static str)
        ensures
            s@ == self.name(),
    {
        match self {
            Algorithm::Sha1 => "SHA1",
            Algorithm::Sha256 => "SHA256",
        }
    }
}

/// Reading back the byte of an OTP type gives the type, and a byte that is read
/// as a type is that type's byte.
pub proof fn law_otp_type_byte_round_trip(t: OtpType, b: u8)
    ensures
        OtpType::of_byte(t.byte()) == Some(t),
        OtpType::of_byte(b) matches Some(u) ==> u.byte() == b,
{
}

/// Reading back the byte of an algorithm gives the algorithm, and a byte that is
/// read as an algorithm is that algorithm's byte.
pub proof fn law_algorithm_byte_round_trip(a: Algorithm, b: u8)
    ensures
        Algorithm::of_byte(a.byte()) == Some(a),
        Algorithm::of_byte(b) matches Some(u) ==> u.byte() == b,
{
}

/// A parsed entry as returned by `ENUM_CODES` / READ_ONE.
#[derive(Debug, Clone, PartialEq, Eq)]
pub struct Entry {
    pub otp_type: OtpType,
    pub algorithm: Algorithm,
    pub timestep: u16,
    pub code_length: u8,
    pub button_required: bool,
    pub app_name: String,
    pub account_name: String,
    pub code: Option<String>,
}

/// An entry with its texts as characters.
#[verifier::ext_equal]
pub struct EntryView {
    pub otp_type: OtpType,
    pub algorithm: Algorithm,
    pub timestep: u16,
    pub code_length: u8,
    pub button_required: bool,
    pub app_name: Seq<char>,
    pub account_name: Seq<char>,
    pub code: Option<Seq<char>>,
}

impl View for Entry {
    type V = EntryView;

    open spec fn view(&self) -> EntryView {
        EntryView {
            otp_type: self.otp_type,
            algorithm: self.algorithm,
            timestep: self.timestep,
            code_length: self.code_length,
            button_required: self.button_required,
            app_name: self.app_name@,
            account_name: self.account_name@,
            code: match self.code {
                Some(code) => Some(code@),
                None => None,
            },
        }
    }
}

/// How a profile is named to a user: `issuer:account`, or the account alone
/// where there is no issuer.
pub open spec fn profile_label(app_name: Seq<char>, account_name: Seq<char>) -> Seq<char> {
    if app_name.len() == 0 {
        account_name
    } else {
        app_name + seq![':'] + account_name
    }
}

/// How a profile is named to a user.
pub fn label_of(app_name: &str, account_name: &str) -> (s: String)
    ensures
        s@ == profile_label(app_name@, account_name@),
{
    if app_name.is_empty() {
        text::owned(account_name)
    } else {
        let mut s = text::owned(app_name);
        s.push(':');
        text::append(&mut s, account_name);
        assert(s@ == app_name@ + seq![':'] + account_name@);
        s
    }
}

impl EntryView {
    /// Whether the entry's issuer carries the Auto-OTP tag.
    pub open spec fn is_auto(self) -> bool {
        text::occurs(self.app_name, AUTO_TAG@)
    }

    /// How the entry is named to a user.
    pub open spec fn label(self) -> Seq<char> {
        profile_label(self.app_name, self.account_name)
    }
}

impl Entry {
    /// Whether the entry's issuer carries the Auto-OTP tag.
    pub fn is_auto(&self) -> (r: bool)
        ensures
            r == self@.is_auto(),
    {
        text::contains(self.app_name.as_str(), AUTO_TAG)
    }

    /// How the entry is named to a user.
    pub fn label(&self) -> (s: String)
        ensures
            s@ == self@.label(),
    {
        label_of(self.app_name.as_str(), self.account_name.as_str())
    }
}

/// Parameters for provisioning (or overwriting) an entry via `WRITE_SEED`. The
/// seed is the raw, Base32-decoded shared secret.
pub struct WriteEntry<'a> {
    pub otp_type: OtpType,
    pub algorithm: Algorithm,
    pub timestep: u16,
    pub code_length: u8,
    pub button_required: bool,
    pub app_name: &'a str,
    pub account_name: &'a str,
    pub seed: &'a [u8],
}

/// One page of a paginated READ_ALL.
#[derive(Debug, Clone, PartialEq, Eq)]
pub struct EnumPage {
    pub entries: Vec<Entry>,
    pub more_pages: bool,
}

/// The entries, each with its texts as characters.
pub open spec fn entry_views(entries: Seq<Entry>) -> Seq<EntryView> {
    entries.map_values(|e: Entry| e@)
}

// --- what an entry may hold ----------------------------------------------------

/// What is wrong with an entry's names, if anything is.
pub open spec fn names_check(app_name: Seq<char>, account_name: Seq<char>) -> Result<(), Fault> {
    if !is_ascii_chars(app_name) || app_name.len() > 64 {
        Err(Fault::Invalid("app_name must be ASCII, 0..=64 bytes"@))
    } else if !is_ascii_chars(account_name) || account_name.len() == 0 || account_name.len() > 64 {
        Err(Fault::Invalid("account_name must be ASCII, 1..=64 bytes"@))
    } else {
        Ok(())
    }
}

/// What is wrong with an entry's parameters, if anything is. The first fault
/// counts.
pub open spec fn common_check(
    timestep: u16,
    code_length: u8,
    app_name: Seq<char>,
    account_name: Seq<char>,
    is_totp: bool,
) -> Result<(), Fault> {
    if is_totp && timestep == 0 {
        Err(Fault::Invalid("timestep must be 1..=0xFFFF for TOTP"@))
    } else if !(4 <= code_length <= 10) {
        Err(Fault::Invalid("code_length must be 4..=10"@))
    } else {
        names_check(app_name, account_name)
    }
}

fn validate_names(app_name: &str, account_name: &str) -> (r: Result<(), ParseError>)
    ensures
        match r {
            Ok(_) => names_check(app_name@, account_name@) is Ok,
            Err(e) => names_check(app_name@, account_name@) == Err::<(), Fault>(e@),
        },
{
    if !app_name.is_ascii() || text::to_ascii(app_name).len() > 64 {
        return Err(ParseError::Invalid("app_name must be ASCII, 0..=64 bytes"));
    }
    if !account_name.is_ascii() || account_name.is_empty() || text::to_ascii(account_name).len()
        > 64 {
        return Err(ParseError::Invalid("account_name must be ASCII, 1..=64 bytes"));
    }
    Ok(())
}

/// Check an entry's parameters before anything is sent.
pub fn validate_common(
    timestep: u16,
    code_length: u8,
    app_name: &str,
    account_name: &str,
    is_totp: bool,
) -> (r: Result<(), ParseError>)
    ensures
        match r {
            Ok(_) => common_check(
                timestep,
                code_length,
                app_name@,
                account_name@,
                is_totp,
            ) is Ok,
            Err(e) => common_check(timestep, code_length, app_name@, account_name@, is_totp)
                == Err::<(), Fault>(e@),
        },
{
    if is_totp && timestep == 0 {
        return Err(ParseError::Invalid("timestep must be 1..=0xFFFF for TOTP"));
    }
    if !(4 <= code_length && code_length <= 10) {
        return Err(ParseError::Invalid("code_length must be 4..=10"));
    }
    validate_names(app_name, account_name)
}

// --- requests ------------------------------------------------------------------

/// A text with its length before it: `u8(len) || text`.
pub open spec fn text_field(s: Seq<char>) -> Seq<u8> {
    seq![s.len() as u8] + text::ascii_bytes(s)
}

fn push_text_field(buf: &mut Vec<u8>, s: &str)
    requires
        is_ascii_chars(s@),
        s@.len() <= 64,
    ensures
        final(buf)@ == old(buf)@ + text_field(s@),
{
    let bytes = text::to_ascii(s);
    buf.push(bytes.len() as u8);
    buf.extend_from_slice(bytes);
    assert(buf@ == old(buf)@ + text_field(s@));
}

/// The six bytes that open an entry, in a write and in a response alike.
pub open spec fn entry_head(
    otp_type: OtpType,
    algorithm: Algorithm,
    timestep: u16,
    code_length: u8,
    button_required: bool,
) -> Seq<u8> {
    seq![
        otp_type.byte(),
        algorithm.byte(),
        (timestep / 256) as u8,
        (timestep % 256) as u8,
        code_length,
        if button_required {
            1u8
        } else {
            0u8
        },
    ]
}

impl<'a> WriteEntry<'a> {
    /// What keeps the entry from being written, if anything does. The first fault
    /// counts.
    pub open spec fn check(self) -> Result<(), Fault> {
        match common_check(
            self.timestep,
            self.code_length,
            self.app_name@,
            self.account_name@,
            self.otp_type is Totp,
        ) {
            Err(f) => Err(f),
            Ok(_) => if self.seed@.len() == 0 || self.seed@.len() > 64 {
                Err(Fault::Invalid("seed must be 1..=64 bytes (decoded)"@))
            } else {
                Ok(())
            },
        }
    }

    /// The cleartext of the write: head, names, and the seed with its length
    /// before it.
    pub open spec fn payload(self) -> Seq<u8> {
        entry_head(
            self.otp_type,
            self.algorithm,
            self.timestep,
            self.code_length,
            self.button_required,
        ) + text_field(self.app_name@) + text_field(self.account_name@) + seq![
            self.seed@.len() as u8,
        ] + self.seed@
    }
}

/// Serialize the cleartext payload for a write. This plaintext is then encrypted
/// by the ECDH+AES layer. Scrubbed on drop (carries the raw seed).
pub fn serialize_write_entry(e: &WriteEntry<'_>) -> (r: Result<ClearText, ParseError>)
    ensures
        match r {
            Ok(ct) => e.check() is Ok && ct@ == e.payload(),
            Err(err) => e.check() == Err::<(), Fault>(err@),
        },
{
    match validate_common(
        e.timestep,
        e.code_length,
        e.app_name,
        e.account_name,
        matches!(e.otp_type, OtpType::Totp),
    ) {
        Ok(_) => {},
        Err(err) => {
            return Err(err);
        },
    }
    if e.seed.len() == 0 || e.seed.len() > 64 {
        return Err(ParseError::Invalid("seed must be 1..=64 bytes (decoded)"));
    }
    proof {
        vstd::string::is_ascii_spec_bytes(e.app_name);
        vstd::string::is_ascii_spec_bytes(e.account_name);
    }
    let mut buf: Vec<u8> = Vec::with_capacity(
        11 + e.app_name.len() + e.account_name.len() + e.seed.len(),
    );
    buf.push(e.otp_type.to_byte());
    buf.push(e.algorithm.to_byte());
    buf.push((e.timestep / 256) as u8);
    buf.push((e.timestep % 256) as u8);
    buf.push(e.code_length);
    buf.push(
        if e.button_required {
            1
        } else {
            0
        },
    );
    assert(buf@ == entry_head(
        e.otp_type,
        e.algorithm,
        e.timestep,
        e.code_length,
        e.button_required,
    ));
    push_text_field(&mut buf, e.app_name);
    push_text_field(&mut buf, e.account_name);
    buf.push(e.seed.len() as u8);
    buf.extend_from_slice(e.seed);
    assert(buf@ == e.payload());
    Ok(ClearText::new(buf))
}

/// The cleartext of a delete: a write with its config fields zeroed and an empty
/// seed.
pub open spec fn delete_payload(app_name: Seq<char>, account_name: Seq<char>) -> Seq<u8> {
    seq![0x00u8, 0x00, 0x00, 0x00, 0x00, 0x00] + text_field(app_name) + text_field(account_name)
        + seq![0x00u8]
}

/// Serialize the cleartext for a delete: same shape as a write but with config
/// fields zeroed and an empty seed.
pub fn serialize_delete_entry(app_name: &str, account_name: &str) -> (r: Result<
    ClearText,
    ParseError,
>)
    ensures
        match r {
            Ok(ct) => names_check(app_name@, account_name@) is Ok && ct@ == delete_payload(
                app_name@,
                account_name@,
            ),
            Err(e) => names_check(app_name@, account_name@) == Err::<(), Fault>(e@),
        },
{
    match validate_names(app_name, account_name) {
        Ok(_) => {},
        Err(e) => {
            return Err(e);
        },
    }
    proof {
        vstd::string::is_ascii_spec_bytes(app_name);
        vstd::string::is_ascii_spec_bytes(account_name);
    }
    let mut buf: Vec<u8> = Vec::with_capacity(9 + app_name.len() + account_name.len());
    buf.extend_from_slice(&[0x00, 0x00, 0x00, 0x00, 0x00, 0x00]);
    assert(buf@ == seq![0x00u8, 0x00, 0x00, 0x00, 0x00, 0x00]);
    push_text_field(&mut buf, app_name);
    push_text_field(&mut buf, account_name);
    buf.push(0x00);
    assert(buf@ == delete_payload(app_name@, account_name@));
    Ok(ClearText::new(buf))
}

/// The body of a READ_ONE request.
pub open spec fn read_payload(
    timestamp: u64,
    app_name: Seq<char>,
    account_name: Seq<char>,
) -> Seq<u8> {
    seq![cmd::SUB_READ_ONE] + proto::be_bytes(timestamp as nat, 8) + text_field(app_name)
        + text_field(account_name)
}

/// Serialize the READ_ONE request body:
/// `01 || u64_be(ts) || u8(app_len) || app || u8(acct_len) || acct`.
pub fn serialize_read_entry(timestamp: u64, app_name: &str, account_name: &str) -> (r: Result<
    Vec<u8>,
    ParseError,
>)
    ensures
        match r {
            Ok(buf) => names_check(app_name@, account_name@) is Ok && buf@ == read_payload(
                timestamp,
                app_name@,
                account_name@,
            ),
            Err(e) => names_check(app_name@, account_name@) == Err::<(), Fault>(e@),
        },
{
    match validate_names(app_name, account_name) {
        Ok(_) => {},
        Err(e) => {
            return Err(e);
        },
    }
    let mut buf: Vec<u8> = Vec::new();
    buf.push(cmd::SUB_READ_ONE);
    buf.extend_from_slice(proto::u64_be(timestamp).as_slice());
    assert(buf@ == seq![cmd::SUB_READ_ONE] + proto::be_bytes(timestamp as nat, 8));
    push_text_field(&mut buf, app_name);
    push_text_field(&mut buf, account_name);
    Ok(buf)
}

/// A serialized cleartext payload that is scrubbed on drop (it may carry a raw
/// OTP seed).
pub struct ClearText(SecretBytes);

impl View for ClearText {
    type V = Seq<u8>;

    closed spec fn view(&self) -> Seq<u8> {
        self.0@
    }
}

impl ClearText {
    fn new(bytes: Vec<u8>) -> (ct: ClearText)
        ensures
            ct@ == bytes@,
    {
        ClearText(SecretBytes::new(bytes))
    }

    pub fn as_bytes(&self) -> (b: &[u8])
        ensures
            b@ == self@,
    {
        self.0.as_slice()
    }
}

// --- responses -----------------------------------------------------------------

/// Takes a text with its length before it off the front of `s`.
pub open spec fn take_text(s: Seq<u8>) -> Result<(Seq<char>, Seq<u8>), Fault> {
    if s.len() == 0 || s.len() < 1 + s[0] {
        Err(Fault::Truncated)
    } else if !text::all_ascii(s.subrange(1, 1 + s[0])) {
        Err(Fault::Malformed("non-ASCII text field"@))
    } else {
        Ok((text::ascii_text(s.subrange(1, 1 + s[0])), s.skip(1 + s[0])))
    }
}

/// Whether a code follows the names of an entry: always where `force_code` is
/// set, otherwise after a TOTP entry that needs no button press.
pub open spec fn has_code(otp_type: OtpType, button_required: bool, force_code: bool) -> bool {
    force_code || (otp_type is Totp && !button_required)
}

/// Takes what follows the six bytes of an entry's head off the front of `s`: the
/// two names, of which the second is not empty, and the code where there is one.
pub open spec fn take_tail(s: Seq<u8>, with_code: bool) -> Result<
    (Seq<char>, Seq<char>, Option<Seq<char>>, Seq<u8>),
    Fault,
> {
    match take_text(s) {
        Err(f) => Err(f),
        Ok((app_name, s1)) => if s1.len() > 0 && s1[0] == 0 {
            Err(Fault::Malformed("account_name length is zero"@))
        } else {
            match take_text(s1) {
                Err(f) => Err(f),
                Ok((account_name, s2)) => if with_code {
                    match take_text(s2) {
                        Err(f) => Err(f),
                        Ok((code, s3)) => Ok((app_name, account_name, Some(code), s3)),
                    }
                } else {
                    Ok((app_name, account_name, None, s2))
                },
            }
        },
    }
}

/// Takes one entry off the front of `s`: the entry and what follows it, or the
/// first fault that reading it from the front meets.
pub open spec fn take_entry(s: Seq<u8>, force_code: bool) -> Result<(EntryView, Seq<u8>), Fault> {
    if s.len() < 1 {
        Err(Fault::Truncated)
    } else if OtpType::of_byte(s[0]) is None {
        Err(Fault::Malformed("unknown OTP type byte"@))
    } else if s.len() < 2 {
        Err(Fault::Truncated)
    } else if Algorithm::of_byte(s[1]) is None {
        Err(Fault::Malformed("unknown algorithm byte"@))
    } else if s.len() < 6 {
        Err(Fault::Truncated)
    } else if s[5] > 1 {
        Err(Fault::Malformed("button flag not 0/1"@))
    } else {
        let otp_type = OtpType::of_byte(s[0])->0;
        let button_required = s[5] == 1;
        match take_tail(s.skip(6), has_code(otp_type, button_required, force_code)) {
            Err(f) => Err(f),
            Ok((app_name, account_name, code, rest)) => Ok(
                (
                    EntryView {
                        otp_type,
                        algorithm: Algorithm::of_byte(s[1])->0,
                        timestep: (s[2] * 256 + s[3]) as u16,
                        code_length: s[4],
                        button_required,
                        app_name,
                        account_name,
                        code,
                    },
                    rest,
                ),
            ),
        }
    }
}

proof fn lemma_take_entry_shrinks(s: Seq<u8>, force_code: bool)
    ensures
        take_entry(s, force_code) matches Ok((e, rest)) ==> rest.len() < s.len(),
{
}

/// The entries that `s` is made of, one behind the other with nothing between
/// them.
pub open spec fn take_entries(s: Seq<u8>) -> Result<Seq<EntryView>, Fault>
    decreases s.len(),
    via take_entries_terminates
{
    if s.len() == 0 {
        Ok(seq![])
    } else {
        match take_entry(s, false) {
            Err(f) => Err(f),
            Ok((e, rest)) => match take_entries(rest) {
                Err(f) => Err(f),
                Ok(es) => Ok(seq![e] + es),
            },
        }
    }
}

#[via_fn]
proof fn take_entries_terminates(s: Seq<u8>) {
    lemma_take_entry_shrinks(s, false);
}

/// The entries of a READ_ALL page and whether more pages follow. The first byte
/// holds the latter in its high bit, and the first entry's type in the others.
pub open spec fn page_of(data: Seq<u8>) -> Result<(Seq<EntryView>, bool), Fault> {
    if data.len() == 0 {
        Err(Fault::Truncated)
    } else {
        match take_entries(data.update(0, data[0] & 0x7F)) {
            Err(f) => Err(f),
            Ok(entries) => Ok((entries, data[0] & 0x80 != 0)),
        }
    }
}

/// Parse a READ_ALL page: a leading partial-marker byte (high bit = more-pages,
/// low 7 bits = first entry's `type`) followed by packed length-prefix-free
/// entries.
pub fn parse_enum_page(data: &[u8]) -> (r: Result<EnumPage, ParseError>)
    ensures
        match r {
            Ok(page) => page_of(data@) == Ok::<(Seq<EntryView>, bool), Fault>(
                (entry_views(page.entries@), page.more_pages),
            ),
            Err(e) => page_of(data@) == Err::<(Seq<EntryView>, bool), Fault>(e@),
        },
{
    if data.len() == 0 {
        return Err(ParseError::Truncated);
    }
    let more_pages = data[0] & 0x80 != 0;
    let mut stream: Vec<u8> = Vec::new();
    stream.push(data[0] & 0x7F);
    stream.extend_from_slice(slice_subrange(data, 1, data.len()));
    assert(stream@ == data@.update(0, data@[0] & 0x7F));

    let mut cursor = Cursor::new(stream.as_slice());
    let mut entries: Vec<Entry> = Vec::new();
    let ghost whole = take_entries(stream@);
    assert(whole is Ok ==> whole->Ok_0 == entry_views(entries@) + take_entries(cursor.rest())->Ok_0);
    while !cursor.at_end()
        invariant
            cursor.wf(),
            whole is Ok <==> take_entries(cursor.rest()) is Ok,
            whole is Err ==> whole == take_entries(cursor.rest()),
            whole is Ok ==> whole->Ok_0 == entry_views(entries@) + take_entries(
                cursor.rest(),
            )->Ok_0,
            page_of(data@) == (match whole {
                Err(f) => Err::<(Seq<EntryView>, bool), Fault>(f),
                Ok(es) => Ok((es, more_pages)),
            }),
        decreases cursor.rest().len(),
    {
        let ghost rest = cursor.rest();
        proof {
            lemma_take_entry_shrinks(rest, false);
        }
        match parse_one_entry(&mut cursor, false) {
            Ok(e) => {
                let ghost before = entries@;
                entries.push(e);
                proof {
                    if whole is Ok {
                        let tail = take_entries(cursor.rest())->Ok_0;
                        assert(entry_views(before) + (seq![e@] + tail) == entry_views(entries@)
                            + tail);
                    }
                }
            },
            Err(err) => {
                return Err(err);
            },
        }
    }
    assert(entry_views(entries@) + Seq::<EntryView>::empty() == entry_views(entries@));
    Ok(EnumPage { entries, more_pages })
}

/// Parse a single READ_ONE response entry (always includes the code). What
/// follows the entry is ignored.
pub fn parse_read_one(data: &[u8]) -> (r: Result<Entry, ParseError>)
    ensures
        match r {
            Ok(e) => take_entry(data@, true) is Ok && take_entry(data@, true)->Ok_0.0 == e@,
            Err(e) => take_entry(data@, true) == Err::<(EntryView, Seq<u8>), Fault>(e@),
        },
{
    let mut cursor = Cursor::new(data);
    parse_one_entry(&mut cursor, true)
}

proof fn lemma_behind_length(s: Seq<u8>, n: int)
    requires
        s.len() > 0,
        0 <= n,
    ensures
        s.skip(1).len() == s.len() - 1,
        1 + n <= s.len() ==> s.skip(1).take(n) == s.subrange(1, 1 + n),
        1 + n <= s.len() ==> s.skip(1).skip(n) == s.skip(1 + n),
{
    if 1 + n <= s.len() {
        assert(s.skip(1).take(n) == s.subrange(1, 1 + n));
        assert(s.skip(1).skip(n) == s.skip(1 + n));
    }
}

#[verifier::spinoff_prover]
#[verifier::rlimit(40)]
fn parse_one_entry(c: &mut Cursor<'_>, force_code: bool) -> (r: Result<Entry, ParseError>)
    requires
        old(c).wf(),
    ensures
        final(c).wf(),
        match r {
            Ok(e) => take_entry(old(c).rest(), force_code) == Ok::<(EntryView, Seq<u8>), Fault>(
                (e@, final(c).rest()),
            ),
            Err(e) => take_entry(old(c).rest(), force_code) == Err::<(EntryView, Seq<u8>), Fault>(
                e@,
            ),
        },
{
    let ghost s = c.rest();
    let otp_type = match OtpType::from_byte(c.u8()?) {
        Some(t) => t,
        None => {
            return Err(ParseError::Malformed("unknown OTP type byte"));
        },
    };
    let algorithm = match Algorithm::from_byte(c.u8()?) {
        Some(a) => a,
        None => {
            return Err(ParseError::Malformed("unknown algorithm byte"));
        },
    };
    let timestep: u16 = c.u16_be()?;
    let code_length: u8 = c.u8()?;
    let button_required = match c.u8()? {
        0x00 => false,
        0x01 => true,
        _ => {
            return Err(ParseError::Malformed("button flag not 0/1"));
        },
    };
    assert(c.rest() == s.skip(6));
    let app_len: usize = c.u8()? as usize;
    proof {
        lemma_behind_length(s.skip(6), app_len as int);
    }
    let app_name = c.ascii(app_len)?;
    let ghost s1 = c.rest();
    assert(take_text(s.skip(6)) == Ok::<(Seq<char>, Seq<u8>), Fault>((app_name@, s1)));
    let account_len: usize = c.u8()? as usize;
    if account_len == 0 {
        return Err(ParseError::Malformed("account_name length is zero"));
    }
    proof {
        lemma_behind_length(s1, account_len as int);
    }
    let account_name = c.ascii(account_len)?;
    let ghost s2 = c.rest();
    assert(take_text(s1) == Ok::<(Seq<char>, Seq<u8>), Fault>((account_name@, s2)));

    let has_code = force_code || (matches!(otp_type, OtpType::Totp) && !button_required);
    let code = if has_code {
        let code_len: usize = c.u8()? as usize;
        proof {
            lemma_behind_length(s2, code_len as int);
        }
        Some(c.ascii(code_len)?)
    } else {
        None
    };

    Ok(
        Entry {
            otp_type,
            algorithm,
            timestep,
            code_length,
            button_required,
            app_name,
            account_name,
            code,
        },
    )
}

/// A length-checked forward cursor: every accessor returns `Truncated` rather
/// than panicking, so a malformed device frame can never index out of bounds.
struct Cursor<'a> {
    buf: &'a [u8],
    pos: usize,
}

impl<'a> Cursor<'a> {
    spec fn wf(self) -> bool {
        self.pos <= self.buf@.len()
    }

    /// The bytes that are still to be read.
    spec fn rest(self) -> Seq<u8> {
        self.buf@.skip(self.pos as int)
    }

    fn new(buf: &'a [u8]) -> (c: Self)
        ensures
            c.wf(),
            c.rest() == buf@,
    {
        let c = Cursor { buf, pos: 0 };
        assert(c.rest() == buf@);
        c
    }

    fn at_end(&self) -> (r: bool)
        requires
            self.wf(),
        ensures
            r == (self.rest().len() == 0),
    {
        self.pos >= self.buf.len()
    }

    fn u8(&mut self) -> (r: Result<u8, ParseError>)
        requires
            old(self).wf(),
        ensures
            final(self).wf(),
            match r {
                Ok(b) => old(self).rest().len() > 0 && b == old(self).rest()[0]
                    && final(self).rest() == old(self).rest().skip(1),
                Err(e) => old(self).rest().len() == 0 && e@ == Fault::Truncated,
            },
    {
        if self.pos >= self.buf.len() {
            return Err(ParseError::Truncated);
        }
        let b: u8 = self.buf[self.pos];
        self.pos = self.pos + 1;
        assert(self.rest() == old(self).rest().skip(1));
        Ok(b)
    }

    fn u16_be(&mut self) -> (r: Result<u16, ParseError>)
        requires
            old(self).wf(),
        ensures
            final(self).wf(),
            match r {
                Ok(n) => old(self).rest().len() >= 2 && n == old(self).rest()[0] * 256 + old(
                    self,
                ).rest()[1] && final(self).rest() == old(self).rest().skip(2),
                Err(e) => old(self).rest().len() < 2 && e@ == Fault::Truncated,
            },
    {
        let hi: u16 = self.u8()? as u16;
        let lo: u16 = self.u8()? as u16;
        assert(self.rest() == old(self).rest().skip(2));
        Ok(hi * 256 + lo)
    }

    fn ascii(&mut self, n: usize) -> (r: Result<String, ParseError>)
        requires
            old(self).wf(),
        ensures
            final(self).wf(),
            match r {
                Ok(s) => n <= old(self).rest().len() && text::all_ascii(
                    old(self).rest().take(n as int),
                ) && s@ == text::ascii_text(old(self).rest().take(n as int))
                    && final(self).rest() == old(self).rest().skip(n as int),
                Err(e) => if n > old(self).rest().len() {
                    e@ == Fault::Truncated
                } else {
                    !text::all_ascii(old(self).rest().take(n as int)) && e@ == Fault::Malformed(
                        "non-ASCII text field"@,
                    )
                },
            },
    {
        if self.buf.len() - self.pos < n {
            return Err(ParseError::Truncated);
        }
        let end: usize = self.pos + n;
        let slice = slice_subrange(self.buf, self.pos, end);
        assert(slice@ == self.rest().take(n as int));
        if !text::is_ascii(slice) {
            return Err(ParseError::Malformed("non-ASCII text field"));
        }
        self.pos = end;
        assert(self.rest() == old(self).rest().skip(n as int));
        Ok(text::from_ascii(slice))
    }
}

// --- laws ----------------------------------------------------------------------

impl EntryView {
    /// Whether a response can carry the entry.
    pub open spec fn fits(self, force_code: bool) -> bool {
        &&& is_ascii_chars(self.app_name)
        &&& self.app_name.len() <= 255
        &&& is_ascii_chars(self.account_name)
        &&& 1 <= self.account_name.len() <= 255
        &&& self.code is Some <==> has_code(self.otp_type, self.button_required, force_code)
        &&& self.code matches Some(code) ==> is_ascii_chars(code) && code.len() <= 255
    }

    /// The bytes of the entry in a response.
    pub open spec fn bytes(self) -> Seq<u8> {
        entry_head(
            self.otp_type,
            self.algorithm,
            self.timestep,
            self.code_length,
            self.button_required,
        ) + text_field(self.app_name) + text_field(self.account_name) + (match self.code {
            Some(code) => text_field(code),
            None => seq![],
        })
    }
}

/// Packed entries, with nothing between them.
pub open spec fn entries_bytes(entries: Seq<EntryView>) -> Seq<u8>
    decreases entries.len(),
{
    if entries.len() == 0 {
        seq![]
    } else {
        entries[0].bytes() + entries_bytes(entries.drop_first())
    }
}

/// The page that carries `entries`, with the mark for more pages in its first
/// byte.
pub open spec fn page_bytes(entries: Seq<EntryView>, more_pages: bool) -> Seq<u8> {
    let packed = entries_bytes(entries);
    packed.update(
        0,
        packed[0] | (if more_pages {
            0x80u8
        } else {
            0u8
        }),
    )
}

proof fn lemma_take_text(t: Seq<char>, rest: Seq<u8>)
    requires
        is_ascii_chars(t),
        t.len() <= 255,
    ensures
        take_text(text_field(t) + rest) == Ok::<(Seq<char>, Seq<u8>), Fault>((t, rest)),
{
    let s = text_field(t) + rest;
    assert(s[0] == t.len());
    let middle = s.subrange(1, 1 + s[0]);
    assert(middle == text::ascii_bytes(t));
    assert forall|i: int| 0 <= i < middle.len() implies #[trigger] middle[i] < 128 by {
        assert('\0' <= t[i] <= '\u{7f}');
    }
    assert(text::ascii_text(middle) == t) by {
        assert forall|i: int| 0 <= i < t.len() implies text::ascii_text(middle)[i]
            == #[trigger] t[i] by {
            assert('\0' <= t[i] <= '\u{7f}');
        }
    }
    assert(s.skip(1 + s[0]) == rest);
}

proof fn lemma_take_text_exact(s: Seq<u8>)
    ensures
        take_text(s) matches Ok((t, rest)) ==> {
            &&& is_ascii_chars(t)
            &&& t.len() == s[0]
            &&& s.len() > 0
            &&& s == text_field(t) + rest
        },
{
    if let Ok((t, rest)) = take_text(s) {
        let middle = s.subrange(1, 1 + s[0]);
        assert forall|i: int| 0 <= i < t.len() implies '\0' <= #[trigger] t[i] <= '\u{7f}' by {
            assert(middle[i] < 128);
        }
        assert(text::ascii_bytes(t) == middle) by {
            assert forall|i: int| 0 <= i < t.len() implies text::ascii_bytes(t)[i]
                == #[trigger] middle[i] by {
                assert(middle[i] < 128);
            }
        }
        assert(s == text_field(t) + rest);
    }
}

/// The parts of an entry's bytes, with anything behind them.
proof fn lemma_entry_bytes_parts(e: EntryView, rest: Seq<u8>)
    ensures
        ({
            let s = e.bytes() + rest;
            let code_part = match e.code {
                Some(code) => text_field(code),
                None => seq![],
            };
            &&& s.len() >= 6
            &&& s[0] == e.otp_type.byte()
            &&& s[1] == e.algorithm.byte()
            &&& s[2] * 256 + s[3] == e.timestep
            &&& s[4] == e.code_length
            &&& s[5] == (if e.button_required {
                1u8
            } else {
                0u8
            })
            &&& s.skip(6) == text_field(e.app_name) + (text_field(e.account_name) + (code_part
                + rest))
        }),
{
    let s = e.bytes() + rest;
    let code_part = match e.code {
        Some(code) => text_field(code),
        None => seq![],
    };
    assert(s.skip(6) == text_field(e.app_name) + (text_field(e.account_name) + (code_part + rest)));
}

/// What a response says of an entry is read back: an entry that a response can
/// carry, with anything behind its bytes, is taken off the front whole.
#[verifier::spinoff_prover]
#[verifier::rlimit(40)]
pub proof fn law_entry_round_trip(e: EntryView, force_code: bool, rest: Seq<u8>)
    requires
        e.fits(force_code),
    ensures
        take_entry(e.bytes() + rest, force_code) == Ok::<(EntryView, Seq<u8>), Fault>((e, rest)),
{
    let code_part = match e.code {
        Some(code) => text_field(code),
        None => seq![],
    };
    lemma_entry_bytes_parts(e, rest);
    lemma_take_text(e.app_name, text_field(e.account_name) + (code_part + rest));
    lemma_take_text(e.account_name, code_part + rest);
    if has_code(e.otp_type, e.button_required, force_code) {
        lemma_take_text(e.code->0, rest);
    } else {
        assert(code_part + rest == rest);
    }
}

/// Nothing in a response is skipped or misread: where an entry is taken off the
/// front, a response can carry that entry, and the front is the entry's bytes.
#[verifier::spinoff_prover]
#[verifier::rlimit(40)]
pub proof fn law_entry_parse_is_exact(s: Seq<u8>, force_code: bool)
    ensures
        take_entry(s, force_code) matches Ok((e, rest)) ==> e.fits(force_code) && s == e.bytes()
            + rest,
{
    if let Ok((e, rest)) = take_entry(s, force_code) {
        let t = s.skip(6);
        lemma_take_text_exact(t);
        let s1 = take_text(t)->Ok_0.1;
        lemma_take_text_exact(s1);
        let s2 = take_text(s1)->Ok_0.1;
        lemma_take_text_exact(s2);
        assert(s == entry_head(
            e.otp_type,
            e.algorithm,
            e.timestep,
            e.code_length,
            e.button_required,
        ) + t);
        assert(s == e.bytes() + rest);
    }
}

/// An entry that was parsed has a code exactly where one is due: always in a
/// READ_ONE response, and in a page only where the entry is TOTP and needs no
/// button press.
pub proof fn law_code_only_where_due(s: Seq<u8>, force_code: bool)
    ensures
        take_entry(s, force_code) matches Ok((e, rest)) ==> (e.code is Some <==> force_code || (
        e.otp_type is Totp && !e.button_required)),
{
}

/// Whether the packed bytes `s` unpack to `entries`.
#[verifier::opaque]
spec fn unpacks_to(s: Seq<u8>, entries: Seq<EntryView>) -> bool {
    take_entries(s) == Ok::<Seq<EntryView>, Fault>(entries)
}

proof fn lemma_nothing_unpacks(s: Seq<u8>, entries: Seq<EntryView>)
    requires
        s.len() == 0,
    ensures
        unpacks_to(s, entries) == (entries.len() == 0),
{
    reveal(unpacks_to);
    assert(entries.len() == 0 ==> entries == Seq::<EntryView>::empty());
}

#[verifier::spinoff_prover]
proof fn lemma_front_entry_joins(e: EntryView, rest: Seq<u8>, tail: Seq<EntryView>)
    requires
        e.fits(false),
        unpacks_to(rest, tail),
    ensures
        unpacks_to(e.bytes() + rest, seq![e] + tail),
{
    reveal(unpacks_to);
    let s = e.bytes() + rest;
    law_entry_round_trip(e, false, rest);
    lemma_take_entry_shrinks(s, false);
}

#[verifier::spinoff_prover]
proof fn lemma_front_entry_parts(s: Seq<u8>, entries: Seq<EntryView>) -> (rest: Seq<u8>)
    requires
        s.len() > 0,
        unpacks_to(s, entries),
    ensures
        entries.len() > 0,
        entries[0].fits(false),
        s == entries[0].bytes() + rest,
        rest.len() < s.len(),
        unpacks_to(rest, entries.drop_first()),
{
    reveal(unpacks_to);
    lemma_take_entry_shrinks(s, false);
    law_entry_parse_is_exact(s, false);
    let rest = take_entry(s, false)->Ok_0.1;
    assert(entries.drop_first() == take_entries(rest)->Ok_0);
    rest
}

proof fn lemma_entries_round_trip(entries: Seq<EntryView>)
    requires
        forall|i: int| 0 <= i < entries.len() ==> (#[trigger] entries[i]).fits(false),
    ensures
        unpacks_to(entries_bytes(entries), entries),
    decreases entries.len(),
{
    if entries.len() > 0 {
        let tail = entries.drop_first();
        assert forall|i: int| 0 <= i < tail.len() implies (#[trigger] tail[i]).fits(false) by {
            assert(tail[i] == entries[i + 1]);
        }
        lemma_entries_round_trip(tail);
        lemma_front_entry_joins(entries[0], entries_bytes(tail), tail);
        assert(seq![entries[0]] + tail == entries);
    } else {
        lemma_nothing_unpacks(entries_bytes(entries), entries);
    }
}

proof fn lemma_entries_exact(s: Seq<u8>, entries: Seq<EntryView>)
    requires
        unpacks_to(s, entries),
    ensures
        forall|i: int| 0 <= i < entries.len() ==> (#[trigger] entries[i]).fits(false),
        s == entries_bytes(entries),
        s.len() > 0 ==> entries.len() > 0,
    decreases s.len(),
{
    if s.len() > 0 {
        let rest = lemma_front_entry_parts(s, entries);
        let tail = entries.drop_first();
        lemma_entries_exact(rest, tail);
        assert forall|i: int| 0 <= i < entries.len() implies (#[trigger] entries[i]).fits(
            false,
        ) by {
            if i > 0 {
                assert(entries[i] == tail[i - 1]);
            }
        }
    } else {
        lemma_nothing_unpacks(s, entries);
        assert(s == Seq::<u8>::empty());
    }
}

/// A page is read back whole: the entries it was packed from, in order, and the
/// mark for more pages.
pub proof fn law_page_round_trip(entries: Seq<EntryView>, more_pages: bool)
    requires
        entries.len() > 0,
        forall|i: int| 0 <= i < entries.len() ==> (#[trigger] entries[i]).fits(false),
    ensures
        page_of(page_bytes(entries, more_pages)) == Ok::<(Seq<EntryView>, bool), Fault>(
            (entries, more_pages),
        ),
{
    let packed = entries_bytes(entries);
    let data = page_bytes(entries, more_pages);
    let b = packed[0];
    assert(b == entries[0].otp_type.byte());
    assert((b | 0x80u8) & 0x7F == b && (b | 0u8) & 0x7F == b && (b | 0x80u8) & 0x80 != 0 && (b
        | 0u8) & 0x80 == 0) by (bit_vector)
        requires
            b <= 1,
    ;
    lemma_entries_round_trip(entries);
    reveal(unpacks_to);
    assert(data.update(0, data[0] & 0x7F) == packed);
}

/// A page comes through the HID frames whole: of a page that is sent in frames with
/// the status word for success behind it, the frames reassemble to that status word
/// and to bytes that parse to the page's entries and its mark.
pub proof fn law_page_over_hid_frames(entries: Seq<EntryView>, more_pages: bool)
    requires
        entries.len() > 0,
        forall|i: int| 0 <= i < entries.len() ==> (#[trigger] entries[i]).fits(false),
    ensures
        ({
            let sent = hidframe::send_frames(page_bytes(entries, more_pages) + seq![0x90u8, 0x00]);
            let response = hidframe::split_response(
                hidframe::feed(hidframe::fresh(), sent).buf,
            );
            &&& response matches Some((data, word))
            &&& proto::status_of(word) is Ok
            &&& page_of(data) == Ok::<(Seq<EntryView>, bool), Fault>((entries, more_pages))
        }),
{
    hidframe::law_response_round_trip(page_bytes(entries, more_pages), 0x9000);
    law_page_round_trip(entries, more_pages);
}

/// Nothing in a page is skipped or misread: where a page parses, it holds at least
/// one entry, and it is the page that its entries and its mark make.
pub proof fn law_page_parse_is_exact(data: Seq<u8>)
    ensures
        page_of(data) matches Ok((entries, more_pages)) ==> {
            &&& entries.len() > 0
            &&& forall|i: int| 0 <= i < entries.len() ==> (#[trigger] entries[i]).fits(false)
            &&& data == page_bytes(entries, more_pages)
        },
{
    if let Ok((entries, more_pages)) = page_of(data) {
        let s = data.update(0, data[0] & 0x7F);
        assert(unpacks_to(s, entries)) by {
            reveal(unpacks_to);
        }
        lemma_entries_exact(s, entries);
        let b = data[0];
        assert((b & 0x80 != 0 ==> (b & 0x7F) | 0x80 == b) && (b & 0x80 == 0 ==> (b & 0x7F) | 0u8
            == b)) by (bit_vector);
        assert(data == page_bytes(entries, more_pages));
    }
}

/// A write says one thing only: two entries that may be written and have the same
/// cleartext are the same entry.
pub proof fn law_write_payload_unambiguous(a: WriteEntry<'_>, b: WriteEntry<'_>)
    requires
        a.check() is Ok,
        b.check() is Ok,
        a.payload() == b.payload(),
    ensures
        a.otp_type == b.otp_type,
        a.algorithm == b.algorithm,
        a.timestep == b.timestep,
        a.code_length == b.code_length,
        a.button_required == b.button_required,
        a.app_name@ == b.app_name@,
        a.account_name@ == b.account_name@,
        a.seed@ == b.seed@,
{
    lemma_write_payload_parts(a);
    lemma_write_payload_parts(b);
    lemma_entry_head_unambiguous(a, b);
    let a_seed = seq![a.seed@.len() as u8] + a.seed@;
    let b_seed = seq![b.seed@.len() as u8] + b.seed@;
    lemma_names_unambiguous(
        a.app_name@,
        a.account_name@,
        a_seed,
        b.app_name@,
        b.account_name@,
        b_seed,
        a.payload().skip(6),
    );
    assert(a_seed.skip(1) == a.seed@ && b_seed.skip(1) == b.seed@);
}

/// The head of a write, and what follows it.
proof fn lemma_write_payload_parts(w: WriteEntry<'_>)
    ensures
        w.payload().take(6) == entry_head(
            w.otp_type,
            w.algorithm,
            w.timestep,
            w.code_length,
            w.button_required,
        ),
        w.payload().skip(6) == text_field(w.app_name@) + text_field(w.account_name@) + (seq![
            w.seed@.len() as u8,
        ] + w.seed@),
{
    let head = entry_head(
        w.otp_type,
        w.algorithm,
        w.timestep,
        w.code_length,
        w.button_required,
    );
    assert(head.len() == 6);
    assert(w.payload().take(6) == head);
    assert(w.payload().skip(6) == text_field(w.app_name@) + text_field(w.account_name@) + (seq![
        w.seed@.len() as u8,
    ] + w.seed@));
}

proof fn lemma_entry_head_unambiguous(a: WriteEntry<'_>, b: WriteEntry<'_>)
    requires
        entry_head(a.otp_type, a.algorithm, a.timestep, a.code_length, a.button_required)
            == entry_head(b.otp_type, b.algorithm, b.timestep, b.code_length, b.button_required),
    ensures
        a.otp_type == b.otp_type,
        a.algorithm == b.algorithm,
        a.timestep == b.timestep,
        a.code_length == b.code_length,
        a.button_required == b.button_required,
{
    let p = entry_head(a.otp_type, a.algorithm, a.timestep, a.code_length, a.button_required);
    let q = entry_head(b.otp_type, b.algorithm, b.timestep, b.code_length, b.button_required);
    assert(p[0] == a.otp_type.byte() && q[0] == b.otp_type.byte());
    assert(p[1] == a.algorithm.byte() && q[1] == b.algorithm.byte());
    assert(p[2] * 256 + p[3] == a.timestep && q[2] * 256 + q[3] == b.timestep);
    assert(p[4] == a.code_length && q[4] == b.code_length);
    assert((p[5] == 1) == a.button_required && (q[5] == 1) == b.button_required);
}

proof fn lemma_names_unambiguous(
    app: Seq<char>,
    account: Seq<char>,
    rest: Seq<u8>,
    app2: Seq<char>,
    account2: Seq<char>,
    rest2: Seq<u8>,
    s: Seq<u8>,
)
    requires
        names_check(app, account) is Ok,
        names_check(app2, account2) is Ok,
        s =~= text_field(app) + text_field(account) + rest,
        s =~= text_field(app2) + text_field(account2) + rest2,
    ensures
        app == app2,
        account == account2,
        rest == rest2,
{
    assert(s == text_field(app) + (text_field(account) + rest));
    assert(s == text_field(app2) + (text_field(account2) + rest2));
    lemma_take_text(app, text_field(account) + rest);
    lemma_take_text(app2, text_field(account2) + rest2);
    lemma_take_text(account, rest);
    lemma_take_text(account2, rest2);
}

/// A delete says one thing only: it names one entry.
pub proof fn law_delete_payload_unambiguous(
    app: Seq<char>,
    account: Seq<char>,
    app2: Seq<char>,
    account2: Seq<char>,
)
    requires
        names_check(app, account) is Ok,
        names_check(app2, account2) is Ok,
        delete_payload(app, account) == delete_payload(app2, account2),
    ensures
        app == app2,
        account == account2,
{
    lemma_names_unambiguous(
        app,
        account,
        seq![0x00u8],
        app2,
        account2,
        seq![0x00u8],
        delete_payload(app, account).skip(6),
    );
}

/// A delete is never taken for a write: no entry that may be written has the
/// cleartext of a delete.
pub proof fn law_delete_is_no_write(app: Seq<char>, account: Seq<char>, w: WriteEntry<'_>)
    requires
        names_check(app, account) is Ok,
        w.check() is Ok,
    ensures
        delete_payload(app, account) != w.payload(),
{
    assert(delete_payload(app, account)[4] == 0);
    assert(w.payload()[4] == w.code_length);
}

/// A READ_ONE request says one thing only: the time it was made at and the entry
/// it asks for.
pub proof fn law_read_payload_unambiguous(
    timestamp: u64,
    app: Seq<char>,
    account: Seq<char>,
    timestamp2: u64,
    app2: Seq<char>,
    account2: Seq<char>,
)
    requires
        names_check(app, account) is Ok,
        names_check(app2, account2) is Ok,
        read_payload(timestamp, app, account) == read_payload(timestamp2, app2, account2),
    ensures
        timestamp == timestamp2,
        app == app2,
        account == account2,
{
    let p = read_payload(timestamp, app, account);
    let t = proto::be_bytes(timestamp as nat, 8);
    let t2 = proto::be_bytes(timestamp2 as nat, 8);
    proto::lemma_be_bytes_len(timestamp as nat, 8);
    proto::lemma_be_bytes_len(timestamp2 as nat, 8);
    assert(p.subrange(1, 9) == t);
    assert(p.subrange(1, 9) == t2);
    lemma2_to64_rest();
    assert(pow2(8 * 8) == 0x1_0000_0000_0000_0000);
    proto::lemma_be_bytes_injective(timestamp as nat, timestamp2 as nat, 8);
    let none = Seq::<u8>::empty();
    lemma_names_unambiguous(app, account, none, app2, account2, none, p.skip(9));
}

/// The bytes of the OTP types and algorithms, and no others, stand for them.
pub proof fn law_type_and_algorithm_bytes(b: u8)
    ensures
        OtpType::Hotp.byte() == 0x00,
        OtpType::Totp.byte() == 0x01,
        Algorithm::Sha1.byte() == 0xC1,
        Algorithm::Sha256.byte() == 0xC2,
        OtpType::of_byte(b) == Some(OtpType::Hotp) <==> b == 0x00,
        OtpType::of_byte(b) == Some(OtpType::Totp) <==> b == 0x01,
        OtpType::of_byte(b) is None <==> b > 0x01,
        Algorithm::of_byte(b) == Some(Algorithm::Sha1) <==> b == 0xC1,
        Algorithm::of_byte(b) == Some(Algorithm::Sha256) <==> b == 0xC2,
        Algorithm::of_byte(b) is None <==> b != 0xC1 && b != 0xC2,
        OtpType::Hotp.name() == "HOTP"@,
        OtpType::Totp.name() == "TOTP"@,
        Algorithm::Sha1.name() == "SHA1"@,
        Algorithm::Sha256.name() == "SHA256"@,
{
}

/// What an entry shows is what it holds, each field under its own name; and a list
/// of entries shows them one for one and in order.
pub proof fn law_entry_view(e: Entry, entries: Seq<Entry>)
    ensures
        e@.otp_type == e.otp_type,
        e@.algorithm == e.algorithm,
        e@.timestep == e.timestep,
        e@.code_length == e.code_length,
        e@.button_required == e.button_required,
        e@.app_name == e.app_name@,
        e@.account_name == e.account_name@,
        e@.code is Some <==> e.code is Some,
        e.code matches Some(code) ==> e@.code == Some(code@),
        entry_views(entries).len() == entries.len(),
        forall|i: int| 0 <= i < entries.len() ==> entry_views(entries)[i] == (#[trigger] entries[i])@,
{
}

/// A profile is named by its issuer, a colon and its account, each in full; without
/// an issuer, by its account alone.
pub proof fn law_profile_label(app: Seq<char>, account: Seq<char>)
    ensures
        ({
            let label = profile_label(app, account);
            &&& app.len() == 0 ==> label == account
            &&& app.len() > 0 ==> {
                &&& label.len() == app.len() + 1 + account.len()
                &&& forall|i: int| 0 <= i < app.len() ==> label[i] == #[trigger] app[i]
                &&& label[app.len() as int] == ':'
                &&& forall|i: int|
                    0 <= i < account.len() ==> label[app.len() + 1 + i] == #[trigger] account[i]
            }
        }),
{
}

/// An entry is named by its own issuer and account, and it is an Auto-OTP entry
/// exactly where `[A]` stands somewhere in its issuer.
pub proof fn law_entry_is_auto(e: EntryView)
    ensures
        e.label() == profile_label(e.app_name, e.account_name),
        e.is_auto() <==> exists|i: int|
            0 <= i && i + 2 < e.app_name.len() && #[trigger] e.app_name[i] == '[' && e.app_name[i
                + 1] == 'A' && e.app_name[i + 2] == ']',
{
    reveal_strlit("[A]");
    let s = e.app_name;
    let tag = AUTO_TAG@;
    assert(tag == seq!['[', 'A', ']']);
    if e.is_auto() {
        let i = choose|i: int| text::occurs_at(s, tag, i);
        let w = s.subrange(i, i + tag.len());
        assert(w[0] == s[i] && w[1] == s[i + 1] && w[2] == s[i + 2]);
    }
    if exists|i: int|
        0 <= i && i + 2 < s.len() && #[trigger] s[i] == '[' && s[i + 1] == 'A' && s[i + 2] == ']' {
        let i = choose|i: int|
            0 <= i && i + 2 < s.len() && #[trigger] s[i] == '[' && s[i + 1] == 'A' && s[i + 2]
                == ']';
        assert(s.subrange(i, i + tag.len()) == tag);
        assert(text::occurs_at(s, tag, i));
    }
}

proof fn lemma_ascii_char(c: char)
    ensures
        '\0' <= c <= '\u{7f}' <==> c as int <= 127,
{
}

proof fn lemma_ascii_chars(s: Seq<char>)
    ensures
        is_ascii_chars(s) <==> forall|i: int| 0 <= i < s.len() ==> (#[trigger] s[i]) as int <= 127,
{
    if forall|i: int| 0 <= i < s.len() ==> (#[trigger] s[i]) as int <= 127 {
        assert forall|i: int| 0 <= i < s.len() implies '\0' <= #[trigger] s[i] <= '\u{7f}' by {
            lemma_ascii_char(s[i]);
        }
    }
    if is_ascii_chars(s) {
        assert forall|i: int| 0 <= i < s.len() implies (#[trigger] s[i]) as int <= 127 by {}
    }
}

/// Which names an entry may have: an issuer of up to 64 ASCII characters and an
/// account of 1 to 64. The first fault counts.
pub proof fn law_names_accepted(app: Seq<char>, account: Seq<char>)
    ensures
        ({
            let app_ok = app.len() <= 64 && forall|i: int|
                0 <= i < app.len() ==> (#[trigger] app[i]) as int <= 127;
            let account_ok = 1 <= account.len() <= 64 && forall|i: int|
                0 <= i < account.len() ==> (#[trigger] account[i]) as int <= 127;
            &&& names_check(app, account) is Ok <==> app_ok && account_ok
            &&& !app_ok ==> names_check(app, account) == Err::<(), Fault>(
                Fault::Invalid("app_name must be ASCII, 0..=64 bytes"@),
            )
            &&& app_ok && !account_ok ==> names_check(app, account) == Err::<(), Fault>(
                Fault::Invalid("account_name must be ASCII, 1..=64 bytes"@),
            )
        }),
{
    lemma_ascii_chars(app);
    lemma_ascii_chars(account);
}

/// Which entries may be written: of a TOTP entry the step is not zero, a code has 4
/// to 10 digits, the names are such as an entry may have, and the seed has 1 to 64
/// bytes. The first fault counts.
pub proof fn law_writes_accepted(w: WriteEntry<'_>)
    ensures
        ({
            let step_ok = w.otp_type is Totp ==> w.timestep >= 1;
            let length_ok = 4 <= w.code_length <= 10;
            let names = names_check(w.app_name@, w.account_name@);
            let seed_ok = 1 <= w.seed@.len() <= 64;
            &&& w.check() is Ok <==> step_ok && length_ok && names is Ok && seed_ok
            &&& !step_ok ==> w.check() == Err::<(), Fault>(
                Fault::Invalid("timestep must be 1..=0xFFFF for TOTP"@),
            )
            &&& step_ok && !length_ok ==> w.check() == Err::<(), Fault>(
                Fault::Invalid("code_length must be 4..=10"@),
            )
            &&& step_ok && length_ok && names is Err ==> w.check() == names
            &&& step_ok && length_ok && names is Ok && !seed_ok ==> w.check() == Err::<(), Fault>(
                Fault::Invalid("seed must be 1..=64 bytes (decoded)"@),
            )
        }),
{
}

/// The parameters of an entry are checked like those of a write, but for the seed.
pub proof fn law_parameters_accepted(
    timestep: u16,
    code_length: u8,
    app: Seq<char>,
    account: Seq<char>,
    is_totp: bool,
)
    ensures
        ({
            let r = common_check(timestep, code_length, app, account, is_totp);
            let step_ok = is_totp ==> timestep >= 1;
            let length_ok = 4 <= code_length <= 10;
            &&& !step_ok ==> r == Err::<(), Fault>(
                Fault::Invalid("timestep must be 1..=0xFFFF for TOTP"@),
            )
            &&& step_ok && !length_ok ==> r == Err::<(), Fault>(
                Fault::Invalid("code_length must be 4..=10"@),
            )
            &&& step_ok && length_ok ==> r == names_check(app, account)
        }),
{
}

/// A text field in bytes: the number of characters, and the characters in order.
pub proof fn law_text_field_layout(s: Seq<char>)
    requires
        s.len() <= 255,
    ensures
        text_field(s).len() == 1 + s.len(),
        text_field(s)[0] == s.len(),
        forall|i: int| 0 <= i < s.len() ==> text_field(s)[1 + i] == (#[trigger] s[i]) as u8,
{
    text::law_ascii(s, seq![]);
}

/// A text field is read byte by byte: the first byte counts the characters, the
/// bytes behind it are the characters in order, and the rest is what follows them.
/// There is no field without all of its bytes, nor with a byte that is not ASCII.
pub proof fn law_text_field_is_read(s: Seq<u8>)
    ensures
        take_text(s) == Err::<(Seq<char>, Seq<u8>), Fault>(Fault::Truncated) <==> s.len() == 0
            || s.len() < 1 + s[0],
        take_text(s) == Err::<(Seq<char>, Seq<u8>), Fault>(
            Fault::Malformed("non-ASCII text field"@),
        ) <==> s.len() > 0 && s.len() >= 1 + s[0] && exists|i: int|
            1 <= i < 1 + s[0] && #[trigger] s[i] > 127,
        take_text(s) is Ok <==> s.len() > 0 && s.len() >= 1 + s[0] && forall|i: int|
            1 <= i < 1 + s[0] ==> #[trigger] s[i] <= 127,
        take_text(s) matches Ok((t, rest)) ==> {
            &&& t.len() == s[0]
            &&& forall|i: int| 0 <= i < t.len() ==> (#[trigger] t[i]) as int == s[1 + i]
            &&& rest.len() == s.len() - 1 - s[0]
            &&& forall|i: int| 0 <= i < rest.len() ==> #[trigger] rest[i] == s[1 + s[0] + i]
        },
{
    if s.len() > 0 && s.len() >= 1 + s[0] {
        let middle = s.subrange(1, 1 + s[0]);
        text::law_ascii(seq![], middle);
        assert(forall|i: int| 0 <= i < middle.len() ==> #[trigger] middle[i] == s[1 + i]);
        assert(forall|i: int| 1 <= i < 1 + s[0] ==> #[trigger] s[i] == middle[i - 1]);
        if let Ok((t, rest)) = take_text(s) {
            assert(forall|i: int| 0 <= i < t.len() ==> (#[trigger] t[i]) as int == middle[i]);
        }
    }
}

/// A write in bytes: type, algorithm, step in two bytes with the higher first,
/// digits and button flag; then issuer, account and seed in this order, each with
/// its length before it; and nothing else.
pub proof fn law_write_layout(w: WriteEntry<'_>)
    requires
        w.check() is Ok,
    ensures
        ({
            let p = w.payload();
            let a = w.app_name@.len() as int;
            let c = w.account_name@.len() as int;
            let n = w.seed@.len() as int;
            &&& p.len() == 9 + a + c + n
            &&& p[0] == (if w.otp_type is Totp {
                1u8
            } else {
                0u8
            })
            &&& p[1] == (if w.algorithm is Sha256 {
                0xC2u8
            } else {
                0xC1u8
            })
            &&& p[2] * 256 + p[3] == w.timestep
            &&& p[4] == w.code_length
            &&& p[5] == (if w.button_required {
                1u8
            } else {
                0u8
            })
            &&& p[6] == a
            &&& forall|i: int| 0 <= i < a ==> p[7 + i] == (#[trigger] w.app_name@[i]) as u8
            &&& p[7 + a] == c
            &&& forall|i: int| 0 <= i < c ==> p[8 + a + i] == (#[trigger] w.account_name@[i]) as u8
            &&& p[8 + a + c] == n
            &&& forall|i: int| 0 <= i < n ==> p[9 + a + c + i] == #[trigger] w.seed@[i]
        }),
{
    let p = w.payload();
    let a = w.app_name@.len() as int;
    let c = w.account_name@.len() as int;
    let n = w.seed@.len() as int;
    law_text_field_layout(w.app_name@);
    law_text_field_layout(w.account_name@);
    let head = entry_head(
        w.otp_type,
        w.algorithm,
        w.timestep,
        w.code_length,
        w.button_required,
    );
    let f = text_field(w.app_name@);
    let g = text_field(w.account_name@);
    assert(p == head + f + g + seq![n as u8] + w.seed@);
    assert(forall|i: int| 0 <= i < f.len() ==> p[6 + i] == #[trigger] f[i]);
    assert(forall|i: int| 0 <= i < g.len() ==> p[7 + a + i] == #[trigger] g[i]);
    assert(p[6] == f[0] && p[7 + a] == g[0]);
    assert forall|i: int| 0 <= i < a implies p[7 + i] == (#[trigger] w.app_name@[i]) as u8 by {
        assert(p[6 + (1 + i)] == f[1 + i]);
    }
    assert forall|i: int| 0 <= i < c implies p[8 + a + i] == (
    #[trigger] w.account_name@[i]) as u8 by {
        assert(p[7 + a + (1 + i)] == g[1 + i]);
    }
}

/// A delete in bytes: six zeros, issuer and account in this order, each with its
/// length before it, and a zero for the seed that is not there.
pub proof fn law_delete_layout(app: Seq<char>, account: Seq<char>)
    requires
        app.len() <= 255,
        account.len() <= 255,
    ensures
        ({
            let p = delete_payload(app, account);
            let a = app.len() as int;
            let c = account.len() as int;
            &&& p.len() == 9 + a + c
            &&& forall|i: int| 0 <= i < 6 ==> #[trigger] p[i] == 0
            &&& p[6] == a
            &&& forall|i: int| 0 <= i < a ==> p[7 + i] == (#[trigger] app[i]) as u8
            &&& p[7 + a] == c
            &&& forall|i: int| 0 <= i < c ==> p[8 + a + i] == (#[trigger] account[i]) as u8
            &&& p[8 + a + c] == 0
        }),
{
    let p = delete_payload(app, account);
    let a = app.len() as int;
    law_text_field_layout(app);
    law_text_field_layout(account);
    let f = text_field(app);
    let g = text_field(account);
    assert(forall|i: int| 0 <= i < f.len() ==> p[6 + i] == #[trigger] f[i]);
    assert(forall|i: int| 0 <= i < g.len() ==> p[7 + a + i] == #[trigger] g[i]);
    assert(p[6] == f[0] && p[7 + a] == g[0]);
    assert forall|i: int| 0 <= i < app.len() implies p[7 + i] == (#[trigger] app[i]) as u8 by {
        assert(p[6 + (1 + i)] == f[1 + i]);
    }
    assert forall|i: int| 0 <= i < account.len() implies p[8 + a + i] == (
    #[trigger] account[i]) as u8 by {
        assert(p[7 + a + (1 + i)] == g[1 + i]);
    }
}

/// A READ_ONE request in bytes: `01`, the time in eight bytes with the highest
/// first, issuer and account in this order, each with its length before it; and
/// nothing else.
pub proof fn law_read_layout(timestamp: u64, app: Seq<char>, account: Seq<char>)
    requires
        app.len() <= 255,
        account.len() <= 255,
    ensures
        ({
            let p = read_payload(timestamp, app, account);
            let a = app.len() as int;
            let c = account.len() as int;
            &&& p.len() == 11 + a + c
            &&& p[0] == 0x01
            &&& timestamp == p[1] * 0x100_0000_0000_0000 + p[2] * 0x1_0000_0000_0000 + p[3]
                * 0x100_0000_0000 + p[4] * 0x1_0000_0000 + p[5] * 0x100_0000 + p[6] * 0x1_0000
                + p[7] * 0x100 + p[8]
            &&& p[9] == a
            &&& forall|i: int| 0 <= i < a ==> p[10 + i] == (#[trigger] app[i]) as u8
            &&& p[10 + a] == c
            &&& forall|i: int| 0 <= i < c ==> p[11 + a + i] == (#[trigger] account[i]) as u8
        }),
{
    let p = read_payload(timestamp, app, account);
    let a = app.len() as int;
    let t = proto::be_bytes(timestamp as nat, 8);
    proto::law_u64_bytes(timestamp);
    law_text_field_layout(app);
    law_text_field_layout(account);
    let f = text_field(app);
    let g = text_field(account);
    assert(forall|i: int| 0 <= i < 8 ==> p[1 + i] == #[trigger] t[i]);
    assert(p[1] == t[0] && p[2] == t[1] && p[3] == t[2] && p[4] == t[3] && p[5] == t[4] && p[6]
        == t[5] && p[7] == t[6] && p[8] == t[7]);
    assert(forall|i: int| 0 <= i < f.len() ==> p[9 + i] == #[trigger] f[i]);
    assert(forall|i: int| 0 <= i < g.len() ==> p[10 + a + i] == #[trigger] g[i]);
    assert(p[9] == f[0] && p[10 + a] == g[0]);
    assert forall|i: int| 0 <= i < app.len() implies p[10 + i] == (#[trigger] app[i]) as u8 by {
        assert(p[9 + (1 + i)] == f[1 + i]);
    }
    assert forall|i: int| 0 <= i < account.len() implies p[11 + a + i] == (
    #[trigger] account[i]) as u8 by {
        assert(p[10 + a + (1 + i)] == g[1 + i]);
    }
}

/// A READ_ONE request asks for the entry that it was made for: read as text fields,
/// what follows its head is first the issuer and then the account, with nothing
/// left over.
pub proof fn law_read_asks_for_its_entry(timestamp: u64, app: Seq<char>, account: Seq<char>)
    requires
        names_check(app, account) is Ok,
    ensures
        take_text(read_payload(timestamp, app, account).skip(9)) matches Ok((first, rest)) && first
            == app && take_text(rest) == Ok::<(Seq<char>, Seq<u8>), Fault>((account, seq![])),
{
    let p = read_payload(timestamp, app, account);
    proto::lemma_be_bytes_len(timestamp as nat, 8);
    let none = Seq::<u8>::empty();
    assert(p.skip(9) == text_field(app) + text_field(account));
    assert(text_field(account) == text_field(account) + none);
    lemma_take_text(app, text_field(account));
    lemma_take_text(account, none);
}

/// An entry in a response, byte by byte: each field is read from its own place, the
/// characters of each text in order, and the rest is what follows the last of them.
#[verifier::spinoff_prover]
#[verifier::rlimit(40)]
pub proof fn law_entry_fields_are_read(s: Seq<u8>, force_code: bool)
    ensures
        take_entry(s, force_code) matches Ok((e, rest)) ==> {
            let a = s[6] as int;
            let c = s[7 + a] as int;
            let with_code = force_code || (s[0] == 1 && s[5] == 0);
            let n = if with_code {
                1 + s[8 + a + c]
            } else {
                0int
            };
            &&& s.len() >= 8 + a + c + n
            &&& s[0] <= 1 && (s[1] == 0xC1 || s[1] == 0xC2) && s[5] <= 1 && c >= 1
            &&& e.otp_type is Totp <==> s[0] == 1
            &&& e.algorithm is Sha256 <==> s[1] == 0xC2
            &&& e.timestep == s[2] * 256 + s[3]
            &&& e.code_length == s[4]
            &&& e.button_required <==> s[5] == 1
            &&& e.app_name.len() == a
            &&& forall|i: int| 0 <= i < a ==> (#[trigger] e.app_name[i]) as int == s[7 + i]
            &&& e.account_name.len() == c
            &&& forall|i: int| 0 <= i < c ==> (#[trigger] e.account_name[i]) as int == s[8 + a + i]
            &&& e.code is Some <==> with_code
            &&& e.code matches Some(code) ==> code.len() == n - 1 && forall|i: int|
                0 <= i < code.len() ==> (#[trigger] code[i]) as int == s[9 + a + c + i]
            &&& rest == s.skip(8 + a + c + n)
        },
{
    if let Ok((e, rest)) = take_entry(s, force_code) {
        let t = s.skip(6);
        law_text_field_is_read(t);
        let s1 = take_text(t)->Ok_0.1;
        law_text_field_is_read(s1);
        let s2 = take_text(s1)->Ok_0.1;
        law_text_field_is_read(s2);
        let a = s[6] as int;
        assert(t[0] == s[6]);
        assert(s1 == s.skip(7 + a));
        let c = s[7 + a] as int;
        assert(s1[0] == s[7 + a]);
        assert(s2 == s.skip(8 + a + c));
        assert forall|i: int| 0 <= i < a implies (#[trigger] e.app_name[i]) as int == s[7 + i] by {
            assert(t[1 + i] == s[7 + i]);
        }
        assert forall|i: int| 0 <= i < c implies (#[trigger] e.account_name[i]) as int == s[8 + a
            + i] by {
            assert(s1[1 + i] == s[8 + a + i]);
        }
        if has_code(e.otp_type, e.button_required, force_code) {
            let code = e.code->0;
            let s3 = take_text(s2)->Ok_0.1;
            assert(s2[0] == s[8 + a + c]);
            assert forall|i: int| 0 <= i < code.len() implies (#[trigger] code[i]) as int == s[9 + a
                + c + i] by {
                assert(s2[1 + i] == s[9 + a + c + i]);
            }
            assert(s3 == s.skip(9 + a + c + s2[0]));
        }
    }
}

/// Which bytes hold an entry at their front, and what is wrong with those that do
/// not: the head's bytes are looked at from the front, then the text fields, of
/// which the second is not empty, and the third is there only where a code is due.
pub proof fn law_entry_faults(s: Seq<u8>, force_code: bool)
    ensures
        ({
            let r = take_entry(s, force_code);
            let head_ok = s.len() >= 6 && s[0] <= 1 && (s[1] == 0xC1 || s[1] == 0xC2) && s[5] <= 1;
            let first = take_text(s.skip(6));
            let s1 = first->Ok_0.1;
            let second = take_text(s1);
            let third = take_text(second->Ok_0.1);
            let with_code = force_code || (s[0] == 1 && s[5] == 0);
            &&& s.len() == 0 ==> r == Err::<(EntryView, Seq<u8>), Fault>(Fault::Truncated)
            &&& s.len() >= 1 && s[0] > 1 ==> r == Err::<(EntryView, Seq<u8>), Fault>(
                Fault::Malformed("unknown OTP type byte"@),
            )
            &&& s.len() == 1 && s[0] <= 1 ==> r == Err::<(EntryView, Seq<u8>), Fault>(
                Fault::Truncated,
            )
            &&& s.len() >= 2 && s[0] <= 1 && s[1] != 0xC1 && s[1] != 0xC2 ==> r == Err::<
                (EntryView, Seq<u8>),
                Fault,
            >(Fault::Malformed("unknown algorithm byte"@))
            &&& 2 <= s.len() < 6 && s[0] <= 1 && (s[1] == 0xC1 || s[1] == 0xC2) ==> r == Err::<
                (EntryView, Seq<u8>),
                Fault,
            >(Fault::Truncated)
            &&& s.len() >= 6 && s[0] <= 1 && (s[1] == 0xC1 || s[1] == 0xC2) && s[5] > 1 ==> r
                == Err::<(EntryView, Seq<u8>), Fault>(Fault::Malformed("button flag not 0/1"@))
            &&& head_ok && first is Err ==> r is Err && r->Err_0 == first->Err_0
            &&& head_ok && first is Ok && s1.len() > 0 && s1[0] == 0 ==> r == Err::<
                (EntryView, Seq<u8>),
                Fault,
            >(Fault::Malformed("account_name length is zero"@))
            &&& head_ok && first is Ok && (s1.len() == 0 || s1[0] > 0) ==> {
                &&& second is Err ==> r is Err && r->Err_0 == second->Err_0
                &&& second is Ok && with_code && third is Err ==> r is Err && r->Err_0
                    == third->Err_0
                &&& second is Ok && (with_code ==> third is Ok) ==> r is Ok
            }
        }),
{
}

/// What a response can carry: ASCII names of up to 255 characters, of which the
/// account is not empty, and a code exactly where one is due.
pub proof fn law_what_a_response_carries(e: EntryView, force_code: bool)
    ensures
        e.fits(force_code) <==> {
            &&& e.app_name.len() <= 255 && 1 <= e.account_name.len() <= 255
            &&& forall|i: int| 0 <= i < e.app_name.len() ==> (#[trigger] e.app_name[i]) as int <= 127
            &&& forall|i: int|
                0 <= i < e.account_name.len() ==> (#[trigger] e.account_name[i]) as int <= 127
            &&& e.code is Some <==> force_code || (e.otp_type is Totp && !e.button_required)
            &&& e.code matches Some(code) ==> code.len() <= 255 && forall|i: int|
                0 <= i < code.len() ==> (#[trigger] code[i]) as int <= 127
        },
{
    lemma_ascii_chars(e.app_name);
    lemma_ascii_chars(e.account_name);
    if let Some(code) = e.code {
        lemma_ascii_chars(code);
    }
}

/// The entries of a page lie end to end in order, and the page's mark takes up the
/// highest bit of the first byte and nothing else.
pub proof fn law_page_layout(entries: Seq<EntryView>, more: Seq<EntryView>, more_pages: bool)
    requires
        entries.len() > 0,
    ensures
        entries_bytes(seq![]) == Seq::<u8>::empty(),
        entries_bytes(seq![entries[0]]) == entries[0].bytes(),
        entries_bytes(entries + more) == entries_bytes(entries) + entries_bytes(more),
        ({
            let packed = entries_bytes(entries);
            let page = page_bytes(entries, more_pages);
            &&& page.len() == packed.len()
            &&& packed[0] <= 1
            &&& page[0] == packed[0] + (if more_pages {
                128int
            } else {
                0
            })
            &&& forall|i: int| 1 <= i < page.len() ==> #[trigger] page[i] == packed[i]
        }),
{
    lemma_entries_bytes_join(entries, more);
    let one = seq![entries[0]];
    assert(one.drop_first() == Seq::<EntryView>::empty());
    assert(entries_bytes(one.drop_first()) == Seq::<u8>::empty());
    assert(entries_bytes(one) == one[0].bytes() + entries_bytes(one.drop_first()));
    assert(entries[0].bytes() + Seq::<u8>::empty() == entries[0].bytes());
    let b = entries_bytes(entries)[0];
    assert(b == entries[0].otp_type.byte());
    assert(b | 0x80u8 == b + 128 && b | 0u8 == b) by (bit_vector)
        requires
            b <= 1,
    ;
}

proof fn lemma_entries_bytes_join(a: Seq<EntryView>, b: Seq<EntryView>)
    ensures
        entries_bytes(a + b) == entries_bytes(a) + entries_bytes(b),
    decreases a.len(),
{
    if a.len() == 0 {
        assert(a + b == b);
        assert(entries_bytes(a) + entries_bytes(b) == entries_bytes(b));
    } else {
        let t = a.drop_first();
        lemma_entries_bytes_join(t, b);
        assert((a + b).drop_first() == t + b);
        assert(a[0].bytes() + (entries_bytes(t) + entries_bytes(b)) == a[0].bytes() + entries_bytes(
            t,
        ) + entries_bytes(b));
    }
}

/// An entry's bytes in a response: type, algorithm, step in two bytes with the
/// higher first, digits and button flag; then issuer, account and, where there is
/// one, the code, each with its length before it.
pub proof fn law_entry_bytes_layout(e: EntryView)
    requires
        e.app_name.len() <= 255,
        e.account_name.len() <= 255,
        e.code matches Some(code) ==> code.len() <= 255,
    ensures
        ({
            let p = e.bytes();
            let a = e.app_name.len() as int;
            let c = e.account_name.len() as int;
            &&& p.len() == 8 + a + c + (match e.code {
                Some(code) => 1 + code.len(),
                None => 0,
            })
            &&& p[0] == (if e.otp_type is Totp {
                1u8
            } else {
                0u8
            })
            &&& p[1] == (if e.algorithm is Sha256 {
                0xC2u8
            } else {
                0xC1u8
            })
            &&& p[2] * 256 + p[3] == e.timestep
            &&& p[4] == e.code_length
            &&& p[5] == (if e.button_required {
                1u8
            } else {
                0u8
            })
            &&& p[6] == a
            &&& forall|i: int| 0 <= i < a ==> p[7 + i] == (#[trigger] e.app_name[i]) as u8
            &&& p[7 + a] == c
            &&& forall|i: int| 0 <= i < c ==> p[8 + a + i] == (#[trigger] e.account_name[i]) as u8
            &&& e.code matches Some(code) ==> p[8 + a + c] == code.len() && forall|i: int|
                0 <= i < code.len() ==> p[9 + a + c + i] == (#[trigger] code[i]) as u8
        }),
{
    let p = e.bytes();
    let a = e.app_name.len() as int;
    let c = e.account_name.len() as int;
    law_text_field_layout(e.app_name);
    law_text_field_layout(e.account_name);
    let f = text_field(e.app_name);
    let g = text_field(e.account_name);
    assert(forall|i: int| 0 <= i < f.len() ==> p[6 + i] == #[trigger] f[i]);
    assert(forall|i: int| 0 <= i < g.len() ==> p[7 + a + i] == #[trigger] g[i]);
    assert(p[6] == f[0] && p[7 + a] == g[0]);
    assert forall|i: int| 0 <= i < a implies p[7 + i] == (#[trigger] e.app_name[i]) as u8 by {
        assert(p[6 + (1 + i)] == f[1 + i]);
    }
    assert forall|i: int| 0 <= i < c implies p[8 + a + i] == (
    #[trigger] e.account_name[i]) as u8 by {
        assert(p[7 + a + (1 + i)] == g[1 + i]);
    }
    if let Some(code) = e.code {
        law_text_field_layout(code);
        let h = text_field(code);
        assert(forall|i: int| 0 <= i < h.len() ==> p[8 + a + c + i] == #[trigger] h[i]);
        assert(p[8 + a + c] == h[0]);
        assert forall|i: int| 0 <= i < code.len() implies p[9 + a + c + i] == (
        #[trigger] code[i]) as u8 by {
            assert(p[8 + a + c + (1 + i)] == h[1 + i]);
        }
    }
}

/// A page that breaks off is refused for what breaks it: behind any entries, bytes
/// from which no entry can be taken make the page fail with that fault.
pub proof fn law_page_fault(entries: Seq<EntryView>, rest: Seq<u8>, more_pages: bool)
    requires
        entries.len() > 0,
        forall|i: int| 0 <= i < entries.len() ==> (#[trigger] entries[i]).fits(false),
        rest.len() > 0,
        take_entry(rest, false) is Err,
    ensures
        page_of(page_bytes(entries, more_pages) + rest) == Err::<(Seq<EntryView>, bool), Fault>(
            take_entry(rest, false)->Err_0,
        ),
        page_of(seq![]) == Err::<(Seq<EntryView>, bool), Fault>(Fault::Truncated),
{
    let f = take_entry(rest, false)->Err_0;
    assert(breaks_with(rest, f)) by {
        reveal(breaks_with);
    }
    lemma_entries_then_fault(entries, rest, f);
    reveal(breaks_with);
    let packed = entries_bytes(entries);
    let data = page_bytes(entries, more_pages) + rest;
    let b = packed[0];
    assert(b == entries[0].otp_type.byte());
    assert((b | 0x80u8) & 0x7F == b && (b | 0u8) & 0x7F == b) by (bit_vector)
        requires
            b <= 1,
    ;
    assert(data.update(0, data[0] & 0x7F) == packed + rest);
}

/// A page from which not even the first entry can be taken is refused for that.
pub proof fn law_page_fault_at_front(data: Seq<u8>)
    requires
        data.len() > 0,
        take_entry(data.update(0, (data[0] % 128) as u8), false) is Err,
    ensures
        page_of(data) == Err::<(Seq<EntryView>, bool), Fault>(
            take_entry(data.update(0, (data[0] % 128) as u8), false)->Err_0,
        ),
{
    let b = data[0];
    assert(b & 0x7F == b % 128) by (bit_vector);
}

/// Whether unpacking the bytes `s` fails with the fault `f`.
#[verifier::opaque]
spec fn breaks_with(s: Seq<u8>, f: Fault) -> bool {
    take_entries(s) == Err::<Seq<EntryView>, Fault>(f)
}

#[verifier::spinoff_prover]
proof fn lemma_entry_then_fault(e: EntryView, rest: Seq<u8>, f: Fault)
    requires
        e.fits(false),
        breaks_with(rest, f),
    ensures
        breaks_with(e.bytes() + rest, f),
{
    reveal(breaks_with);
    law_entry_round_trip(e, false, rest);
    lemma_take_entry_shrinks(e.bytes() + rest, false);
}

proof fn lemma_entries_then_fault(entries: Seq<EntryView>, rest: Seq<u8>, f: Fault)
    requires
        forall|i: int| 0 <= i < entries.len() ==> (#[trigger] entries[i]).fits(false),
        breaks_with(rest, f),
    ensures
        breaks_with(entries_bytes(entries) + rest, f),
    decreases entries.len(),
{
    if entries.len() == 0 {
        assert(entries_bytes(entries) + rest == rest);
    } else {
        let tail = entries.drop_first();
        assert forall|i: int| 0 <= i < tail.len() implies (#[trigger] tail[i]).fits(false) by {
            assert(tail[i] == entries[i + 1]);
        }
        lemma_entries_then_fault(tail, rest, f);
        lemma_entry_then_fault(entries[0], entries_bytes(tail) + rest, f);
        assert(entries_bytes(entries) + rest == entries[0].bytes() + (entries_bytes(tail) + rest));
    }
}

} // verus!
