//! Scan a TOTP QR code from the screen(s) for the Add dialog.
//!
//! The pictures of the connected displays are searched for a QR code that encodes
//! an `otpauth://totp/...` URI, and the fields needed to add a profile are taken
//! from it. Nothing is sent anywhere — decoding happens entirely locally.

use crate::proto;
use crate::text;
use vstd::prelude::*;
use vstd::slice::slice_subrange;
use vstd::utf8::*;

verus! {

/// The TOTP parameters parsed from a scanned `otpauth://` URI. Fields that the
/// URI doesn't specify are left as `None` so the caller can keep its defaults.
#[derive(Debug, Clone)]
pub struct ScannedTotp {
    pub issuer: Option<String>,
    pub account: Option<String>,
    /// Base32 secret (required — its absence is an error).
    pub secret: String,
    pub algorithm: Option<Algo>,
    pub digits: Option<u8>,
    pub period: Option<u16>,
}

#[derive(Debug, Clone, Copy, PartialEq, Eq, Structural)]
pub enum Algo {
    Sha1,
    Sha256,
    Sha512,
}

/// The TOTP parameters with their texts as characters.
#[verifier::ext_equal]
pub struct TotpView {
    pub issuer: Option<Seq<char>>,
    pub account: Option<Seq<char>>,
    pub secret: Seq<char>,
    pub algorithm: Option<Algo>,
    pub digits: Option<u8>,
    pub period: Option<u16>,
}

/// An optional text as characters.
pub open spec fn optional_text(s: Option<String>) -> Option<Seq<char>> {
    match s {
        Some(s) => Some(s@),
        None => None,
    }
}

impl View for ScannedTotp {
    type V = TotpView;

    open spec fn view(&self) -> TotpView {
        TotpView {
            issuer: optional_text(self.issuer),
            account: optional_text(self.account),
            secret: self.secret@,
            algorithm: self.algorithm,
            digits: self.digits,
            period: self.period,
        }
    }
}

/// The parameters of which nothing is known yet.
pub open spec fn no_parameters() -> TotpView {
    TotpView {
        issuer: None,
        account: None,
        secret: seq![],
        algorithm: None,
        digits: None,
        period: None,
    }
}

impl Default for ScannedTotp {
    fn default() -> (t: ScannedTotp)
        ensures
            t@ == no_parameters(),
    {
        ScannedTotp {
            issuer: None,
            account: None,
            secret: String::new(),
            algorithm: None,
            digits: None,
            period: None,
        }
    }
}

// --- percent decoding ----------------------------------------------------------

/// The value of a hexadecimal digit in ASCII.
pub fn hex_val(b: u8) -> (r: Option<u8>)
    ensures
        r == proto::nibble_value(b),
        r is Some ==> r->0 < 16,
{
    match b {
        0x30..=0x39 => Some(b - 0x30),
        0x61..=0x66 => Some(b - 0x61 + 10),
        0x41..=0x46 => Some(b - 0x41 + 10),
        _ => None,
    }
}

/// Whether `b` begins with a percent sign and two hexadecimal digits.
pub open spec fn escape_at_front(b: Seq<u8>) -> bool {
    &&& b.len() > 2
    &&& b[0] == 0x25
    &&& proto::nibble_value(b[1]) is Some
    &&& proto::nibble_value(b[2]) is Some
}

/// The bytes that percent-encoded bytes stand for: `%XX` is the byte with that
/// hexadecimal value, `+` is a space, and everything else is itself.
pub open spec fn percent_bytes(b: Seq<u8>) -> Seq<u8>
    decreases b.len(),
{
    if b.len() == 0 {
        seq![]
    } else if escape_at_front(b) {
        seq![(proto::nibble_value(b[1])->0 * 16 + proto::nibble_value(b[2])->0) as u8]
            + percent_bytes(b.skip(3))
    } else if b[0] == 0x2B {
        seq![0x20u8] + percent_bytes(b.skip(1))
    } else {
        seq![b[0]] + percent_bytes(b.skip(1))
    }
}

/// The bytes that percent-encoded bytes stand for.
pub fn percent_decode_bytes(bytes: &[u8]) -> (out: Vec<u8>)
    ensures
        out@ == percent_bytes(bytes@),
{
    let len: usize = bytes.len();
    let mut out: Vec<u8> = Vec::new();
    let mut i: usize = 0;
    assert(bytes@.skip(0) == bytes@);
    assert(out@ + percent_bytes(bytes@) == percent_bytes(bytes@));
    while i < len
        invariant
            len == bytes@.len(),
            i <= len,
            out@ + percent_bytes(bytes@.skip(i as int)) == percent_bytes(bytes@),
        decreases len - i,
    {
        let ghost rest = bytes@.skip(i as int);
        let ghost before = out@;
        let b: u8 = bytes[i];
        let mut escaped: Option<u8> = None;
        if b == 0x25 && len - i > 2 {
            let hi: Option<u8> = hex_val(bytes[i + 1]);
            let lo: Option<u8> = hex_val(bytes[i + 2]);
            if let (Some(hi), Some(lo)) = (hi, lo) {
                escaped = Some(hi * 16 + lo);
            }
        }
        match escaped {
            Some(v) => {
                assert(escape_at_front(rest));
                out.push(v);
                assert(rest.skip(3) == bytes@.skip(i + 3));
                assert(before + percent_bytes(rest) == out@ + percent_bytes(bytes@.skip(i + 3)));
                i = i + 3;
            },
            None => {
                assert(!escape_at_front(rest));
                out.push(
                    if b == 0x2B {
                        0x20
                    } else {
                        b
                    },
                );
                assert(rest.skip(1) == bytes@.skip(i + 1));
                assert(before + percent_bytes(rest) == out@ + percent_bytes(bytes@.skip(i + 1)));
                i = i + 1;
            },
        }
    }
    assert(percent_bytes(bytes@.skip(len as int)) == Seq::<u8>::empty());
    assert(out@ + Seq::<u8>::empty() == out@);
    out
}

/// The text that `String::from_utf8_lossy` makes of bytes.
pub uninterp spec fn lossy_text(bytes: Seq<u8>) -> Seq<char>;

/// `String::from_utf8_lossy` of the standard library: the text that the bytes
/// encode where they are UTF-8. What stands for the parts that are not is left to
/// the name `lossy_text`.
#[verifier::external_body]
fn from_utf8_lossy(bytes: &[u8]) -> (s: String)
    ensures
        s@ == lossy_text(bytes@),
        valid_utf8(bytes@) ==> s@ == decode_utf8(bytes@),
{
    String::from_utf8_lossy(bytes).into_owned()
}

/// The text that percent-encoded text stands for: what its bytes encode where they
/// are UTF-8, and what is made of them where they are not.
pub open spec fn percent_text(s: Seq<char>) -> Seq<char> {
    let b = percent_bytes(encode_utf8(s));
    if valid_utf8(b) {
        decode_utf8(b)
    } else {
        lossy_text(b)
    }
}

proof fn lemma_bytes_stay(b: Seq<u8>)
    requires
        forall|i: int| 0 <= i < b.len() ==> (#[trigger] b[i]) != 0x25 && b[i] != 0x2B,
    ensures
        percent_bytes(b) == b,
    decreases b.len(),
{
    if b.len() > 0 {
        let t = b.skip(1);
        assert forall|i: int| 0 <= i < t.len() implies (#[trigger] t[i]) != 0x25 && t[i]
            != 0x2B by {
            assert(t[i] == b[i + 1]);
        }
        lemma_bytes_stay(t);
        assert(b[0] != 0x25 && b[0] != 0x2B);
        assert(seq![b[0]] + t == b);
    }
}

proof fn lemma_scalar_bytes(c: u32)
    requires
        c != 0x25,
        c != 0x2B,
    ensures
        forall|i: int|
            0 <= i < encode_scalar(c).len() ==> (#[trigger] encode_scalar(c)[i]) != 0x25
                && encode_scalar(c)[i] != 0x2B,
{
    assert(has_width_1_encoding(c) ==> leading_byte_width_1(c) != 0x25 && leading_byte_width_1(c)
        != 0x2B) by (bit_vector)
        requires
            c != 0x25,
            c != 0x2B,
    ;
    assert(leading_byte_width_2(c) >= 0x80 && leading_byte_width_3(c) >= 0x80
        && leading_byte_width_4(c) >= 0x80 && third_last_continuation_byte(c) >= 0x80
        && second_last_continuation_byte(c) >= 0x80 && last_continuation_byte(c) >= 0x80)
        by (bit_vector);
}

proof fn lemma_char_bytes(c: char)
    requires
        c != '%',
        c != '+',
    ensures
        forall|i: int|
            0 <= i < encode_scalar(c as u32).len() ==> (#[trigger] encode_scalar(c as u32)[i])
                != 0x25 && encode_scalar(c as u32)[i] != 0x2B,
{
    lemma_scalar_bytes(c as u32);
}

proof fn lemma_encoding_stays(s: Seq<char>)
    requires
        forall|i: int| 0 <= i < s.len() ==> (#[trigger] s[i]) != '%' && s[i] != '+',
    ensures
        forall|i: int|
            0 <= i < encode_utf8(s).len() ==> (#[trigger] encode_utf8(s)[i]) != 0x25
                && encode_utf8(s)[i] != 0x2B,
    decreases s.len(),
{
    if s.len() > 0 {
        let t = s.drop_first();
        assert forall|i: int| 0 <= i < t.len() implies (#[trigger] t[i]) != '%' && t[i] != '+' by {
            assert(t[i] == s[i + 1]);
        }
        lemma_encoding_stays(t);
        assert(s[0] != '%' && s[0] != '+');
        lemma_char_bytes(s[0]);
        let head = encode_scalar(s[0] as u32);
        assert forall|i: int| 0 <= i < encode_utf8(s).len() implies (#[trigger] encode_utf8(s)[i])
            != 0x25 && encode_utf8(s)[i] != 0x2B by {
            if i < head.len() {
                assert(encode_utf8(s)[i] == head[i]);
            } else {
                assert(encode_utf8(s)[i] == encode_utf8(t)[i - head.len()]);
            }
        }
    }
}

/// Minimal percent-decoder for otpauth labels/values (handles `%XX` and `+`).
pub fn percent_decode(s: &str) -> (r: String)
    ensures
        r@ == percent_text(s@),
        r@ == lossy_text(percent_bytes(encode_utf8(s@))),
        valid_utf8(percent_bytes(encode_utf8(s@))) ==> r@ == decode_utf8(
            percent_bytes(encode_utf8(s@)),
        ),
        (forall|i: int| 0 <= i < s@.len() ==> (#[trigger] s@[i]) != '%' && s@[i] != '+') ==> r@
            == s@,
{
    let bytes = percent_decode_bytes(s.as_bytes());
    proof {
        encode_utf8_valid_utf8(s@);
        encode_utf8_decode_utf8(s@);
        if forall|i: int| 0 <= i < s@.len() ==> (#[trigger] s@[i]) != '%' && s@[i] != '+' {
            lemma_encoding_stays(s@);
            lemma_bytes_stay(encode_utf8(s@));
        }
    }
    from_utf8_lossy(bytes.as_slice())
}

/// The percent encoding of bytes that escapes every one of them.
pub open spec fn escaped(b: Seq<u8>) -> Seq<u8>
    decreases b.len(),
{
    if b.len() == 0 {
        seq![]
    } else {
        seq![0x25u8] + text::ascii_bytes(text::hex_pair(b[0])) + escaped(b.skip(1))
    }
}

/// An escape stands for its byte: bytes that are escaped one by one decode to
/// themselves, whatever follows them.
pub proof fn law_escapes_decode(b: Seq<u8>, rest: Seq<u8>)
    ensures
        percent_bytes(escaped(b) + rest) == b + percent_bytes(rest),
    decreases b.len(),
{
    if b.len() == 0 {
        assert(escaped(b) + rest == rest);
        assert(b + percent_bytes(rest) == percent_bytes(rest));
    } else {
        let coded = escaped(b) + rest;
        let pair = text::hex_pair(b[0]);
        assert(coded[0] == 0x25 && coded[1] == pair[0] as u8 && coded[2] == pair[1] as u8);
        assert(coded.skip(3) == escaped(b.skip(1)) + rest);
        law_escapes_decode(b.skip(1), rest);
        assert(seq![b[0]] + (b.skip(1) + percent_bytes(rest)) == b + percent_bytes(rest));
    }
}

// --- otpauth URIs --------------------------------------------------------------

/// `s`, where there is anything in it.
pub open spec fn non_empty(s: Seq<char>) -> Option<Seq<char>> {
    if s.len() == 0 {
        None
    } else {
        Some(s)
    }
}

/// What a decoded label says: "Issuer:Account" or just "Account".
pub open spec fn with_label(label: Seq<char>) -> TotpView {
    match text::split_once(label, ':') {
        Some((issuer, account)) => TotpView {
            issuer: non_empty(text::trimmed(issuer)),
            account: non_empty(text::trimmed(account)),
            ..no_parameters()
        },
        None => TotpView { account: non_empty(text::trimmed(label)), ..no_parameters() },
    }
}

/// The algorithm of a name, in either letter case.
pub open spec fn algo_of(name: Seq<char>) -> Option<Algo> {
    let upper = name.map_values(|c: char| text::ascii_upper(c));
    if upper == "SHA1"@ {
        Some(Algo::Sha1)
    } else if upper == "SHA256"@ {
        Some(Algo::Sha256)
    } else if upper == "SHA512"@ {
        Some(Algo::Sha512)
    } else {
        None
    }
}

/// `t` with what one parameter says: its key in small letters and its decoded
/// value. A parameter of another name says nothing.
pub open spec fn with_param(t: TotpView, key: Seq<char>, val: Seq<char>) -> TotpView {
    if key == "secret"@ {
        TotpView { secret: text::trimmed(val), ..t }
    } else if key == "issuer"@ {
        match non_empty(text::trimmed(val)) {
            Some(issuer) => TotpView { issuer: Some(issuer), ..t },
            None => t,
        }
    } else if key == "algorithm"@ {
        TotpView { algorithm: algo_of(val), ..t }
    } else if key == "digits"@ {
        TotpView {
            digits: match text::number_up_to(text::trimmed(val), 10, 255) {
                Some(n) => Some(n as u8),
                None => None,
            },
            ..t
        }
    } else if key == "period"@ {
        TotpView {
            period: match text::number_up_to(text::trimmed(val), 10, 65535) {
                Some(n) => Some(n as u16),
                None => None,
            },
            ..t
        }
    } else {
        t
    }
}

/// The key of one `key=value` part of a query, in small letters.
pub open spec fn key_of(pair: Seq<char>) -> Option<Seq<char>> {
    match text::split_once(pair, '=') {
        Some((k, v)) => Some(k.map_values(|c: char| text::ascii_lower(c))),
        None => None,
    }
}

/// `t` with what one part of a query says. A part without an equals sign says
/// nothing.
pub open spec fn with_pair(t: TotpView, pair: Seq<char>) -> TotpView {
    match text::split_once(pair, '=') {
        Some((k, v)) => with_param(
            t,
            k.map_values(|c: char| text::ascii_lower(c)),
            percent_text(v),
        ),
        None => t,
    }
}

/// `t` with what the parts of a query say, one after the other.
pub open spec fn with_pairs(t: TotpView, pairs: Seq<Seq<char>>) -> TotpView
    decreases pairs.len(),
{
    if pairs.len() == 0 {
        t
    } else {
        with_pair(with_pairs(t, pairs.drop_last()), pairs.last())
    }
}

/// A URI's part behind its scheme and type, where they are `otpauth` and `totp`.
pub open spec fn totp_part(uri: Seq<char>) -> Result<Seq<char>, Seq<char>> {
    let u = text::trimmed(uri);
    if "otpauth://totp/"@.is_prefix_of(u) || "otpauth://TOTP/"@.is_prefix_of(u) {
        Ok(u.skip(15))
    } else if "otpauth://hotp/"@.is_prefix_of(u) {
        Err("this is an HOTP code; only TOTP is supported"@)
    } else {
        Err("the QR code is not an otpauth://totp code"@)
    }
}

/// The label and the query behind it.
pub open spec fn label_and_query(rest: Seq<char>) -> (Seq<char>, Seq<char>) {
    match text::split_once(rest, '?') {
        Some((label, query)) => (label, query),
        None => (rest, seq![]),
    }
}

/// The parameters that a URI's label and query say.
pub open spec fn totp_parameters(rest: Seq<char>) -> TotpView {
    let (label, query) = label_and_query(rest);
    with_pairs(with_label(percent_text(label)), text::pieces(query, '&'))
}

/// The parameters that a URI stands for, or why it stands for none.
pub open spec fn otpauth_of(uri: Seq<char>) -> Result<TotpView, Seq<char>> {
    match totp_part(uri) {
        Err(e) => Err(e),
        Ok(rest) => {
            let t = totp_parameters(rest);
            if t.secret.len() == 0 {
                Err("the QR code has no secret — nothing to add"@)
            } else {
                Ok(t)
            }
        },
    }
}

fn some_if_not_empty(s: &[char]) -> (r: Option<String>)
    ensures
        optional_text(r) == non_empty(s@),
{
    if s.len() == 0 {
        None
    } else {
        Some(text::to_text(s))
    }
}

/// Take the issuer and the account from a decoded label: "Issuer:Account" or just
/// "Account".
pub fn apply_label(label: &str) -> (t: ScannedTotp)
    ensures
        t@ == with_label(label@),
{
    let mut out = ScannedTotp::default();
    let label = text::to_chars(label);
    match text::cut(label.as_slice(), ':') {
        Some((issuer, account)) => {
            out.issuer = some_if_not_empty(text::trim(issuer));
            out.account = some_if_not_empty(text::trim(account));
        },
        None => {
            out.account = some_if_not_empty(text::trim(label.as_slice()));
        },
    }
    out
}

fn parse_algo(name: &[char]) -> (r: Option<Algo>)
    ensures
        r == algo_of(name@),
{
    let upper = text::to_ascii_uppercase(name);
    if text::spells(upper.as_slice(), "SHA1") {
        Some(Algo::Sha1)
    } else if text::spells(upper.as_slice(), "SHA256") {
        Some(Algo::Sha256)
    } else if text::spells(upper.as_slice(), "SHA512") {
        Some(Algo::Sha512)
    } else {
        None
    }
}

/// Take one query parameter into account: its key in small letters and its
/// decoded value.
pub fn apply_param(t: ScannedTotp, key: &str, val: &str) -> (r: ScannedTotp)
    ensures
        r@ == with_param(t@, key@, val@),
{
    let mut out = t;
    let val = text::to_chars(val);
    let value = text::trim(val.as_slice());
    if text::same_text(key, "secret") {
        out.secret = text::to_text(value);
    } else if text::same_text(key, "issuer") {
        if value.len() > 0 {
            // Prefer an explicit issuer parameter over the label prefix.
            out.issuer = Some(text::to_text(value));
        }
    } else if text::same_text(key, "algorithm") {
        out.algorithm = parse_algo(val.as_slice());
    } else if text::same_text(key, "digits") {
        out.digits = match text::parse_number(value, 10, 255) {
            Some(n) => Some(n as u8),
            None => None,
        };
    } else if text::same_text(key, "period") {
        out.period = match text::parse_number(value, 10, 65535) {
            Some(n) => Some(n as u16),
            None => None,
        };
    }
    out
}

/// Parse an `otpauth://totp/LABEL?secret=...&issuer=...&algorithm=...` URI.
pub fn parse_otpauth(uri: &str) -> (r: Result<ScannedTotp, String>)
    ensures
        match r {
            Ok(t) => otpauth_of(uri@) == Ok::<TotpView, Seq<char>>(t@),
            Err(e) => otpauth_of(uri@) == Err::<TotpView, Seq<char>>(e@),
        },
{
    let chars = text::to_chars(uri);
    let uri = text::trim(chars.as_slice());
    proof {
        reveal_strlit("otpauth://totp/");
        reveal_strlit("otpauth://TOTP/");
    }
    let rest = if text::starts_with(uri, "otpauth://totp/") || text::starts_with(
        uri,
        "otpauth://TOTP/",
    ) {
        slice_subrange(uri, 15, uri.len())
    } else if text::starts_with(uri, "otpauth://hotp/") {
        return Err(text::owned("this is an HOTP code; only TOTP is supported"));
    } else {
        return Err(text::owned("the QR code is not an otpauth://totp code"));
    };
    assert(rest@ == uri@.skip(15));

    // Split label and query.
    let (label, query) = match text::cut(rest, '?') {
        Some((l, q)) => (l, q),
        None => (rest, slice_subrange(rest, 0, 0)),
    };
    assert((label@, query@) == label_and_query(rest@));

    // Label is "Issuer:Account" or just "Account" (percent-encoded).
    let label = percent_decode(text::to_text(label).as_str());
    let mut out = apply_label(label.as_str());

    // Query parameters.
    let pairs = text::split(query, '&');
    let ghost start = out@;
    let ghost all = text::pieces(query@, '&');
    for i in 0..pairs.len()
        invariant
            text::texts(pairs@) == all,
            out@ == with_pairs(start, all.take(i as int)),
    {
        let pair = pairs[i];
        proof {
            assert(text::texts(pairs@)[i as int] == pair@);
            assert(all.take(i + 1).drop_last() == all.take(i as int));
            assert(all.take(i + 1).last() == pair@);
        }
        if let Some((k, v)) = text::cut(pair, '=') {
            let key = text::to_text(text::to_ascii_lowercase(k).as_slice());
            let val = percent_decode(text::to_text(v).as_str());
            out = apply_param(out, key.as_str(), val.as_str());
        }
    }
    assert(all.take(all.len() as int) == all);

    if out.secret.as_str().is_empty() {
        return Err(text::owned("the QR code has no secret — nothing to add"));
    }
    Ok(out)
}

// --- pictures and grids --------------------------------------------------------

/// A picture in shades of gray, row by row from the top.
#[derive(Debug, Clone, PartialEq, Eq)]
pub struct LumaImage {
    pub width: u32,
    pub height: u32,
    pub pixels: Vec<u8>,
}

/// The length that the PNG chunk at `i` gives for its data: four bytes, the highest
/// first.
pub open spec fn chunk_len(file: Seq<u8>, i: int) -> int {
    file[i] * 0x1000000 + file[i + 1] * 0x10000 + file[i + 2] * 0x100 + file[i + 3]
}

/// Whether the PNG chunk at `i` is of a kind; the kind's four letters stand behind
/// the length.
pub open spec fn chunk_is(file: Seq<u8>, i: int, kind: Seq<u8>) -> bool {
    file.subrange(i + 4, i + 8) == kind
}

/// Header chunk: `IHDR`.
pub open spec fn header_kind() -> Seq<u8> {
    seq![0x49u8, 0x48, 0x44, 0x52]
}

/// Palette chunk: `PLTE`.
pub open spec fn palette_kind() -> Seq<u8> {
    seq![0x50u8, 0x4C, 0x54, 0x45]
}

/// Image data chunk: `IDAT`.
pub open spec fn data_kind() -> Seq<u8> {
    seq![0x49u8, 0x44, 0x41, 0x54]
}

/// Data chunk of an animation's frame: `fdAT`.
pub open spec fn frame_data_kind() -> Seq<u8> {
    seq![0x66u8, 0x64, 0x41, 0x54]
}

/// Whether the chunk at `i` holds pixels, of the image itself or of a frame.
pub open spec fn holds_pixels(file: Seq<u8>, i: int) -> bool {
    chunk_is(file, i, data_kind()) || chunk_is(file, i, frame_data_kind())
}

/// Whether the chunk at `i` is a header whose colour type, the tenth byte of its
/// data, says that the pixels are palette entries.
pub open spec fn says_indexed(file: Seq<u8>, i: int) -> bool {
    chunk_is(file, i, header_kind()) && chunk_len(file, i) >= 10 && file[i + 17] == 3
}

/// Whether the PNG chunks from `i` up to the first pixels hold only palettes that the
/// pixels can use: whole entries of three bytes, 256 of them at most. It matters only
/// where the pixels are palette entries, which is what `indexed` says as far as the
/// chunks before `i` go. A palette behind the first pixels comes too late to be used. A file that is no PNG has no chunks to refuse.
pub open spec fn palettes_fit(file: Seq<u8>, i: int, indexed: bool) -> bool
    decreases file.len() - i,
{
    if i < 0 || i + 12 > file.len() || holds_pixels(file, i) {
        true
    } else {
        let n = chunk_len(file, i);
        &&& indexed && chunk_is(file, i, palette_kind()) ==> n % 3 == 0 && n <= 768
        &&& n >= 0 && i + 12 + n <= file.len() ==> palettes_fit(
            file,
            i + 12 + n,
            indexed || says_indexed(file, i),
        )
    }
}

/// Whether the palettes of an image file fit: see `palettes_fit`. The chunks start
/// behind eight bytes of signature.
fn has_fitting_palettes(file: &[u8]) -> (r: bool)
    ensures
        r == palettes_fit(file@, 8, false),
{
    let mut i: usize = 8;
    let mut indexed = false;
    while i <= file.len() && file.len() - i >= 12
        invariant_except_break
            palettes_fit(file@, 8, false) == palettes_fit(file@, i as int, indexed),
        ensures
            palettes_fit(file@, 8, false),
        decreases file.len() - i,
    {
        let n: usize = file[i] as usize * 0x1000000 + file[i + 1] as usize * 0x10000 + file[i + 2]
            as usize * 0x100 + file[i + 3] as usize;
        let kind = slice_subrange(file, i + 4, i + 8);
        assert(kind@ == file@.subrange(i + 4, i + 8));
        if is_kind(kind, 0x49, 0x44, 0x41, 0x54) || is_kind(kind, 0x66, 0x64, 0x41, 0x54) {
            break;
        }
        if indexed && is_kind(kind, 0x50, 0x4C, 0x54, 0x45) && !(n % 3 == 0 && n <= 768) {
            return false;
        }
        if n > file.len() - i - 12 {
            break;
        }
        indexed = indexed || (is_kind(kind, 0x49, 0x48, 0x44, 0x52) && n >= 10 && file[i + 17]
            == 3);
        i = i + 12 + n;
    }
    true
}

/// Whether four letters of a chunk are these.
fn is_kind(kind: &[u8], a: u8, b: u8, c: u8, d: u8) -> (r: bool)
    requires
        kind@.len() == 4,
    ensures
        r == (kind@ == seq![a, b, c, d]),
{
    proof {
        let letters = seq![a, b, c, d];
        if kind@[0] == a && kind@[1] == b && kind@[2] == c && kind@[3] == d {
            assert(kind@ =~= letters);
        }
        assert(letters[0] == a && letters[1] == b && letters[2] == c && letters[3] == d);
    }
    kind[0] == a && kind[1] == b && kind[2] == c && kind[3] == d
}

/// The gray picture in an encoded image file: its width, its height and its
/// pixels.
pub uninterp spec fn gray_picture(file: Seq<u8>) -> Option<(u32, u32, Seq<u8>)>;

/// `image::load_from_memory`, with the loaded picture handed out as plain gray
/// pixels (`DynamicImage::to_luma8`). What picture a file holds is the name
/// `gray_picture`; there is none where the file cannot be loaded. A picture has
/// one pixel for each place in it. The PNG decoder behind the call stores a palette of
/// any length and panics when it expands pixels with one that does not fit, so such
/// files are left out.
#[verifier::external_body]
fn load_gray(file: &[u8]) -> (r: Option<LumaImage>)
    requires
        palettes_fit(file@, 8, false),
    ensures
        match r {
            Some(p) => gray_picture(file@) == Some((p.width, p.height, p.pixels@))
                && p.pixels@.len() == p.width * p.height,
            None => gray_picture(file@) is None,
        },
{
    match image::load_from_memory(file) {
        Ok(picture) => {
            let gray = picture.to_luma8();
            Some(LumaImage { width: gray.width(), height: gray.height(), pixels: gray.into_raw() })
        },
        Err(_) => None,
    }
}

/// The gray picture in a captured screen's image file, in which grids are then
/// looked for. `None` where the file is no image, or where its pixels come from a
/// palette that does not fit: the screen is then skipped.
pub fn decode_screen(file: &[u8]) -> (r: Option<LumaImage>)
    ensures
        palettes_fit(file@, 8, false) ==> match r {
            Some(p) => gray_picture(file@) == Some((p.width, p.height, p.pixels@))
                && p.pixels@.len() == p.width * p.height,
            None => gray_picture(file@) is None,
        },
        !palettes_fit(file@, 8, false) ==> r is None,
{
    if has_fitting_palettes(file) {
        load_gray(file)
    } else {
        None
    }
}

/// The cells of one square QR code, row by row from the top; `true` is black.
#[derive(Debug, Clone, PartialEq, Eq)]
pub struct GridBits {
    pub size: usize,
    pub bits: Vec<bool>,
}

/// Whether QR codes come in this size: 21 cells to a side for version 1, and four
/// more for each version up to 40.
pub open spec fn is_qr_size(size: nat) -> bool {
    21 <= size <= 177 && size % 4 == 1
}

impl GridBits {
    /// Whether there is one cell for each place of a square that QR codes come in.
    pub open spec fn is_square(self) -> bool {
        is_qr_size(self.size as nat) && self.bits@.len() == self.size * self.size
    }

    /// The cell in row `y` and column `x`.
    pub fn bit(&self, y: usize, x: usize) -> (b: bool)
        requires
            self.is_square(),
            y < self.size,
            x < self.size,
        ensures
            b == self.bits@[y * self.size + x],
    {
        assert(0 <= y * self.size + x < self.size * self.size <= 177 * 177) by (nonlinear_arith)
            requires
                y < self.size,
                x < self.size,
                self.size <= 177,
        ;
        assert(0 <= y * self.size <= 177 * 177) by (nonlinear_arith)
            requires
                y < self.size,
                self.size <= 177,
        ;
        self.bits[y * self.size + x]
    }
}

/// The text in a QR code with these cells, `size` to a side, where it can be read.
pub uninterp spec fn qr_text(size: nat, bits: Seq<bool>) -> Option<Seq<char>>;

/// `rqrr::Grid::decode`, on a grid made of the given cells. What text the cells
/// hold is the name `qr_text`; there is none where `rqrr` reports an error, whose
/// kind is not kept.
#[verifier::external_body]
fn decode_cells(grid: &GridBits) -> (r: Option<String>)
    requires
        grid.is_square(),
    ensures
        match r {
            Some(s) => qr_text(grid.size as nat, grid.bits@) == Some(s@),
            None => qr_text(grid.size as nat, grid.bits@) is None,
        },
{
    let cells = rqrr::SimpleGrid::from_func(grid.size, |x, y| grid.bit(y, x));
    match rqrr::Grid::new(cells).decode() {
        Ok((_, content)) => Some(content),
        Err(_) => None,
    }
}

/// The text in a grid's QR code. A grid in a size that QR codes do not come in
/// holds none.
pub open spec fn grid_text(grid: GridBits) -> Option<Seq<char>> {
    if grid.is_square() {
        qr_text(grid.size as nat, grid.bits@)
    } else {
        None
    }
}

/// Decode a grid.
pub fn decode_grid(grid: &GridBits) -> (r: Option<String>)
    ensures
        optional_text(r) == grid_text(*grid),
{
    if grid.size < 21 || grid.size > 177 || grid.size % 4 != 1 {
        return None;
    }
    let size: usize = grid.size;
    assert(size * size <= 177 * 177) by (nonlinear_arith)
        requires
            size <= 177,
    ;
    if grid.bits.len() != size * size {
        return None;
    }
    decode_cells(grid)
}

// --- picking the code ----------------------------------------------------------

/// The first of the decoded contents that is a usable TOTP URI.
pub open spec fn first_totp(contents: Seq<Option<Seq<char>>>) -> Option<TotpView>
    decreases contents.len(),
{
    if contents.len() == 0 {
        None
    } else {
        match contents[0] {
            Some(c) => match otpauth_of(c) {
                Ok(t) => Some(t),
                Err(_) => first_totp(contents.drop_first()),
            },
            None => first_totp(contents.drop_first()),
        }
    }
}

/// What is wrong with the last content that could be decoded, where anything is.
pub open spec fn last_note(contents: Seq<Option<Seq<char>>>) -> Option<Seq<char>>
    decreases contents.len(),
{
    if contents.len() == 0 {
        None
    } else {
        match contents.last() {
            Some(c) => match otpauth_of(c) {
                Ok(_) => None,
                Err(e) => Some(e),
            },
            None => last_note(contents.drop_last()),
        }
    }
}

/// What comes of the contents of the grids that were found, in the order in which
/// they were found. `None` stands for a grid that could not be decoded.
pub open spec fn pick_of(contents: Seq<Option<Seq<char>>>) -> Result<TotpView, Seq<char>> {
    match first_totp(contents) {
        Some(t) => Ok(t),
        None => match last_note(contents) {
            Some(note) => Err(note),
            None => if contents.len() > 0 {
                Err("a QR code was found, but it isn't a TOTP (otpauth://totp) code"@)
            } else {
                Err("no QR code found on screen — make sure the TOTP QR is visible"@)
            },
        },
    }
}

/// Decoded contents as characters.
pub open spec fn content_texts(contents: Seq<Option<String>>) -> Seq<Option<Seq<char>>> {
    contents.map_values(|c: Option<String>| optional_text(c))
}

proof fn lemma_first_totp_skips(contents: Seq<Option<Seq<char>>>, k: int)
    requires
        0 <= k <= contents.len(),
        forall|i: int|
            0 <= i < k ==> ((#[trigger] contents[i]) matches Some(c) ==> otpauth_of(c) is Err),
    ensures
        first_totp(contents) == first_totp(contents.skip(k)),
    decreases k,
{
    if k == 0 {
        assert(contents.skip(0) == contents);
    } else {
        let tail = contents.drop_first();
        assert(contents[0] matches Some(c) ==> otpauth_of(c) is Err);
        assert forall|i: int| 0 <= i < k - 1 implies ((#[trigger] tail[i]) matches Some(c)
            ==> otpauth_of(c) is Err) by {
            assert(tail[i] == contents[i + 1]);
        }
        lemma_first_totp_skips(tail, k - 1);
        assert(tail.skip(k - 1) == contents.skip(k));
    }
}

/// Return the first TOTP code among the contents of the grids that were found, or
/// an error describing why nothing usable was scanned.
pub fn pick_totp(contents: &[Option<String>]) -> (r: Result<ScannedTotp, String>)
    ensures
        match r {
            Ok(t) => pick_of(content_texts(contents@)) == Ok::<TotpView, Seq<char>>(t@),
            Err(e) => pick_of(content_texts(contents@)) == Err::<TotpView, Seq<char>>(e@),
        },
{
    let ghost texts = content_texts(contents@);
    let mut last_decode_note: Option<String> = None;
    for i in 0..contents.len()
        invariant
            texts == content_texts(contents@),
            optional_text(last_decode_note) == last_note(texts.take(i as int)),
            forall|j: int|
                0 <= j < i ==> ((#[trigger] texts[j]) matches Some(c) ==> otpauth_of(c) is Err),
    {
        proof {
            assert(texts[i as int] == optional_text(contents@[i as int]));
            assert(texts.take(i + 1).drop_last() == texts.take(i as int));
            assert(texts.take(i + 1).last() == texts[i as int]);
        }
        if let Some(content) = &contents[i] {
            match parse_otpauth(content.as_str()) {
                Ok(t) => {
                    proof {
                        lemma_first_totp_skips(texts, i as int);
                        assert(texts.skip(i as int)[0] == texts[i as int]);
                    }
                    return Ok(t);
                },
                Err(e) => {
                    last_decode_note = Some(e);
                },
            }
        }
    }
    proof {
        lemma_first_totp_skips(texts, texts.len() as int);
        assert(texts.take(texts.len() as int) == texts);
    }
    match last_decode_note {
        Some(note) => Err(note),
        None => if contents.len() > 0 {
            Err(text::owned("a QR code was found, but it isn't a TOTP (otpauth://totp) code"))
        } else {
            Err(text::owned("no QR code found on screen — make sure the TOTP QR is visible"))
        },
    }
}

/// The contents of all screens' grids, in order.
pub open spec fn screen_contents(screens: Seq<Vec<GridBits>>) -> Seq<Option<Seq<char>>>
    decreases screens.len(),
{
    if screens.len() == 0 {
        seq![]
    } else {
        screen_contents(screens.drop_last()) + screens.last()@.map_values(
            |g: GridBits| grid_text(g),
        )
    }
}

/// What comes of the grids that were found on the screens.
pub open spec fn scan_of(screens: Seq<Vec<GridBits>>) -> Result<TotpView, Seq<char>> {
    if screens.len() == 0 {
        Err("no screens available to scan"@)
    } else {
        pick_of(screen_contents(screens))
    }
}

/// Go through the grids that were found on all screens and return the first TOTP
/// QR found, or an error describing why nothing usable was scanned. A screen that
/// could not be captured has no grids.
pub fn scan_screens(screens: &[Vec<GridBits>]) -> (r: Result<ScannedTotp, String>)
    ensures
        match r {
            Ok(t) => scan_of(screens@) == Ok::<TotpView, Seq<char>>(t@),
            Err(e) => scan_of(screens@) == Err::<TotpView, Seq<char>>(e@),
        },
{
    if screens.len() == 0 {
        return Err(text::owned("no screens available to scan"));
    }
    let mut contents: Vec<Option<String>> = Vec::new();
    for i in 0..screens.len()
        invariant
            content_texts(contents@) == screen_contents(screens@.take(i as int)),
    {
        let grids = &screens[i];
        let ghost before = content_texts(contents@);
        let ghost of_screen = grids@.map_values(|g: GridBits| grid_text(g));
        for j in 0..grids.len()
            invariant
                of_screen == grids@.map_values(|g: GridBits| grid_text(g)),
                content_texts(contents@) == before + of_screen.take(j as int),
        {
            let ghost held = contents@;
            contents.push(decode_grid(&grids[j]));
            assert(content_texts(contents@) == content_texts(held).push(
                optional_text(contents@.last()),
            ));
            assert(of_screen.take(j + 1) == of_screen.take(j as int).push(of_screen[j as int]));
        }
        assert(of_screen.take(of_screen.len() as int) == of_screen);
        assert(screens@.take(i + 1).drop_last() == screens@.take(i as int));
    }
    assert(screens@.take(screens@.len() as int) == screens@);
    pick_totp(contents.as_slice())
}

// --- laws ----------------------------------------------------------------------

/// A URI is accepted only as a TOTP URI that has a secret.
pub proof fn law_accepted_uri_is_totp_with_secret(uri: Seq<char>)
    ensures
        otpauth_of(uri) matches Ok(t) ==> {
            &&& t.secret.len() > 0
            &&& "otpauth://totp/"@.is_prefix_of(text::trimmed(uri))
                || "otpauth://TOTP/"@.is_prefix_of(text::trimmed(uri))
        },
{
}

/// White space around a URI does not matter.
pub proof fn law_space_around_uri_is_ignored(uri: Seq<char>)
    ensures
        otpauth_of(text::trimmed(uri)) == otpauth_of(uri),
{
    text::lemma_trimmed_stays(uri);
}

/// Whether some part of a query has the given key.
pub open spec fn has_key(pairs: Seq<Seq<char>>, key: Seq<char>) -> bool {
    exists|i: int| 0 <= i < pairs.len() && key_of(#[trigger] pairs[i]) == Some(key)
}

proof fn lemma_keys_differ()
    ensures
        "secret"@ != "issuer"@,
        "secret"@ != "algorithm"@,
        "secret"@ != "digits"@,
        "secret"@ != "period"@,
        "issuer"@ != "algorithm"@,
        "issuer"@ != "digits"@,
        "issuer"@ != "period"@,
        "algorithm"@ != "digits"@,
        "algorithm"@ != "period"@,
        "digits"@ != "period"@,
{
    reveal_strlit("secret");
    reveal_strlit("issuer");
    reveal_strlit("algorithm");
    reveal_strlit("digits");
    reveal_strlit("period");
    assert("secret"@[0] == 's' && "issuer"@[0] == 'i' && "algorithm"@[0] == 'a' && "digits"@[0]
        == 'd' && "period"@[0] == 'p');
}

proof fn lemma_pairs_without_key(t: TotpView, pairs: Seq<Seq<char>>)
    ensures
        !has_key(pairs, "secret"@) ==> with_pairs(t, pairs).secret == t.secret,
        !has_key(pairs, "issuer"@) ==> with_pairs(t, pairs).issuer == t.issuer,
        !has_key(pairs, "algorithm"@) ==> with_pairs(t, pairs).algorithm == t.algorithm,
        !has_key(pairs, "digits"@) ==> with_pairs(t, pairs).digits == t.digits,
        !has_key(pairs, "period"@) ==> with_pairs(t, pairs).period == t.period,
        with_pairs(t, pairs).account == t.account,
    decreases pairs.len(),
{
    if pairs.len() > 0 {
        let init = pairs.drop_last();
        lemma_pairs_without_key(t, init);
        lemma_keys_differ();
        assert forall|key: Seq<char>| has_key(init, key) implies has_key(pairs, key) by {
            let i = choose|i: int| 0 <= i < init.len() && key_of(#[trigger] init[i]) == Some(key);
            assert(key_of(pairs[i]) == Some(key));
        }
        let last = pairs.last();
        assert(pairs[pairs.len() - 1] == last);
        assert forall|key: Seq<char>| key_of(last) == Some(key) implies has_key(pairs, key) by {
            assert(key_of(pairs[pairs.len() - 1]) == Some(key));
        }
        let so_far = with_pairs(t, init);
        let next = with_pair(so_far, last);
        assert(next.secret == so_far.secret || key_of(last) == Some("secret"@));
        assert(next.issuer == so_far.issuer || key_of(last) == Some("issuer"@));
        assert(next.algorithm == so_far.algorithm || key_of(last) == Some("algorithm"@));
        assert(next.digits == so_far.digits || key_of(last) == Some("digits"@));
        assert(next.period == so_far.period || key_of(last) == Some("period"@));
    }
}

/// A field that the URI does not specify is left open: no algorithm, no digits and
/// no period without a parameter of that name, and no issuer without a parameter
/// and a prefix of the label. A URI without a `secret` parameter is refused.
pub proof fn law_unspecified_fields_stay_open(uri: Seq<char>)
    ensures
        otpauth_of(uri) matches Ok(t) ==> {
            let (label, query) = label_and_query(totp_part(uri)->Ok_0);
            let pairs = text::pieces(query, '&');
            &&& has_key(pairs, "secret"@)
            &&& !has_key(pairs, "algorithm"@) ==> t.algorithm is None
            &&& !has_key(pairs, "digits"@) ==> t.digits is None
            &&& !has_key(pairs, "period"@) ==> t.period is None
            &&& !has_key(pairs, "issuer"@) && text::split_once(percent_text(label), ':') is None
                ==> t.issuer is None
        },
{
    if let Ok(t) = otpauth_of(uri) {
        let (label, query) = label_and_query(totp_part(uri)->Ok_0);
        lemma_pairs_without_key(with_label(percent_text(label)), text::pieces(query, '&'));
    }
}

/// An explicit issuer parameter counts more than the label's prefix: whatever was
/// known before, the issuer is then what the parameter says, if it says anything.
pub proof fn law_issuer_parameter_wins(t: TotpView, val: Seq<char>)
    ensures
        text::trimmed(val).len() > 0 ==> with_param(t, "issuer"@, val).issuer == Some(
            text::trimmed(val),
        ),
        text::trimmed(val).len() == 0 ==> with_param(t, "issuer"@, val) == t,
{
    lemma_keys_differ();
}

/// The account comes from the label alone.
pub proof fn law_account_comes_from_label(uri: Seq<char>)
    ensures
        otpauth_of(uri) matches Ok(t) ==> t.account == with_label(
            percent_text(label_and_query(totp_part(uri)->Ok_0).0),
        ).account,
{
    if let Ok(t) = otpauth_of(uri) {
        let (label, query) = label_and_query(totp_part(uri)->Ok_0);
        lemma_pairs_without_key(with_label(percent_text(label)), text::pieces(query, '&'));
    }
}

/// The first usable code wins: contents before it that are no TOTP URI, or could
/// not be decoded, do not matter, and neither does anything behind it.
pub proof fn law_first_code_wins(
    before: Seq<Option<Seq<char>>>,
    content: Seq<char>,
    behind: Seq<Option<Seq<char>>>,
)
    requires
        forall|i: int|
            0 <= i < before.len() ==> ((#[trigger] before[i]) matches Some(c) ==> otpauth_of(
                c,
            ) is Err),
        otpauth_of(content) is Ok,
    ensures
        pick_of(before + seq![Some(content)] + behind) == otpauth_of(content),
{
    let all = before + seq![Some(content)] + behind;
    assert forall|i: int| 0 <= i < before.len() implies ((#[trigger] all[i]) matches Some(c)
        ==> otpauth_of(c) is Err) by {
        assert(all[i] == before[i]);
    }
    lemma_first_totp_skips(all, before.len() as int);
    assert(all.skip(before.len() as int)[0] == Some(content));
}

/// What a scanned profile shows is what it holds, each field under its own name.
pub proof fn law_scanned_view(t: ScannedTotp, s: Option<String>, contents: Seq<Option<String>>)
    ensures
        t@.issuer == optional_text(t.issuer),
        t@.account == optional_text(t.account),
        t@.secret == t.secret@,
        t@.algorithm == t.algorithm,
        t@.digits == t.digits,
        t@.period == t.period,
        optional_text(s) is Some <==> s is Some,
        s matches Some(x) ==> optional_text(s) == Some(x@),
        content_texts(contents).len() == contents.len(),
        forall|i: int|
            0 <= i < contents.len() ==> content_texts(contents)[i] == optional_text(
                #[trigger] contents[i],
            ),
{
}

/// Percent-decoding, byte by byte: a percent sign with two hexadecimal digits behind
/// it is the byte that they spell, a plus sign is a space, and any other byte, a
/// percent sign without two such digits among them, stands for itself.
pub proof fn law_percent_bytes(h: u8, l: u8, b: u8, rest: Seq<u8>)
    ensures
        percent_bytes(seq![]) == Seq::<u8>::empty(),
        proto::nibble_value(h) is Some && proto::nibble_value(l) is Some ==> percent_bytes(
            seq![0x25u8, h, l] + rest,
        ) == seq![(proto::nibble_value(h)->0 * 16 + proto::nibble_value(l)->0) as u8]
            + percent_bytes(rest),
        percent_bytes(seq![0x2Bu8] + rest) == seq![0x20u8] + percent_bytes(rest),
        b != 0x25 && b != 0x2B ==> percent_bytes(seq![b] + rest) == seq![b] + percent_bytes(rest),
        rest.len() < 2 || proto::nibble_value(rest[0]) is None || proto::nibble_value(
            rest[1],
        ) is None ==> percent_bytes(seq![0x25u8] + rest) == seq![0x25u8] + percent_bytes(rest),
{
    let e = seq![0x25u8, h, l] + rest;
    assert(e.skip(3) == rest);
    let p = seq![0x2Bu8] + rest;
    assert(p.skip(1) == rest);
    let o = seq![b] + rest;
    assert(o.skip(1) == rest);
    let s = seq![0x25u8] + rest;
    assert(s.skip(1) == rest);
    assert(rest.len() >= 2 ==> s[1] == rest[0] && s[2] == rest[1]);
}

/// Text without a percent or a plus sign is what it stands for, and text in which
/// bytes are escaped stands for what the bytes encode.
pub proof fn law_percent_text(s: Seq<char>)
    ensures
        (forall|i: int| 0 <= i < s.len() ==> (#[trigger] s[i]) != '%' && s[i] != '+')
            ==> percent_text(s) == s,
        valid_utf8(percent_bytes(encode_utf8(s))) ==> percent_text(s) == decode_utf8(
            percent_bytes(encode_utf8(s)),
        ),
{
    if forall|i: int| 0 <= i < s.len() ==> (#[trigger] s[i]) != '%' && s[i] != '+' {
        encode_utf8_valid_utf8(s);
        encode_utf8_decode_utf8(s);
        lemma_encoding_stays(s);
        lemma_bytes_stay(encode_utf8(s));
    }
}

/// A label names the issuer before its first colon and the account behind it, or the
/// account alone where there is no colon; white space around them does not count,
/// nor does a name without anything else. It says nothing more.
pub proof fn law_label(a: Seq<char>, b: Seq<char>)
    requires
        forall|i: int| 0 <= i < a.len() ==> (#[trigger] a[i]) != ':',
    ensures
        ({
            let t = with_label(a + seq![':'] + b);
            &&& text::trimmed(a).len() > 0 ==> t.issuer == Some(text::trimmed(a))
            &&& text::trimmed(a).len() == 0 ==> t.issuer is None
            &&& text::trimmed(b).len() > 0 ==> t.account == Some(text::trimmed(b))
            &&& text::trimmed(b).len() == 0 ==> t.account is None
            &&& t.secret.len() == 0 && t.algorithm is None && t.digits is None && t.period is None
        }),
        ({
            let t = with_label(a);
            &&& t.issuer is None
            &&& text::trimmed(a).len() > 0 ==> t.account == Some(text::trimmed(a))
            &&& text::trimmed(a).len() == 0 ==> t.account is None
            &&& t.secret.len() == 0 && t.algorithm is None && t.digits is None && t.period is None
        }),
{
    text::law_split_once(a, ':', b);
}

/// An algorithm is known by its name in either letter case, and by no other.
pub proof fn law_algorithm_names(name: Seq<char>)
    ensures
        ({
            let up = |i: int| text::ascii_upper(name[i]);
            let sha = name.len() >= 4 && up(0) == 'S' && up(1) == 'H' && up(2) == 'A';
            &&& algo_of(name) == Some(Algo::Sha1) <==> sha && name.len() == 4 && up(3) == '1'
            &&& algo_of(name) == Some(Algo::Sha256) <==> sha && name.len() == 6 && up(3) == '2'
                && up(4) == '5' && up(5) == '6'
            &&& algo_of(name) == Some(Algo::Sha512) <==> sha && name.len() == 6 && up(3) == '5'
                && up(4) == '1' && up(5) == '2'
        }),
{
    reveal_strlit("SHA1");
    reveal_strlit("SHA256");
    reveal_strlit("SHA512");
    let upper = name.map_values(|c: char| text::ascii_upper(c));
    assert(upper.len() == name.len());
    assert(forall|i: int| 0 <= i < name.len() ==> #[trigger] upper[i] == text::ascii_upper(name[i]));
    if name.len() == 4 {
        assert(upper =~= "SHA1"@ <==> upper[0] == 'S' && upper[1] == 'H' && upper[2] == 'A'
            && upper[3] == '1');
    }
    if name.len() == 6 {
        assert(upper =~= "SHA256"@ <==> upper[0] == 'S' && upper[1] == 'H' && upper[2] == 'A'
            && upper[3] == '2' && upper[4] == '5' && upper[5] == '6');
        assert(upper =~= "SHA512"@ <==> upper[0] == 'S' && upper[1] == 'H' && upper[2] == 'A'
            && upper[3] == '5' && upper[4] == '1' && upper[5] == '2');
    }
    assert("SHA256"@[3] == '2' && "SHA512"@[3] == '5');
}

/// Each parameter sets its own field and no other, to the whole of its value without
/// the white space around it: the secret and the issuer as they stand, the digits and
/// the period as the number that the value spells, where it fits; and the algorithm
/// by its name. A parameter of another name changes nothing.
pub proof fn law_parameters(t: TotpView, key: Seq<char>, val: Seq<char>)
    ensures
        with_param(t, "secret"@, val) == (TotpView {
            issuer: t.issuer,
            account: t.account,
            secret: text::trimmed(val),
            algorithm: t.algorithm,
            digits: t.digits,
            period: t.period,
        }),
        text::trimmed(val).len() > 0 ==> with_param(t, "issuer"@, val) == (TotpView {
            issuer: Some(text::trimmed(val)),
            account: t.account,
            secret: t.secret,
            algorithm: t.algorithm,
            digits: t.digits,
            period: t.period,
        }),
        text::trimmed(val).len() == 0 ==> with_param(t, "issuer"@, val) == t,
        with_param(t, "algorithm"@, val) == (TotpView {
            issuer: t.issuer,
            account: t.account,
            secret: t.secret,
            algorithm: algo_of(val),
            digits: t.digits,
            period: t.period,
        }),
        with_param(t, "digits"@, val) == (TotpView {
            issuer: t.issuer,
            account: t.account,
            secret: t.secret,
            algorithm: t.algorithm,
            digits: match text::number(text::trimmed(val), 10) {
                Some(n) => if n <= 255 {
                    Some(n as u8)
                } else {
                    None
                },
                None => None,
            },
            period: t.period,
        }),
        with_param(t, "period"@, val) == (TotpView {
            issuer: t.issuer,
            account: t.account,
            secret: t.secret,
            algorithm: t.algorithm,
            digits: t.digits,
            period: match text::number(text::trimmed(val), 10) {
                Some(n) => if n <= 65535 {
                    Some(n as u16)
                } else {
                    None
                },
                None => None,
            },
        }),
        key != "secret"@ && key != "issuer"@ && key != "algorithm"@ && key != "digits"@ && key
            != "period"@ ==> with_param(t, key, val) == t,
{
    lemma_keys_differ();
}

/// A part of a query is a key and a value with the first equals sign between them:
/// the key counts in small letters, and the value as what it stands for. A part
/// without an equals sign says nothing.
pub proof fn law_pair(t: TotpView, k: Seq<char>, v: Seq<char>)
    requires
        forall|i: int| 0 <= i < k.len() ==> (#[trigger] k[i]) != '=',
    ensures
        with_pair(t, k + seq!['='] + v) == with_param(
            t,
            k.map_values(|c: char| text::ascii_lower(c)),
            percent_text(v),
        ),
        key_of(k + seq!['='] + v) == Some(k.map_values(|c: char| text::ascii_lower(c))),
        with_pair(t, k) == t,
        key_of(k) is None,
{
    text::law_split_once(k, '=', v);
}

/// The parts of a query act one after the other.
pub proof fn law_pairs_in_order(t: TotpView, a: Seq<Seq<char>>, b: Seq<Seq<char>>, p: Seq<char>)
    ensures
        with_pairs(t, seq![]) == t,
        with_pairs(t, seq![p]) == with_pair(t, p),
        with_pairs(t, a + b) == with_pairs(with_pairs(t, a), b),
    decreases b.len(),
{
    let none = Seq::<Seq<char>>::empty();
    assert(seq![p].drop_last() == none);
    assert(with_pairs(t, none) == t);
    if b.len() == 0 {
        assert(a + b == a);
    } else {
        law_pairs_in_order(t, a, b.drop_last(), p);
        assert((a + b).drop_last() == a + b.drop_last());
        assert((a + b).last() == b.last());
    }
}

/// The last parameter of a name counts: whatever stands before it, and whatever of
/// other names stands behind it, the field is what its value says, in whole.
pub proof fn law_last_parameter_counts(
    t: TotpView,
    before: Seq<Seq<char>>,
    k: Seq<char>,
    v: Seq<char>,
    behind: Seq<Seq<char>>,
)
    requires
        forall|i: int| 0 <= i < k.len() ==> (#[trigger] k[i]) != '=',
        !has_key(behind, k.map_values(|c: char| text::ascii_lower(c))),
    ensures
        ({
            let key = k.map_values(|c: char| text::ascii_lower(c));
            let r = with_pairs(t, before + seq![k + seq!['='] + v] + behind);
            let val = text::trimmed(percent_text(v));
            &&& key == "secret"@ ==> r.secret == val
            &&& key == "issuer"@ && val.len() > 0 ==> r.issuer == Some(val)
            &&& key == "algorithm"@ ==> r.algorithm == algo_of(percent_text(v))
            &&& key == "digits"@ ==> {
                &&& r.digits is Some <==> text::number(val, 10) is Some && text::number(val, 10)->0
                    <= 255
                &&& r.digits matches Some(n) ==> text::number(val, 10) == Some(n as nat)
            }
            &&& key == "period"@ ==> {
                &&& r.period is Some <==> text::number(val, 10) is Some && text::number(val, 10)->0
                    <= 65535
                &&& r.period matches Some(n) ==> text::number(val, 10) == Some(n as nat)
            }
        }),
{
    let p = k + seq!['='] + v;
    let key = k.map_values(|c: char| text::ascii_lower(c));
    let none = Seq::<Seq<char>>::empty();
    law_pairs_in_order(t, before + seq![p], behind, p);
    law_pairs_in_order(t, before, seq![p], p);
    let so_far = with_pairs(t, before);
    law_pairs_in_order(so_far, none, none, p);
    law_pair(so_far, k, v);
    law_parameters(so_far, key, percent_text(v));
    lemma_pairs_without_key(with_pairs(t, before + seq![p]), behind);
}

/// Whether some part of a query has a key: one of them has an equals sign, and what
/// stands before its first one is the key in small letters.
pub proof fn law_has_key(pairs: Seq<Seq<char>>, key: Seq<char>)
    ensures
        has_key(pairs, key) <==> exists|i: int|
            0 <= i < pairs.len() && (text::split_once(#[trigger] pairs[i], '=') matches Some((k, v))
                && k.map_values(|c: char| text::ascii_lower(c)) == key),
{
    if has_key(pairs, key) {
        let i = choose|i: int| 0 <= i < pairs.len() && key_of(#[trigger] pairs[i]) == Some(key);
        assert(text::split_once(pairs[i], '=') is Some);
    }
    if exists|i: int|
        0 <= i < pairs.len() && (text::split_once(#[trigger] pairs[i], '=') matches Some((k, v))
            && k.map_values(|c: char| text::ascii_lower(c)) == key) {
        let i = choose|i: int|
            0 <= i < pairs.len() && (text::split_once(#[trigger] pairs[i], '=') matches Some((k, v))
                && k.map_values(|c: char| text::ascii_lower(c)) == key);
        assert(key_of(pairs[i]) == Some(key));
    }
}

/// A URI is taken apart at the first question mark behind its scheme and type: the
/// label before it and the parts of the query behind it, with ampersands between
/// them, say the parameters. Without a secret among them it is refused.
pub proof fn law_uri_is_taken_apart(label: Seq<char>, query: Seq<char>, capitals: bool)
    requires
        forall|i: int| 0 <= i < label.len() ==> (#[trigger] label[i]) != '?',
        query.len() > 0,
        !text::is_white(query[query.len() - 1]),
    ensures
        ({
            let scheme = if capitals {
                "otpauth://TOTP/"@
            } else {
                "otpauth://totp/"@
            };
            let r = otpauth_of(scheme + label + seq!['?'] + query);
            let t = with_pairs(with_label(percent_text(label)), text::pieces(query, '&'));
            &&& t.secret.len() > 0 ==> r == Ok::<TotpView, Seq<char>>(t)
            &&& t.secret.len() == 0 ==> r == Err::<TotpView, Seq<char>>(
                "the QR code has no secret — nothing to add"@,
            )
        }),
{
    reveal_strlit("otpauth://totp/");
    reveal_strlit("otpauth://TOTP/");
    let scheme = if capitals {
        "otpauth://TOTP/"@
    } else {
        "otpauth://totp/"@
    };
    let uri = scheme + label + seq!['?'] + query;
    assert(uri[0] == 'o');
    assert(uri[uri.len() - 1] == query[query.len() - 1]);
    text::law_trimmed(uri, 0, uri.len() as int);
    assert(uri.subrange(0, uri.len() as int) == uri);
    assert(scheme.is_prefix_of(uri));
    let rest = uri.skip(15);
    assert(rest == label + seq!['?'] + query);
    text::law_split_once(label, '?', query);
}

/// A URI without a question mark, or with nothing behind it, has no secret, whatever
/// the case of its type.
pub proof fn law_uri_without_query(label: Seq<char>, capitals: bool)
    requires
        forall|i: int| 0 <= i < label.len() ==> (#[trigger] label[i]) != '?',
        label.len() > 0 ==> !text::is_white(label[label.len() - 1]),
    ensures
        ({
            let scheme = if capitals {
                "otpauth://TOTP/"@
            } else {
                "otpauth://totp/"@
            };
            let e = Err::<TotpView, Seq<char>>("the QR code has no secret — nothing to add"@);
            otpauth_of(scheme + label) == e && otpauth_of(scheme + label + seq!['?']) == e
        }),
{
    reveal_strlit("otpauth://totp/");
    reveal_strlit("otpauth://TOTP/");
    let scheme = if capitals {
        "otpauth://TOTP/"@
    } else {
        "otpauth://totp/"@
    };
    let none = Seq::<char>::empty();
    let u = scheme + label;
    assert(u[0] == 'o');
    assert(!text::is_white(u[u.len() - 1]));
    text::law_trimmed(u, 0, u.len() as int);
    assert(u.subrange(0, u.len() as int) == u);
    assert(scheme.is_prefix_of(u));
    assert(u.skip(15) == label);
    let w = scheme + label + seq!['?'];
    assert(w[0] == 'o' && w[w.len() - 1] == '?');
    text::law_trimmed(w, 0, w.len() as int);
    assert(w.subrange(0, w.len() as int) == w);
    assert(scheme.is_prefix_of(w));
    assert(w.skip(15) == label + seq!['?'] + none);
    text::law_split_once(label, '?', none);
    text::law_pieces(none, '&', none);
    let t = with_label(percent_text(label));
    law_pairs_in_order(t, seq![], seq![], none);
    law_pair(t, none, none);
    lemma_label_has_no_secret(percent_text(label));
}

proof fn lemma_label_has_no_secret(label: Seq<char>)
    ensures
        with_label(label).secret.len() == 0,
{
}

/// A URI for HOTP, and one that is for neither, are refused for what they are.
pub proof fn law_other_uris_are_refused(uri: Seq<char>)
    ensures
        "otpauth://hotp/"@.is_prefix_of(text::trimmed(uri)) ==> otpauth_of(uri) == Err::<
            TotpView,
            Seq<char>,
        >("this is an HOTP code; only TOTP is supported"@),
        !"otpauth://totp/"@.is_prefix_of(text::trimmed(uri)) && !"otpauth://TOTP/"@.is_prefix_of(
            text::trimmed(uri),
        ) && !"otpauth://hotp/"@.is_prefix_of(text::trimmed(uri)) ==> otpauth_of(uri) == Err::<
            TotpView,
            Seq<char>,
        >("the QR code is not an otpauth://totp code"@),
{
    reveal_strlit("otpauth://totp/");
    reveal_strlit("otpauth://TOTP/");
    reveal_strlit("otpauth://hotp/");
    assert("otpauth://totp/"@[10] == 't' && "otpauth://TOTP/"@[10] == 'T' && "otpauth://hotp/"@[10]
        == 'h');
    let v = text::trimmed(uri);
    if "otpauth://hotp/"@.is_prefix_of(v) {
        assert(v[10] == "otpauth://hotp/"@[10]);
    }
}

/// The secret of a URI is taken whole: with Base32 digits behind `secret=`, however
/// many, they are the secret.
pub proof fn law_secret_is_whole(label: Seq<char>, s: Seq<char>)
    requires
        forall|i: int| 0 <= i < label.len() ==> (#[trigger] label[i]) != '?',
        s.len() > 0,
        forall|i: int|
            0 <= i < s.len() ==> 65 <= (#[trigger] s[i]) as int <= 90 || 50 <= s[i] as int <= 55,
    ensures
        otpauth_of("otpauth://totp/"@ + label + "?secret="@ + s) matches Ok(t) && t.secret == s,
{
    reveal_strlit("secret");
    reveal_strlit("?secret=");
    let k = "secret"@;
    let query = k + seq!['='] + s;
    assert("otpauth://totp/"@ + label + "?secret="@ + s == "otpauth://totp/"@ + label + seq!['?']
        + query);
    assert(query[query.len() - 1] == s[s.len() - 1]);
    law_uri_is_taken_apart(label, query, false);
    assert forall|i: int| 0 <= i < query.len() implies (#[trigger] query[i]) != '&' by {
        if i > 6 {
            assert(query[i] == s[i - 7]);
        }
    }
    text::law_pieces(query, '&', seq![]);
    let t = with_label(percent_text(label));
    let none = Seq::<Seq<char>>::empty();
    assert(k.map_values(|c: char| text::ascii_lower(c)) == k);
    assert(none + seq![query] + none == seq![query]);
    law_last_parameter_counts(t, none, k, s, none);
    law_percent_text(s);
    text::law_trimmed(s, 0, s.len() as int);
    assert(s.subrange(0, s.len() as int) == s);
}

/// Where no content is a usable code, what is wrong with the last that could be read
/// is said; where none could be read, that they are no codes; and where there is
/// none, that none was found.
pub proof fn law_why_nothing_was_scanned(contents: Seq<Option<Seq<char>>>, k: int)
    requires
        forall|i: int|
            0 <= i < contents.len() ==> ((#[trigger] contents[i]) matches Some(c) ==> otpauth_of(
                c,
            ) is Err),
    ensures
        0 <= k < contents.len() && contents[k] is Some && (forall|i: int|
            k < i < contents.len() ==> (#[trigger] contents[i]) is None) ==> pick_of(contents)
            == Err::<TotpView, Seq<char>>(otpauth_of(contents[k]->0)->Err_0),
        contents.len() > 0 && (forall|i: int|
            0 <= i < contents.len() ==> (#[trigger] contents[i]) is None) ==> pick_of(contents)
            == Err::<TotpView, Seq<char>>(
            "a QR code was found, but it isn't a TOTP (otpauth://totp) code"@,
        ),
        contents.len() == 0 ==> pick_of(contents) == Err::<TotpView, Seq<char>>(
            "no QR code found on screen — make sure the TOTP QR is visible"@,
        ),
{
    lemma_first_totp_skips(contents, contents.len() as int);
    assert(contents.skip(contents.len() as int).len() == 0);
    lemma_last_note(contents, k);
}

proof fn lemma_last_note(contents: Seq<Option<Seq<char>>>, k: int)
    ensures
        0 <= k < contents.len() && contents[k] is Some && otpauth_of(contents[k]->0) is Err && (
        forall|i: int| k < i < contents.len() ==> (#[trigger] contents[i]) is None) ==> last_note(
            contents,
        ) == Some(otpauth_of(contents[k]->0)->Err_0),
        (forall|i: int| 0 <= i < contents.len() ==> (#[trigger] contents[i]) is None) ==> last_note(
            contents,
        ) is None,
    decreases contents.len(),
{
    if contents.len() > 0 {
        let n = contents.len() - 1;
        let front = contents.drop_last();
        lemma_last_note(front, k);
        assert(contents.last() == contents[n]);
        if 0 <= k < n && (forall|i: int|
            k < i < contents.len() ==> (#[trigger] contents[i]) is None) {
            assert(contents[n] is None);
            assert(front[k] == contents[k]);
            assert forall|i: int| k < i < front.len() implies (#[trigger] front[i]) is None by {
                assert(contents[i] is None);
            }
        }
        if forall|i: int| 0 <= i < contents.len() ==> (#[trigger] contents[i]) is None {
            assert(contents[n] is None);
            assert forall|i: int| 0 <= i < front.len() implies (#[trigger] front[i]) is None by {
                assert(contents[i] is None);
            }
        }
    }
}

/// The screens are gone through in order, and the grids of each in order; without any
/// screen, that is said.
pub proof fn law_screens_in_order(
    a: Seq<Vec<GridBits>>,
    b: Seq<Vec<GridBits>>,
    grids: Vec<GridBits>,
    i: int,
)
    ensures
        screen_contents(seq![]) == Seq::<Option<Seq<char>>>::empty(),
        screen_contents(seq![grids]).len() == grids@.len(),
        0 <= i < grids@.len() ==> screen_contents(seq![grids])[i] == grid_text(grids@[i]),
        screen_contents(a + b) == screen_contents(a) + screen_contents(b),
        a.len() > 0 ==> scan_of(a) == pick_of(screen_contents(a)),
        a.len() == 0 ==> scan_of(a) == Err::<TotpView, Seq<char>>("no screens available to scan"@),
    decreases b.len(),
{
    let none = Seq::<Vec<GridBits>>::empty();
    let one = seq![grids];
    assert(one.drop_last() == none);
    assert(screen_contents(none) == Seq::<Option<Seq<char>>>::empty());
    assert(screen_contents(one) == screen_contents(none) + grids@.map_values(
        |g: GridBits| grid_text(g),
    ));
    if b.len() == 0 {
        assert(a + b == a);
        assert(screen_contents(a) + screen_contents(b) == screen_contents(a));
    } else {
        law_screens_in_order(a, b.drop_last(), grids, i);
        assert((a + b).drop_last() == a + b.drop_last());
        assert((a + b).last() == b.last());
        let tail = b.last()@.map_values(|g: GridBits| grid_text(g));
        assert(screen_contents(a) + screen_contents(b.drop_last()) + tail == screen_contents(a) + (
        screen_contents(b.drop_last()) + tail));
    }
}

/// A grid is decoded where it is a square of one of the forty sizes that QR codes come
/// in, with a cell for each place; any other holds no text.
pub proof fn law_grids(grid: GridBits)
    ensures
        grid.is_square() <==> (exists|version: int|
            1 <= version <= 40 && grid.size == #[trigger] (17 + 4 * version)) && grid.bits@.len()
            == grid.size * grid.size,
        grid.is_square() ==> grid_text(grid) == qr_text(grid.size as nat, grid.bits@),
        !grid.is_square() ==> grid_text(grid) is None,
{
    let v = (grid.size as int - 17) / 4;
    if is_qr_size(grid.size as nat) {
        assert(grid.size == 17 + 4 * v);
    }
}

/// A file is refused for its palette only where it has one that does not fit: some
/// palette chunk behind `i` whose length is not that of whole entries, or of more than
/// 256.
pub proof fn law_refused_palette_is_there(file: Seq<u8>, i: int, indexed: bool)
    requires
        !palettes_fit(file, i, indexed),
    ensures
        exists|j: int|
            {
                let n = #[trigger] chunk_len(file, j);
                &&& i <= j && j + 12 <= file.len()
                &&& file[j + 4] == 0x50 && file[j + 5] == 0x4C && file[j + 6] == 0x54 && file[j + 7]
                    == 0x45
                &&& n % 3 != 0 || n > 768
                &&& n == file[j] * 0x1000000 + file[j + 1] * 0x10000 + file[j + 2] * 0x100 + file[j
                    + 3]
            },
    decreases file.len() - i,
{
    let n = chunk_len(file, i);
    if indexed && chunk_is(file, i, palette_kind()) && !(n % 3 == 0 && n <= 768) {
        let kind = file.subrange(i + 4, i + 8);
        assert(kind[0] == file[i + 4] && kind[1] == file[i + 5] && kind[2] == file[i + 6] && kind[3]
            == file[i + 7]);
        assert(chunk_len(file, i) == n);
    } else {
        law_refused_palette_is_there(file, i + 12 + n, indexed || says_indexed(file, i));
    }
}

/// How the chunks of a file are gone through: the search ends at the first pixels, at
/// a chunk that is not all there, and, where the pixels are palette entries, at a
/// palette that does not fit; else it goes on behind the chunk, and from a header
/// with colour type 3 on the pixels are palette entries.
pub proof fn law_chunks_are_gone_through(file: Seq<u8>, i: int, indexed: bool)
    requires
        0 <= i,
        i + 12 <= file.len(),
    ensures
        ({
            let n = file[i] * 0x1000000 + file[i + 1] * 0x10000 + file[i + 2] * 0x100 + file[i + 3];
            let is = |a: int, b: int, c: int, d: int|
                file[i + 4] == a && file[i + 5] == b && file[i + 6] == c && file[i + 7] == d;
            let pixels = is(0x49, 0x44, 0x41, 0x54) || is(0x66, 0x64, 0x41, 0x54);
            let bad = indexed && is(0x50, 0x4C, 0x54, 0x45) && (n % 3 != 0 || n > 768);
            let palette_entries = indexed || (is(0x49, 0x48, 0x44, 0x52) && n >= 10 && file[i + 17]
                == 3);
            &&& pixels ==> palettes_fit(file, i, indexed)
            &&& !pixels && bad ==> !palettes_fit(file, i, indexed)
            &&& !pixels && !bad && i + 12 + n > file.len() ==> palettes_fit(file, i, indexed)
            &&& !pixels && !bad && i + 12 + n <= file.len() ==> palettes_fit(file, i, indexed)
                == palettes_fit(file, i + 12 + n, palette_entries)
        }),
        palettes_fit(file, file.len() as int, indexed),
{
    let kind = file.subrange(i + 4, i + 8);
    assert(kind.len() == 4);
    assert(kind[0] == file[i + 4] && kind[1] == file[i + 5] && kind[2] == file[i + 6] && kind[3]
        == file[i + 7]);
    let d = data_kind();
    let f = frame_data_kind();
    let p = palette_kind();
    let h = header_kind();
    assert(kind =~= d <==> kind[0] == d[0] && kind[1] == d[1] && kind[2] == d[2] && kind[3] == d[3]);
    assert(kind =~= f <==> kind[0] == f[0] && kind[1] == f[1] && kind[2] == f[2] && kind[3] == f[3]);
    assert(kind =~= p <==> kind[0] == p[0] && kind[1] == p[1] && kind[2] == p[2] && kind[3] == p[3]);
    assert(kind =~= h <==> kind[0] == h[0] && kind[1] == h[1] && kind[2] == h[2] && kind[3] == h[3]);
}

} // verus!
