//! The command line: global options, commands and their arguments, and what is
//! printed.
//!
//! ## Auto-OTP `[A]` tag
//!
//! The single profile that the global hotkey emits is marked by an `[A]` tag
//! appended to the issuer. That tag is plain text in the issuer field, so it
//! round-trips: `add --auto` appends it and `list` flags it.

use crate::entry;
use crate::entry::{Algorithm, Entry, EntryView, OtpType, WriteEntry};
use crate::proto;
use crate::proto::DeviceInfo;
use crate::secret::SecretBytes;
use crate::text;
use crate::transport::Interface;
use crate::AUTO_TAG;
use vstd::prelude::*;
use vstd::slice::slice_subrange;

verus! {

/// Why a command line cannot be followed.
#[derive(Debug, Clone, PartialEq, Eq)]
pub enum CliError {
    /// The command line is wrong: the usage is shown.
    Usage(String),
    /// Anything else.
    Other(String),
}

/// An error with its text as characters.
pub enum CliFault {
    Usage(Seq<char>),
    Other(Seq<char>),
}

impl View for CliError {
    type V = CliFault;

    open spec fn view(&self) -> CliFault {
        match *self {
            CliError::Usage(s) => CliFault::Usage(s@),
            CliError::Other(s) => CliFault::Other(s@),
        }
    }
}

fn usage(s: &str) -> (e: CliError)
    ensures
        e@ == CliFault::Usage(s@),
{
    CliError::Usage(text::owned(s))
}

/// A usage error that ends in a word of the command line.
fn usage_of(s: &str, word: &str) -> (e: CliError)
    ensures
        e@ == CliFault::Usage(s@ + word@),
{
    let mut m = text::owned(s);
    text::append(&mut m, word);
    CliError::Usage(m)
}

/// The words of a command line, as characters.
pub open spec fn words(args: Seq<String>) -> Seq<Seq<char>> {
    args.map_values(|a: String| a@)
}

// --- global options ------------------------------------------------------------

/// The options that stand before the command.
#[derive(Debug, Clone)]
pub struct Globals {
    pub iface: Interface,
    pub debug: bool,
    /// Explicit PC/SC reader name (serial-confirmed) — overrides auto-detect.
    pub reader: Option<String>,
}

/// Global options with the reader's name as characters.
#[verifier::ext_equal]
pub struct GlobalsView {
    pub iface: Interface,
    pub debug: bool,
    pub reader: Option<Seq<char>>,
}

impl View for Globals {
    type V = GlobalsView;

    open spec fn view(&self) -> GlobalsView {
        GlobalsView {
            iface: self.iface,
            debug: self.debug,
            reader: match self.reader {
                Some(s) => Some(s@),
                None => None,
            },
        }
    }
}

/// The interface that a value of `--transport` stands for.
pub open spec fn interface_named(v: Seq<char>) -> Option<Interface> {
    if v == "auto"@ {
        Some(Interface::Auto)
    } else if v == "hid"@ || v == "usb"@ {
        Some(Interface::Hid)
    } else if v == "nfc"@ || v == "ccid"@ || v == "pcsc"@ {
        Some(Interface::Nfc)
    } else {
        None
    }
}

/// Takes the global options off the front of a command line: the options, in
/// which a later one counts more, and the words from the first on that is none.
pub open spec fn take_globals(g: GlobalsView, args: Seq<Seq<char>>) -> Result<
    (GlobalsView, Seq<Seq<char>>),
    CliFault,
>
    decreases args.len(),
{
    if args.len() == 0 {
        Ok((g, args))
    } else if args[0] == "--transport"@ {
        if args.len() < 2 {
            Err(CliFault::Usage("--transport needs a value"@))
        } else {
            match interface_named(args[1]) {
                Some(iface) => take_globals(GlobalsView { iface, ..g }, args.skip(2)),
                None => Err(
                    CliFault::Usage("--transport must be auto|hid|nfc, got "@ + args[1]),
                ),
            }
        }
    } else if args[0] == "--reader"@ {
        if args.len() < 2 {
            Err(CliFault::Usage("--reader needs a PC/SC reader name"@))
        } else {
            take_globals(GlobalsView { reader: Some(args[1]), ..g }, args.skip(2))
        }
    } else if args[0] == "--debug"@ {
        take_globals(GlobalsView { debug: true, ..g }, args.skip(1))
    } else {
        Ok((g, args))
    }
}

/// The options without any on the command line.
pub open spec fn default_globals() -> GlobalsView {
    GlobalsView { iface: Interface::Auto, debug: false, reader: None }
}

fn parse_interface(v: &str) -> (r: Option<Interface>)
    ensures
        r == interface_named(v@),
{
    if text::same_text(v, "auto") {
        Some(Interface::Auto)
    } else if text::same_text(v, "hid") || text::same_text(v, "usb") {
        Some(Interface::Hid)
    } else if text::same_text(v, "nfc") || text::same_text(v, "ccid") || text::same_text(
        v,
        "pcsc",
    ) {
        Some(Interface::Nfc)
    } else {
        None
    }
}

/// Parse the global options and return them with the rest of the command line.
pub fn parse_globals(args: &[String]) -> (r: Result<(Globals, &[String]), CliError>)
    ensures
        match r {
            Ok((g, rest)) => take_globals(default_globals(), words(args@)) == Ok::<
                (GlobalsView, Seq<Seq<char>>),
                CliFault,
            >((g@, words(rest@))),
            Err(e) => take_globals(default_globals(), words(args@)) == Err::<
                (GlobalsView, Seq<Seq<char>>),
                CliFault,
            >(e@),
        },
{
    let len: usize = args.len();
    let mut g = Globals { iface: Interface::Auto, debug: false, reader: None };
    let mut i: usize = 0;
    let ghost all = words(args@);
    assert(all.skip(0) == all);
    while i < len
        invariant_except_break
            take_globals(default_globals(), all) == take_globals(g@, all.skip(i as int)),
        invariant
            len == args@.len(),
            all == words(args@),
            i <= len,
        ensures
            take_globals(default_globals(), all) == Ok::<(GlobalsView, Seq<Seq<char>>), CliFault>(
                (g@, all.skip(i as int)),
            ),
        decreases len - i,
    {
        let ghost rest = all.skip(i as int);
        assert(rest[0] == args@[i as int]@);
        assert(rest.len() >= 2 ==> rest[1] == args@[i + 1]@);
        assert(rest.len() >= 2 ==> rest.skip(2) == all.skip(i + 2));
        assert(rest.skip(1) == all.skip(i + 1));
        let arg = args[i].as_str();
        if text::same_text(arg, "--transport") {
            if len - i < 2 {
                return Err(usage("--transport needs a value"));
            }
            let v = args[i + 1].as_str();
            match parse_interface(v) {
                Some(iface) => {
                    g.iface = iface;
                },
                None => {
                    return Err(usage_of("--transport must be auto|hid|nfc, got ", v));
                },
            }
            i = i + 2;
        } else if text::same_text(arg, "--reader") {
            if len - i < 2 {
                return Err(usage("--reader needs a PC/SC reader name"));
            }
            g.reader = Some(args[i + 1].clone());
            i = i + 2;
        } else if text::same_text(arg, "--debug") {
            g.debug = true;
            i = i + 1;
        } else {
            break;
        }
    }
    let rest = slice_subrange(args, i, len);
    assert(words(rest@) == all.skip(i as int));
    Ok((g, rest))
}

/// Which key to open.
#[derive(Debug, Clone, PartialEq, Eq)]
pub enum OpenTarget {
    /// The key on the PC/SC reader of this name (still serial-confirmed).
    Reader(String),
    /// A key on this interface.
    Interface(Interface),
}

impl Globals {
    /// Which key to open: an explicit reader name pins the NFC/PC-SC device.
    pub fn target(&self) -> (t: OpenTarget)
        ensures
            match t {
                OpenTarget::Reader(name) => self@.reader == Some(name@),
                OpenTarget::Interface(iface) => self@.reader is None && iface == self.iface,
            },
    {
        match &self.reader {
            Some(name) => OpenTarget::Reader(name.clone()),
            None => OpenTarget::Interface(self.iface),
        }
    }
}

// --- add -----------------------------------------------------------------------

/// What `add` was asked for. The issuer carries the Auto-OTP tag already where it
/// was asked for.
#[derive(Debug, Clone, PartialEq, Eq)]
pub struct AddRequest {
    pub issuer: String,
    pub account: String,
    pub auto: bool,
    pub sha256: bool,
    pub touch: bool,
    pub period: u16,
    pub digits: u8,
}

/// A request with its texts as characters.
#[verifier::ext_equal]
pub struct AddView {
    pub issuer: Seq<char>,
    pub account: Seq<char>,
    pub auto: bool,
    pub sha256: bool,
    pub touch: bool,
    pub period: u16,
    pub digits: u8,
}

impl View for AddRequest {
    type V = AddView;

    open spec fn view(&self) -> AddView {
        AddView {
            issuer: self.issuer@,
            account: self.account@,
            auto: self.auto,
            sha256: self.sha256,
            touch: self.touch,
            period: self.period,
            digits: self.digits,
        }
    }
}

/// What the words of an `add` have said so far.
#[verifier::ext_equal]
pub struct AddWords {
    pub positionals: Seq<Seq<char>>,
    pub auto: bool,
    pub sha256: bool,
    pub touch: bool,
    pub period: u16,
    pub digits: u8,
}

/// What an `add` without any words says.
pub open spec fn no_add_words() -> AddWords {
    AddWords {
        positionals: seq![],
        auto: false,
        sha256: false,
        touch: false,
        period: 30,
        digits: 6,
    }
}

/// The period that a value of `--period` stands for: 1 to 65535.
pub open spec fn period_named(v: Seq<char>) -> Result<u16, CliFault> {
    match text::number_up_to(v, 10, 65535) {
        None => Err(CliFault::Usage("--period must be 1..=65535 seconds"@)),
        Some(n) => if n == 0 {
            Err(CliFault::Usage("--period must be at least 1 second"@))
        } else {
            Ok(n as u16)
        },
    }
}

/// The code length that a value of `--digits` stands for: 4 to 10.
pub open spec fn digits_named(v: Seq<char>) -> Result<u8, CliFault> {
    match text::number_up_to(v, 10, 255) {
        None => Err(CliFault::Usage("--digits must be 4..=10"@)),
        Some(n) => if n < 4 || n > 10 {
            Err(CliFault::Usage("--digits must be between 4 and 10"@))
        } else {
            Ok(n as u8)
        },
    }
}

/// What the words of an `add` say, read from the front behind what has been read
/// already. A later option counts more; a word that begins with two hyphens and is
/// no option is refused; every other word is a positional argument.
pub open spec fn take_add_words(w: AddWords, args: Seq<Seq<char>>) -> Result<AddWords, CliFault>
    decreases args.len(),
{
    if args.len() == 0 {
        Ok(w)
    } else if args[0] == "--auto"@ {
        take_add_words(AddWords { auto: true, ..w }, args.skip(1))
    } else if args[0] == "--sha256"@ {
        take_add_words(AddWords { sha256: true, ..w }, args.skip(1))
    } else if args[0] == "--touch"@ {
        take_add_words(AddWords { touch: true, ..w }, args.skip(1))
    } else if args[0] == "--period"@ {
        if args.len() < 2 {
            Err(CliFault::Usage("--period needs a value"@))
        } else {
            match period_named(args[1]) {
                Ok(period) => take_add_words(AddWords { period, ..w }, args.skip(2)),
                Err(e) => Err(e),
            }
        }
    } else if args[0] == "--digits"@ {
        if args.len() < 2 {
            Err(CliFault::Usage("--digits needs a value"@))
        } else {
            match digits_named(args[1]) {
                Ok(digits) => take_add_words(AddWords { digits, ..w }, args.skip(2)),
                Err(e) => Err(e),
            }
        }
    } else if "--"@.is_prefix_of(args[0]) {
        Err(CliFault::Usage("unknown flag for add: "@ + args[0]))
    } else {
        take_add_words(AddWords { positionals: w.positionals.push(args[0]), ..w }, args.skip(1))
    }
}

/// The issuer with the Auto-OTP tag where it is asked for and not there yet.
pub open spec fn tagged_issuer(issuer: Seq<char>, auto: bool) -> Seq<char> {
    if auto && !text::occurs(issuer, AUTO_TAG@) {
        issuer + AUTO_TAG@
    } else {
        issuer
    }
}

/// What an `add` with these words asks for, or what is wrong with it.
pub open spec fn add_of(args: Seq<Seq<char>>) -> Result<AddView, CliFault> {
    match take_add_words(no_add_words(), args) {
        Err(e) => Err(e),
        Ok(w) => if w.positionals.len() != 2 {
            Err(
                CliFault::Usage(
                    "add needs <issuer> <account> (and a secret on stdin or $T2TOTP_SECRET)"@,
                ),
            )
        } else {
            Ok(
                AddView {
                    issuer: tagged_issuer(w.positionals[0], w.auto),
                    account: w.positionals[1],
                    auto: w.auto,
                    sha256: w.sha256,
                    touch: w.touch,
                    period: w.period,
                    digits: w.digits,
                },
            )
        },
    }
}

fn parse_period(v: &str) -> (r: Result<u16, CliError>)
    ensures
        match r {
            Ok(n) => period_named(v@) == Ok::<u16, CliFault>(n),
            Err(e) => period_named(v@) == Err::<u16, CliFault>(e@),
        },
{
    match text::parse_number(text::to_chars(v).as_slice(), 10, 65535) {
        None => Err(usage("--period must be 1..=65535 seconds")),
        Some(n) => {
            if n == 0 {
                Err(usage("--period must be at least 1 second"))
            } else {
                Ok(n as u16)
            }
        },
    }
}

fn parse_digits(v: &str) -> (r: Result<u8, CliError>)
    ensures
        match r {
            Ok(n) => digits_named(v@) == Ok::<u8, CliFault>(n),
            Err(e) => digits_named(v@) == Err::<u8, CliFault>(e@),
        },
{
    match text::parse_number(text::to_chars(v).as_slice(), 10, 255) {
        None => Err(usage("--digits must be 4..=10")),
        Some(n) => {
            if n < 4 || n > 10 {
                Err(usage("--digits must be between 4 and 10"))
            } else {
                Ok(n as u8)
            }
        },
    }
}

/// The issuer with the Auto-OTP tag where it is asked for and not there yet.
pub fn tag_issuer(issuer: &str, auto: bool) -> (s: String)
    ensures
        s@ == tagged_issuer(issuer@, auto),
{
    let mut s = text::owned(issuer);
    if auto && !text::contains(issuer, AUTO_TAG) {
        text::append(&mut s, AUTO_TAG);
    }
    s
}

/// Parse the arguments of `add`.
pub fn parse_add(args: &[String]) -> (r: Result<AddRequest, CliError>)
    ensures
        match r {
            Ok(a) => add_of(words(args@)) == Ok::<AddView, CliFault>(a@),
            Err(e) => add_of(words(args@)) == Err::<AddView, CliFault>(e@),
        },
{
    let len: usize = args.len();
    let mut positionals: Vec<String> = Vec::new();
    let mut auto = false;
    let mut sha256 = false;
    let mut touch = false;
    let mut period: u16 = 30;
    let mut digits: u8 = 6;

    let mut i: usize = 0;
    let ghost all = words(args@);
    assert(all.skip(0) == all);
    assert(words(positionals@) == Seq::<Seq<char>>::empty());
    while i < len
        invariant
            len == args@.len(),
            all == words(args@),
            i <= len,
            take_add_words(no_add_words(), all) == take_add_words(
                (AddWords {
                    positionals: words(positionals@),
                    auto,
                    sha256,
                    touch,
                    period,
                    digits,
                }),
                all.skip(i as int),
            ),
        decreases len - i,
    {
        let ghost rest = all.skip(i as int);
        assert(rest[0] == args@[i as int]@);
        assert(rest.len() >= 2 ==> rest[1] == args@[i + 1]@);
        assert(rest.len() >= 2 ==> rest.skip(2) == all.skip(i + 2));
        assert(rest.skip(1) == all.skip(i + 1));
        let arg = args[i].as_str();
        if text::same_text(arg, "--auto") {
            auto = true;
        } else if text::same_text(arg, "--sha256") {
            sha256 = true;
        } else if text::same_text(arg, "--touch") {
            touch = true;
        } else if text::same_text(arg, "--period") {
            if len - i < 2 {
                return Err(usage("--period needs a value"));
            }
            i = i + 1;
            match parse_period(args[i].as_str()) {
                Ok(n) => {
                    period = n;
                },
                Err(e) => {
                    return Err(e);
                },
            }
        } else if text::same_text(arg, "--digits") {
            if len - i < 2 {
                return Err(usage("--digits needs a value"));
            }
            i = i + 1;
            match parse_digits(args[i].as_str()) {
                Ok(n) => {
                    digits = n;
                },
                Err(e) => {
                    return Err(e);
                },
            }
        } else if text::starts_with(text::to_chars(arg).as_slice(), "--") {
            return Err(usage_of("unknown flag for add: ", arg));
        } else {
            let ghost before = positionals@;
            positionals.push(args[i].clone());
            assert(words(positionals@) == words(before).push(args@[i as int]@));
        }
        i = i + 1;
    }
    assert(words(positionals@).len() == positionals@.len());

    if positionals.len() != 2 {
        return Err(
            usage("add needs <issuer> <account> (and a secret on stdin or $T2TOTP_SECRET)"),
        );
    }
    assert(words(positionals@)[0] == positionals@[0]@);
    assert(words(positionals@)[1] == positionals@[1]@);
    Ok(
        AddRequest {
            issuer: tag_issuer(positionals[0].as_str(), auto),
            account: positionals[1].clone(),
            auto,
            sha256,
            touch,
            period,
            digits,
        },
    )
}

/// The write that carries out a request with a decoded seed.
pub open spec fn is_write_for(w: WriteEntry<'_>, a: AddView, seed: Seq<u8>) -> bool {
    &&& w.otp_type == OtpType::Totp
    &&& w.algorithm == (if a.sha256 {
        Algorithm::Sha256
    } else {
        Algorithm::Sha1
    })
    &&& w.timestep == a.period
    &&& w.code_length == a.digits
    &&& w.button_required == a.touch
    &&& w.app_name@ == a.issuer
    &&& w.account_name@ == a.account
    &&& w.seed@ == seed
}

impl AddRequest {
    /// The entry to write for the request, with its decoded seed.
    pub fn to_entry<'a>(&'a self, seed: &'a [u8]) -> (w: WriteEntry<'a>)
        ensures
            is_write_for(w, self@, seed@),
    {
        WriteEntry {
            otp_type: OtpType::Totp,
            algorithm: if self.sha256 {
                Algorithm::Sha256
            } else {
                Algorithm::Sha1
            },
            timestep: self.period,
            code_length: self.digits,
            button_required: self.touch,
            app_name: self.issuer.as_str(),
            account_name: self.account.as_str(),
            seed,
        }
    }

    /// What is printed once the profile is on the key.
    pub fn added_message(&self) -> (s: String)
        ensures
            s@ == "added TOTP profile "@ + self.issuer@ + ":"@ + self.account@ + (if self.auto {
                "  (Auto-OTP [A])"@
            } else {
                seq![]
            }),
    {
        let mut s = text::owned("added TOTP profile ");
        text::append(&mut s, self.issuer.as_str());
        text::append(&mut s, ":");
        text::append(&mut s, self.account.as_str());
        let ghost before = s@;
        if self.auto {
            text::append(&mut s, "  (Auto-OTP [A])");
        } else {
            assert(before + Seq::<char>::empty() == before);
        }
        s
    }
}

// --- the secret ----------------------------------------------------------------

/// The Base32 secret in the value of `$T2TOTP_SECRET`.
pub fn secret_from_env(value: &str) -> (s: String)
    ensures
        s@ == text::trimmed(value@),
{
    text::trim_str(value).to_owned()
}

/// The Base32 secret in what was read from stdin.
pub fn secret_from_stdin(input: &str) -> (r: Result<String, CliError>)
    ensures
        match r {
            Ok(s) => s@ == text::trimmed(input@) && s@.len() > 0,
            Err(e) => text::trimmed(input@).len() == 0 && e@ == CliFault::Other(
                "no secret provided (pipe it on stdin or set $T2TOTP_SECRET)"@,
            ),
        },
{
    let trimmed = text::trim_str(input);
    if trimmed.is_empty() {
        return Err(
            CliError::Other(
                text::owned("no secret provided (pipe it on stdin or set $T2TOTP_SECRET)"),
            ),
        );
    }
    Ok(trimmed.to_owned())
}

/// Decode the secret into the seed to write.
pub fn seed_from_secret(secret: &str) -> (r: Result<SecretBytes, CliError>)
    ensures
        match r {
            Ok(seed) => proto::seed_of(secret@) == Ok::<Seq<u8>, Seq<char>>(seed@),
            Err(e) => proto::seed_of(secret@) is Err && e@ == CliFault::Other(
                "invalid Base32 secret: "@ + proto::seed_of(secret@)->Err_0,
            ),
        },
{
    match proto::decode_base32_seed(secret) {
        Ok(seed) => Ok(seed),
        Err(m) => {
            let mut s = text::owned("invalid Base32 secret: ");
            text::append(&mut s, m);
            Err(CliError::Other(s))
        },
    }
}

// --- commands ------------------------------------------------------------------

/// What the command line asks for.
#[derive(Debug, Clone, PartialEq, Eq)]
pub enum Command {
    Help,
    Info,
    Readers,
    List,
    Code { issuer: String, account: String },
    Add(AddRequest),
    Delete { issuer: String, account: String },
    Erase,
}

/// A command with its texts as characters.
pub enum CommandView {
    Help,
    Info,
    Readers,
    List,
    Code { issuer: Seq<char>, account: Seq<char> },
    Add(AddView),
    Delete { issuer: Seq<char>, account: Seq<char> },
    Erase,
}

impl View for Command {
    type V = CommandView;

    open spec fn view(&self) -> CommandView {
        match *self {
            Command::Help => CommandView::Help,
            Command::Info => CommandView::Info,
            Command::Readers => CommandView::Readers,
            Command::List => CommandView::List,
            Command::Code { issuer, account } => CommandView::Code {
                issuer: issuer@,
                account: account@,
            },
            Command::Add(a) => CommandView::Add(a@),
            Command::Delete { issuer, account } => CommandView::Delete {
                issuer: issuer@,
                account: account@,
            },
            Command::Erase => CommandView::Erase,
        }
    }
}

/// The two arguments of a command that takes an issuer and an account.
pub fn two_args<'a>(args: &'a [String], cmd: &str) -> (r: Result<(&'a str, &'a str), CliError>)
    ensures
        match r {
            Ok((issuer, account)) => args@.len() == 2 && issuer@ == args@[0]@ && account@
                == args@[1]@,
            Err(e) => args@.len() != 2 && e@ == CliFault::Usage(
                cmd@ + " needs <issuer> <account>"@,
            ),
        },
{
    if args.len() == 2 {
        Ok((args[0].as_str(), args[1].as_str()))
    } else {
        Err(usage_of(cmd, " needs <issuer> <account>"))
    }
}

/// The command behind the global options.
pub open spec fn command_of(args: Seq<Seq<char>>) -> Result<CommandView, CliFault> {
    if args.len() == 0 {
        Ok(CommandView::Help)
    } else {
        let cmd = args[0];
        let rest = args.skip(1);
        if cmd == "help"@ || cmd == "--help"@ || cmd == "-h"@ {
            Ok(CommandView::Help)
        } else if cmd == "info"@ {
            Ok(CommandView::Info)
        } else if cmd == "readers"@ {
            Ok(CommandView::Readers)
        } else if cmd == "list"@ {
            Ok(CommandView::List)
        } else if cmd == "code"@ {
            if rest.len() == 2 {
                Ok(CommandView::Code { issuer: rest[0], account: rest[1] })
            } else {
                Err(CliFault::Usage("code"@ + " needs <issuer> <account>"@))
            }
        } else if cmd == "add"@ {
            match add_of(rest) {
                Ok(a) => Ok(CommandView::Add(a)),
                Err(e) => Err(e),
            }
        } else if cmd == "delete"@ || cmd == "del"@ || cmd == "rm"@ {
            if rest.len() == 2 {
                Ok(CommandView::Delete { issuer: rest[0], account: rest[1] })
            } else {
                Err(CliFault::Usage("delete"@ + " needs <issuer> <account>"@))
            }
        } else if cmd == "erase"@ {
            if rest.contains("--yes"@) {
                Ok(CommandView::Erase)
            } else {
                Err(
                    CliFault::Usage(
                        "erase wipes ALL profiles on the key; pass --yes to confirm"@,
                    ),
                )
            }
        } else {
            Err(CliFault::Usage("unknown command: "@ + cmd))
        }
    }
}

fn has_yes(args: &[String]) -> (r: bool)
    ensures
        r == words(args@).contains("--yes"@),
{
    let ghost all = words(args@);
    for i in 0..args.len()
        invariant
            all == words(args@),
            forall|j: int| 0 <= j < i ==> (#[trigger] all[j]) != "--yes"@,
    {
        assert(all[i as int] == args@[i as int]@);
        if text::same_text(args[i].as_str(), "--yes") {
            return true;
        }
    }
    false
}

/// Parse the command behind the global options. Without one, help is asked for.
pub fn parse_command(args: &[String]) -> (r: Result<Command, CliError>)
    ensures
        match r {
            Ok(c) => command_of(words(args@)) == Ok::<CommandView, CliFault>(c@),
            Err(e) => command_of(words(args@)) == Err::<CommandView, CliFault>(e@),
        },
{
    if args.len() == 0 {
        return Ok(Command::Help);
    }
    let cmd = args[0].as_str();
    let rest = slice_subrange(args, 1, args.len());
    assert(words(args@)[0] == cmd@);
    assert(words(rest@) == words(args@).skip(1));
    assert(words(rest@).len() == rest@.len());
    assert(forall|i: int| 0 <= i < rest@.len() ==> words(rest@)[i] == (#[trigger] rest@[i])@);
    if text::same_text(cmd, "help") || text::same_text(cmd, "--help") || text::same_text(
        cmd,
        "-h",
    ) {
        Ok(Command::Help)
    } else if text::same_text(cmd, "info") {
        Ok(Command::Info)
    } else if text::same_text(cmd, "readers") {
        Ok(Command::Readers)
    } else if text::same_text(cmd, "list") {
        Ok(Command::List)
    } else if text::same_text(cmd, "code") {
        match two_args(rest, "code") {
            Ok((issuer, account)) => Ok(
                Command::Code { issuer: text::owned(issuer), account: text::owned(account) },
            ),
            Err(e) => Err(e),
        }
    } else if text::same_text(cmd, "add") {
        match parse_add(rest) {
            Ok(a) => Ok(Command::Add(a)),
            Err(e) => Err(e),
        }
    } else if text::same_text(cmd, "delete") || text::same_text(cmd, "del") || text::same_text(
        cmd,
        "rm",
    ) {
        match two_args(rest, "delete") {
            Ok((issuer, account)) => Ok(
                Command::Delete { issuer: text::owned(issuer), account: text::owned(account) },
            ),
            Err(e) => Err(e),
        }
    } else if text::same_text(cmd, "erase") {
        // Erasing wipes everything, so it must be confirmed.
        if has_yes(rest) {
            Ok(Command::Erase)
        } else {
            Err(usage("erase wipes ALL profiles on the key; pass --yes to confirm"))
        }
    } else {
        Err(usage_of("unknown command: ", cmd))
    }
}

/// What the user is told when the key waits for a touch: only `code` and `erase`
/// ask for one, and only over USB-HID.
pub open spec fn touch_prompt_of(command: CommandView, over_pcsc: bool) -> Option<Seq<char>> {
    if over_pcsc {
        None
    } else {
        match command {
            CommandView::Code { .. } => Some("touch your key to release the code..."@),
            CommandView::Erase => Some("touch your key to confirm the erase..."@),
            _ => None,
        }
    }
}

/// What the user is told when the key waits for a touch.
pub fn touch_prompt(command: &Command, over_pcsc: bool) -> (r: Option<&'static str>)
    ensures
        match r {
            Some(s) => touch_prompt_of(command@, over_pcsc) == Some(s@),
            None => touch_prompt_of(command@, over_pcsc) is None,
        },
{
    if over_pcsc {
        return None;
    }
    match command {
        Command::Code { .. } => Some("touch your key to release the code..."),
        Command::Erase => Some("touch your key to confirm the erase..."),
        _ => None,
    }
}

// --- what is printed -----------------------------------------------------------

/// `yes` or `no`.
pub open spec fn yes_or_no(b: bool) -> Seq<char> {
    if b {
        "yes"@
    } else {
        "no"@
    }
}

pub fn yes_no(b: bool) -> (s: &'static str)
    ensures
        s@ == yes_or_no(b),
{
    if b {
        "yes"
    } else {
        "no"
    }
}

/// Two texts, one behind the other.
fn both(a: &str, b: &str) -> (s: String)
    ensures
        s@ == a@ + b@,
{
    let mut s = text::owned(a);
    text::append(&mut s, b);
    s
}

/// What `info` prints of the device-info block.
pub open spec fn device_info_lines(info: Result<DeviceInfo, String>) -> Seq<Seq<char>> {
    match info {
        Err(e) => seq!["  device-info unavailable: "@ + e@],
        Ok(d) => if d.raw_len >= 2 {
            seq![
                "  TOTP      : "@ + (if d.device_extension & 0x01 != 0 {
                    "supported"@
                } else {
                    "NOT supported (first-gen key — HOTP only)"@
                }),
                "  NFC       : "@ + yes_or_no(d.device_config & 0x10 != 0),
                "  FIDO PIN  : "@ + yes_or_no(d.device_config & 0x02 != 0),
            ]
        } else {
            seq!["  TOTP      : (device returned a short config block; unknown)"@]
        },
    }
}

/// What `info` prints.
pub open spec fn info_lines_of(
    over_pcsc: bool,
    serial: Option<Vec<u8>>,
    info: Result<DeviceInfo, String>,
) -> Seq<Seq<char>> {
    seq![
        "Token2 FIDO2 key"@,
        "  transport : "@ + (if over_pcsc {
            "NFC / PC-SC"@
        } else {
            "USB-HID"@
        }),
        match serial {
            Some(x) => "  serial    : "@ + proto::hex_text(x@),
            None => "  serial    : (unavailable on this model/reader)"@,
        },
    ] + device_info_lines(info)
}

/// The lines that `info` prints of a key: how it is connected, its serial where it
/// could be read, and its device-info block or why there is none.
pub fn info_lines(
    over_pcsc: bool,
    serial: &Option<Vec<u8>>,
    info: &Result<DeviceInfo, String>,
) -> (lines: Vec<String>)
    ensures
        words(lines@) == info_lines_of(over_pcsc, *serial, *info),
{
    let mut lines: Vec<String> = Vec::new();
    lines.push(text::owned("Token2 FIDO2 key"));
    lines.push(
        both(
            "  transport : ",
            if over_pcsc {
                "NFC / PC-SC"
            } else {
                "USB-HID"
            },
        ),
    );
    match serial {
        Some(x) => lines.push(both("  serial    : ", proto::hex(x.as_slice()).as_str())),
        None => lines.push(text::owned("  serial    : (unavailable on this model/reader)")),
    }
    match info {
        Ok(info) => {
            if info.has_config_byte() {
                lines.push(
                    both(
                        "  TOTP      : ",
                        if info.totp_supported() {
                            "supported"
                        } else {
                            "NOT supported (first-gen key — HOTP only)"
                        },
                    ),
                );
                lines.push(both("  NFC       : ", yes_no(info.nfc_supported())));
                lines.push(both("  FIDO PIN  : ", yes_no(info.fido_pin_set())));
            } else {
                lines.push(
                    text::owned("  TOTP      : (device returned a short config block; unknown)"),
                );
            }
        },
        Err(e) => lines.push(both("  device-info unavailable: ", e.as_str())),
    }
    assert(words(lines@) == info_lines_of(over_pcsc, *serial, *info));
    lines
}

/// A PC/SC reader, and the serial of the Token2 key on it where there is one.
#[derive(Debug, Clone, PartialEq, Eq)]
pub struct ReaderStatus {
    pub reader_name: String,
    pub serial_hex: Option<String>,
}

/// What `readers` prints of one reader.
pub open spec fn reader_line(r: ReaderStatus) -> Seq<char> {
    match r.serial_hex {
        Some(serial) => "  [Token2 FIDO] "@ + r.reader_name@ + "  serial="@ + serial@,
        None => "  [other/empty] "@ + r.reader_name@,
    }
}

/// What `readers` prints.
pub open spec fn readers_lines_of(readers: Seq<ReaderStatus>) -> Seq<Seq<char>> {
    if readers.len() == 0 {
        seq!["no PC/SC readers connected"@]
    } else {
        seq!["PC/SC readers ("@ + text::decimal_digits(readers.len()) + "):"@]
            + readers.map_values(|r: ReaderStatus| reader_line(r))
    }
}

/// List every PC/SC reader and say whether a Token2 FIDO key is present —
/// determined by **reading the serial**, not the reader's name.
pub fn readers_lines(readers: &[ReaderStatus]) -> (lines: Vec<String>)
    ensures
        words(lines@) == readers_lines_of(readers@),
{
    let mut lines: Vec<String> = Vec::new();
    if readers.len() == 0 {
        lines.push(text::owned("no PC/SC readers connected"));
        assert(words(lines@) == readers_lines_of(readers@));
        return lines;
    }
    let mut head = text::owned("PC/SC readers (");
    text::append(&mut head, text::decimal(readers.len() as u64).as_str());
    text::append(&mut head, "):");
    let ghost of_readers = readers@.map_values(|r: ReaderStatus| reader_line(r));
    let ghost first = head@;
    lines.push(head);
    assert(words(lines@) == seq![first] + of_readers.take(0));
    for i in 0..readers.len()
        invariant
            of_readers == readers@.map_values(|r: ReaderStatus| reader_line(r)),
            words(lines@) == seq![first] + of_readers.take(i as int),
    {
        let r = &readers[i];
        let ghost before = lines@;
        let line = match &r.serial_hex {
            Some(serial) => {
                let mut s = both("  [Token2 FIDO] ", r.reader_name.as_str());
                text::append(&mut s, "  serial=");
                text::append(&mut s, serial.as_str());
                s
            },
            None => both("  [other/empty] ", r.reader_name.as_str()),
        };
        lines.push(line);
        assert(words(lines@) == words(before).push(line@));
        assert(of_readers.take(i + 1) == of_readers.take(i as int).push(of_readers[i as int]));
    }
    assert(of_readers.take(of_readers.len() as int) == of_readers);
    lines
}

/// What `list` prints of one entry.
pub open spec fn entry_line_of(e: EntryView) -> Seq<char> {
    "  "@ + e.otp_type.name() + " "@ + e.label() + (if e.is_auto() {
        " (Auto-OTP)"@
    } else {
        seq![]
    }) + (if e.button_required {
        " [touch]"@
    } else {
        seq![]
    }) + "  ->  "@ + (match e.code {
        Some(code) => code,
        None => "(touch key to view)"@,
    })
}

/// What `list` prints.
pub open spec fn list_lines_of(entries: Seq<EntryView>) -> Seq<Seq<char>> {
    if entries.len() == 0 {
        seq!["no profiles stored on the key"@]
    } else {
        seq![text::decimal_digits(entries.len()) + " profile(s):"@] + entries.map_values(
            |e: EntryView| entry_line_of(e),
        )
    }
}

/// The line that `list` prints of one entry.
pub fn entry_line(e: &Entry) -> (s: String)
    ensures
        s@ == entry_line_of(e@),
{
    let mut s = both("  ", e.otp_type.as_str());
    text::append(&mut s, " ");
    text::append(&mut s, e.label().as_str());
    let ghost before = s@;
    if e.is_auto() {
        text::append(&mut s, " (Auto-OTP)");
    } else {
        assert(before + Seq::<char>::empty() == before);
    }
    let ghost before = s@;
    if e.button_required {
        text::append(&mut s, " [touch]");
    } else {
        assert(before + Seq::<char>::empty() == before);
    }
    text::append(&mut s, "  ->  ");
    match &e.code {
        Some(code) => text::append(&mut s, code.as_str()),
        None => text::append(&mut s, "(touch key to view)"),
    }
    s
}

/// The lines that `list` prints of the entries on the key.
pub fn list_lines(entries: &[Entry]) -> (lines: Vec<String>)
    ensures
        words(lines@) == list_lines_of(entry::entry_views(entries@)),
{
    let mut lines: Vec<String> = Vec::new();
    let ghost views = entry::entry_views(entries@);
    if entries.len() == 0 {
        lines.push(text::owned("no profiles stored on the key"));
        assert(words(lines@) == list_lines_of(views));
        return lines;
    }
    let mut head = text::decimal(entries.len() as u64);
    text::append(&mut head, " profile(s):");
    let ghost of_entries = views.map_values(|e: EntryView| entry_line_of(e));
    let ghost first = head@;
    lines.push(head);
    assert(words(lines@) == seq![first] + of_entries.take(0));
    for i in 0..entries.len()
        invariant
            views == entry::entry_views(entries@),
            of_entries == views.map_values(|e: EntryView| entry_line_of(e)),
            words(lines@) == seq![first] + of_entries.take(i as int),
    {
        let ghost before = lines@;
        let line = entry_line(&entries[i]);
        lines.push(line);
        assert(words(lines@) == words(before).push(line@));
        assert(of_entries.take(i + 1) == of_entries.take(i as int).push(of_entries[i as int]));
    }
    assert(of_entries.take(of_entries.len() as int) == of_entries);
    lines
}

/// What `code` prints of the entry that was read.
pub fn code_line(entry: Entry) -> (r: Result<String, CliError>)
    ensures
        match r {
            Ok(s) => entry@.code == Some(s@),
            Err(e) => entry@.code is None && e@ == CliFault::Other(
                "the key returned no code for that profile"@,
            ),
        },
{
    match entry.code {
        Some(code) => Ok(code),
        None => Err(CliError::Other(text::owned("the key returned no code for that profile"))),
    }
}

/// What `delete` prints once the profile is gone.
pub fn deleted_message(issuer: &str, account: &str) -> (s: String)
    ensures
        s@ == "deleted profile "@ + issuer@ + ":"@ + account@,
{
    let mut s = both("deleted profile ", issuer);
    text::append(&mut s, ":");
    text::append(&mut s, account);
    s
}

// --- laws ----------------------------------------------------------------------

/// The global options are taken off the front and nothing else: what is left is
/// the end of the command line from some word on, and it does not begin with
/// another global option.
pub proof fn law_globals_leave_the_command(g: GlobalsView, args: Seq<Seq<char>>)
    ensures
        take_globals(g, args) matches Ok((h, rest)) ==> {
            &&& rest.len() <= args.len()
            &&& rest == args.skip(args.len() - rest.len())
            &&& rest.len() > 0 ==> rest[0] != "--transport"@ && rest[0] != "--reader"@ && rest[0]
                != "--debug"@
        },
    decreases args.len(), 0int,
{
    if args.len() == 0 {
        assert(args.skip(0) == args);
    } else if args[0] == "--transport"@ {
        if args.len() >= 2 {
            if let Some(iface) = interface_named(args[1]) {
                lemma_globals_step(GlobalsView { iface, ..g }, args, 2);
            }
        }
    } else if args[0] == "--reader"@ {
        if args.len() >= 2 {
            lemma_globals_step(GlobalsView { reader: Some(args[1]), ..g }, args, 2);
        }
    } else if args[0] == "--debug"@ {
        lemma_globals_step(GlobalsView { debug: true, ..g }, args, 1);
    } else {
        assert(args.skip(0) == args);
    }
}

proof fn lemma_globals_step(g: GlobalsView, args: Seq<Seq<char>>, k: int)
    requires
        1 <= k <= args.len(),
    ensures
        take_globals(g, args.skip(k)) matches Ok((h, rest)) ==> {
            &&& rest.len() <= args.len()
            &&& rest == args.skip(args.len() - rest.len())
            &&& rest.len() > 0 ==> rest[0] != "--transport"@ && rest[0] != "--reader"@ && rest[0]
                != "--debug"@
        },
    decreases args.len() - k, 1int,
{
    law_globals_leave_the_command(g, args.skip(k));
    if let Ok((h, rest)) = take_globals(g, args.skip(k)) {
        assert(args.skip(k).skip(args.skip(k).len() - rest.len()) == args.skip(
            args.len() - rest.len(),
        ));
    }
}

proof fn lemma_add_words_in_range(w: AddWords, args: Seq<Seq<char>>)
    requires
        w.period >= 1,
        4 <= w.digits <= 10,
    ensures
        take_add_words(w, args) matches Ok(v) ==> v.period >= 1 && 4 <= v.digits <= 10,
    decreases args.len(),
{
    if args.len() == 0 {
    } else if args[0] == "--auto"@ {
        lemma_add_words_in_range(AddWords { auto: true, ..w }, args.skip(1));
    } else if args[0] == "--sha256"@ {
        lemma_add_words_in_range(AddWords { sha256: true, ..w }, args.skip(1));
    } else if args[0] == "--touch"@ {
        lemma_add_words_in_range(AddWords { touch: true, ..w }, args.skip(1));
    } else if args[0] == "--period"@ {
        if args.len() >= 2 {
            if let Ok(period) = period_named(args[1]) {
                lemma_add_words_in_range(AddWords { period, ..w }, args.skip(2));
            }
        }
    } else if args[0] == "--digits"@ {
        if args.len() >= 2 {
            if let Ok(digits) = digits_named(args[1]) {
                lemma_add_words_in_range(AddWords { digits, ..w }, args.skip(2));
            }
        }
    } else if !"--"@.is_prefix_of(args[0]) {
        lemma_add_words_in_range(
            AddWords { positionals: w.positionals.push(args[0]), ..w },
            args.skip(1),
        );
    }
}

/// An `add` that was accepted has a period and a code length that the key takes:
/// of the write that carries it out, only the names can still be refused, given a
/// seed that was decoded from a secret.
pub proof fn law_accepted_add_can_be_written(
    args: Seq<Seq<char>>,
    w: WriteEntry<'_>,
    secret: Seq<char>,
)
    requires
        add_of(args) is Ok,
        proto::seed_of(secret) is Ok,
        is_write_for(w, add_of(args)->Ok_0, proto::seed_of(secret)->Ok_0),
    ensures
        w.check() == entry::names_check(w.app_name@, w.account_name@),
{
    lemma_add_words_in_range(no_add_words(), args);
    proto::law_seed_length(secret);
}

/// The tag is there once it was asked for, it is not appended a second time, and
/// without being asked for it nothing is appended.
pub proof fn law_auto_tag_is_appended_once(issuer: Seq<char>)
    ensures
        text::occurs(tagged_issuer(issuer, true), AUTO_TAG@),
        tagged_issuer(tagged_issuer(issuer, true), true) == tagged_issuer(issuer, true),
        tagged_issuer(issuer, false) == issuer,
{
    if !text::occurs(issuer, AUTO_TAG@) {
        let tagged = issuer + AUTO_TAG@;
        assert(tagged.subrange(issuer.len() as int, tagged.len() as int) == AUTO_TAG@);
        assert(text::occurs_at(tagged, AUTO_TAG@, issuer.len() as int));
    }
}

/// The tag round-trips: an entry that comes back from the key with the issuer that
/// `add --auto` wrote is an Auto-OTP entry, and `list` flags it.
pub proof fn law_auto_profile_is_flagged(args: Seq<Seq<char>>, e: EntryView)
    requires
        add_of(args) is Ok,
        add_of(args)->Ok_0.auto,
        e.app_name == add_of(args)->Ok_0.issuer,
    ensures
        e.is_auto(),
        ("  "@ + e.otp_type.name() + " "@ + e.label() + " (Auto-OTP)"@).is_prefix_of(
            entry_line_of(e),
        ),
{
    let words = take_add_words(no_add_words(), args)->Ok_0;
    law_auto_tag_is_appended_once(words.positionals[0]);
    let head = "  "@ + e.otp_type.name() + " "@ + e.label() + " (Auto-OTP)"@;
    let line = entry_line_of(e);
    assert(line.take(head.len() as int) == head);
}

/// Nothing is erased by accident: the command line asks for an erase only where it
/// says `erase` and, behind it, `--yes`.
pub proof fn law_erase_is_confirmed(args: Seq<Seq<char>>)
    ensures
        command_of(args) == Ok::<CommandView, CliFault>(CommandView::Erase) ==> args.len() >= 2
            && args[0] == "erase"@ && args.skip(1).contains("--yes"@),
{
}

/// What a command line's values show is what they hold, each under its own name.
pub proof fn law_command_line_views(
    e: CliError,
    g: Globals,
    a: AddRequest,
    c: Command,
    args: Seq<String>,
)
    ensures
        match e {
            CliError::Usage(s) => e@ == CliFault::Usage(s@),
            CliError::Other(s) => e@ == CliFault::Other(s@),
        },
        g@.iface == g.iface && g@.debug == g.debug,
        g@.reader is Some <==> g.reader is Some,
        g.reader matches Some(name) ==> g@.reader == Some(name@),
        a@.issuer == a.issuer@ && a@.account == a.account@,
        a@.auto == a.auto && a@.sha256 == a.sha256 && a@.touch == a.touch,
        a@.period == a.period && a@.digits == a.digits,
        match c {
            Command::Help => c@ is Help,
            Command::Info => c@ is Info,
            Command::Readers => c@ is Readers,
            Command::List => c@ is List,
            Command::Code { issuer, account } => c@ == (CommandView::Code {
                issuer: issuer@,
                account: account@,
            }),
            Command::Add(r) => c@ == CommandView::Add(r@),
            Command::Delete { issuer, account } => c@ == (CommandView::Delete {
                issuer: issuer@,
                account: account@,
            }),
            Command::Erase => c@ is Erase,
        },
        words(args).len() == args.len(),
        forall|i: int| 0 <= i < args.len() ==> words(args)[i] == (#[trigger] args[i])@,
{
}

/// The words for an interface, and no others, stand for it.
pub proof fn law_interface_names(v: Seq<char>)
    ensures
        interface_named(v) == Some(Interface::Auto) <==> v == "auto"@,
        interface_named(v) == Some(Interface::Hid) <==> v == "hid"@ || v == "usb"@,
        interface_named(v) == Some(Interface::Nfc) <==> v == "nfc"@ || v == "ccid"@ || v == "pcsc"@,
{
    reveal_strlit("auto");
    reveal_strlit("hid");
    reveal_strlit("usb");
    reveal_strlit("nfc");
    reveal_strlit("ccid");
    reveal_strlit("pcsc");
    assert("auto"@[0] == 'a' && "hid"@[0] == 'h' && "usb"@[0] == 'u' && "nfc"@[0] == 'n'
        && "ccid"@[0] == 'c' && "pcsc"@[0] == 'p');
}

/// Each global option sets its own field and no other, whatever stands behind it: the
/// interface of that name, the reader's name as it is given, and the trace. Without
/// options the interface is found out, nothing is traced and no reader is named; and
/// what follows the options is left as it stands.
pub proof fn law_global_options(g: GlobalsView, v: Seq<char>, rest: Seq<Seq<char>>)
    ensures
        default_globals().iface == Interface::Auto && !default_globals().debug
            && default_globals().reader is None,
        take_globals(g, seq!["--debug"@] + rest) == take_globals(
            GlobalsView { iface: g.iface, debug: true, reader: g.reader },
            rest,
        ),
        take_globals(g, seq!["--reader"@, v] + rest) == take_globals(
            GlobalsView { iface: g.iface, debug: g.debug, reader: Some(v) },
            rest,
        ),
        interface_named(v) matches Some(iface) ==> take_globals(g, seq!["--transport"@, v] + rest)
            == take_globals(GlobalsView { iface, debug: g.debug, reader: g.reader }, rest),
        interface_named(v) is None ==> take_globals(g, seq!["--transport"@, v] + rest) == Err::<
            (GlobalsView, Seq<Seq<char>>),
            CliFault,
        >(CliFault::Usage("--transport must be auto|hid|nfc, got "@ + v)),
        take_globals(g, seq!["--transport"@]) == Err::<(GlobalsView, Seq<Seq<char>>), CliFault>(
            CliFault::Usage("--transport needs a value"@),
        ),
        take_globals(g, seq!["--reader"@]) == Err::<(GlobalsView, Seq<Seq<char>>), CliFault>(
            CliFault::Usage("--reader needs a PC/SC reader name"@),
        ),
        rest.len() == 0 || (rest[0] != "--transport"@ && rest[0] != "--reader"@ && rest[0]
            != "--debug"@) ==> take_globals(g, rest) == Ok::<
            (GlobalsView, Seq<Seq<char>>),
            CliFault,
        >((g, rest)),
{
    reveal_strlit("--transport");
    reveal_strlit("--reader");
    reveal_strlit("--debug");
    assert("--transport"@[2] == 't' && "--reader"@[2] == 'r' && "--debug"@[2] == 'd');
    let d = seq!["--debug"@] + rest;
    assert(d.skip(1) == rest);
    let r = seq!["--reader"@, v] + rest;
    assert(r[0] == "--reader"@ && r[1] == v && r.skip(2) == rest);
    let t = seq!["--transport"@, v] + rest;
    assert(t[0] == "--transport"@ && t[1] == v && t.skip(2) == rest);
}

/// A period is a decimal number of seconds from 1 to 65535, and a code length one of
/// digits from 4 to 10; anything else is refused, with the reason.
pub proof fn law_period_and_digits(v: Seq<char>, n: nat)
    ensures
        ({
            let in_range = text::number(v, 10) matches Some(m) && 1 <= m <= 65535;
            &&& in_range ==> period_named(v) == Ok::<u16, CliFault>(text::number(v, 10)->0 as u16)
            &&& text::number(v, 10) == Some(0nat) ==> period_named(v) == Err::<u16, CliFault>(
                CliFault::Usage("--period must be at least 1 second"@),
            )
            &&& !in_range && text::number(v, 10) != Some(0nat) ==> period_named(v) == Err::<
                u16,
                CliFault,
            >(CliFault::Usage("--period must be 1..=65535 seconds"@))
        }),
        ({
            let in_range = text::number(v, 10) matches Some(m) && 4 <= m <= 10;
            let in_byte = text::number(v, 10) matches Some(m) && m <= 255;
            &&& in_range ==> digits_named(v) == Ok::<u8, CliFault>(text::number(v, 10)->0 as u8)
            &&& in_byte && !in_range ==> digits_named(v) == Err::<u8, CliFault>(
                CliFault::Usage("--digits must be between 4 and 10"@),
            )
            &&& !in_byte ==> digits_named(v) == Err::<u8, CliFault>(
                CliFault::Usage("--digits must be 4..=10"@),
            )
        }),
        1 <= n <= 65535 ==> period_named(text::decimal_digits(n)) == Ok::<u16, CliFault>(n as u16),
        4 <= n <= 10 ==> digits_named(text::decimal_digits(n)) == Ok::<u8, CliFault>(n as u8),
{
    text::law_decimal(n);
}

/// Whether word `i` of an `add` is read for itself, and is not the value of the option
/// before it.
pub open spec fn stands(args: Seq<Seq<char>>, i: int) -> bool
    decreases i,
{
    if i <= 0 {
        i == 0
    } else {
        !(stands(args, i - 1) && (args[i - 1] == "--period"@ || args[i - 1] == "--digits"@))
    }
}

proof fn lemma_stands_behind(args: Seq<Seq<char>>, k: int, i: int)
    requires
        0 <= k <= args.len(),
        stands(args, k),
        0 <= i <= args.len() - k,
    ensures
        stands(args.skip(k), i) == stands(args, k + i),
    decreases i,
{
    if i > 0 {
        lemma_stands_behind(args, k, i - 1);
        assert(args.skip(k)[i - 1] == args[k + i - 1]);
    }
}

/// How many words the first word takes up with its value.
spec fn front_words(args: Seq<Seq<char>>) -> int {
    if args[0] == "--period"@ || args[0] == "--digits"@ {
        2
    } else {
        1
    }
}

proof fn lemma_front_stands(args: Seq<Seq<char>>)
    requires
        args.len() > 0,
        front_words(args) <= args.len(),
    ensures
        stands(args, front_words(args)),
        forall|i: int| 0 < i < front_words(args) ==> !stands(args, i),
        stands(args, 0),
{
    reveal_with_fuel(stands, 3);
}

/// A word that stands in `args` is the first one, or stands behind what the first
/// one takes up; and the other way round.
proof fn lemma_standing_words(args: Seq<Seq<char>>)
    requires
        args.len() > 0,
        front_words(args) <= args.len(),
    ensures
        forall|i: int|
            0 < i < args.len() && #[trigger] stands(args, i) ==> i >= front_words(args) && stands(
                args.skip(front_words(args)),
                i - front_words(args),
            ),
        forall|i: int|
            0 <= i < args.len() - front_words(args) && #[trigger] stands(
                args.skip(front_words(args)),
                i,
            ) ==> stands(args, i + front_words(args)),
{
    lemma_front_stands(args);
    let k = front_words(args);
    assert forall|i: int| 0 < i < args.len() && #[trigger] stands(args, i) implies i >= k && stands(
        args.skip(k),
        i - k,
    ) by {
        if i >= k {
            lemma_stands_behind(args, k, i - k);
        }
    }
    assert forall|i: int|
        0 <= i < args.len() - k && #[trigger] stands(args.skip(k), i) implies stands(
        args,
        i + k,
    ) by {
        lemma_stands_behind(args, k, i);
    }
}

proof fn lemma_add_options_differ()
    ensures
        "--auto"@ != "--sha256"@,
        "--auto"@ != "--touch"@,
        "--auto"@ != "--period"@,
        "--auto"@ != "--digits"@,
        "--sha256"@ != "--touch"@,
        "--sha256"@ != "--period"@,
        "--sha256"@ != "--digits"@,
        "--touch"@ != "--period"@,
        "--touch"@ != "--digits"@,
        "--period"@ != "--digits"@,
        "--"@.is_prefix_of("--auto"@),
        "--"@.is_prefix_of("--sha256"@),
        "--"@.is_prefix_of("--touch"@),
        "--"@.is_prefix_of("--period"@),
        "--"@.is_prefix_of("--digits"@),
{
    reveal_strlit("--");
    reveal_strlit("--auto");
    reveal_strlit("--sha256");
    reveal_strlit("--touch");
    reveal_strlit("--period");
    reveal_strlit("--digits");
    assert("--auto"@[2] == 'a' && "--sha256"@[2] == 's' && "--touch"@[2] == 't' && "--period"@[2]
        == 'p' && "--digits"@[2] == 'd');
}

/// Whether some word of an `add` that stands for itself is `word`.
spec fn asks(args: Seq<Seq<char>>, word: Seq<char>) -> bool {
    exists|i: int| 0 <= i < args.len() && #[trigger] stands(args, i) && args[i] == word
}

proof fn lemma_asks(args: Seq<Seq<char>>, word: Seq<char>)
    requires
        args.len() > 0,
        front_words(args) <= args.len(),
    ensures
        asks(args, word) <==> args[0] == word || asks(args.skip(front_words(args)), word),
{
    lemma_standing_words(args);
    lemma_front_stands(args);
    let k = front_words(args);
    let rest = args.skip(k);
    if asks(args, word) && args[0] != word {
        let i = choose|i: int|
            0 <= i < args.len() && #[trigger] stands(args, i) && args[i] == word;
        assert(stands(rest, i - k) && rest[i - k] == word);
    }
    if asks(rest, word) {
        let i = choose|i: int|
            0 <= i < rest.len() && #[trigger] stands(rest, i) && rest[i] == word;
        assert(stands(args, i + k) && args[i + k] == word);
    }
    if args[0] == word {
        assert(stands(args, 0) && args[0] == word);
    }
}

/// The words of an `add` behind the first one and its value, and what has been said
/// with it.
spec fn after_front(w: AddWords, args: Seq<Seq<char>>) -> AddWords {
    if args[0] == "--auto"@ {
        AddWords { auto: true, ..w }
    } else if args[0] == "--sha256"@ {
        AddWords { sha256: true, ..w }
    } else if args[0] == "--touch"@ {
        AddWords { touch: true, ..w }
    } else if args[0] == "--period"@ {
        AddWords { period: period_named(args[1])->Ok_0, ..w }
    } else if args[0] == "--digits"@ {
        AddWords { digits: digits_named(args[1])->Ok_0, ..w }
    } else {
        AddWords { positionals: w.positionals.push(args[0]), ..w }
    }
}

proof fn lemma_add_front(w: AddWords, args: Seq<Seq<char>>)
    requires
        args.len() > 0,
        take_add_words(w, args) is Ok,
    ensures
        front_words(args) <= args.len(),
        take_add_words(w, args) == take_add_words(
            after_front(w, args),
            args.skip(front_words(args)),
        ),
        args[0] == "--period"@ ==> period_named(args[1]) is Ok,
        args[0] == "--digits"@ ==> digits_named(args[1]) is Ok,
        args[0] == "--auto"@ || args[0] == "--sha256"@ || args[0] == "--touch"@ || args[0]
            == "--period"@ || args[0] == "--digits"@ || !"--"@.is_prefix_of(args[0]),
{
    lemma_add_options_differ();
}

proof fn lemma_add_flags(w: AddWords, args: Seq<Seq<char>>)
    requires
        take_add_words(w, args) is Ok,
    ensures
        ({
            let v = take_add_words(w, args)->Ok_0;
            &&& v.auto <==> w.auto || asks(args, "--auto"@)
            &&& v.sha256 <==> w.sha256 || asks(args, "--sha256"@)
            &&& v.touch <==> w.touch || asks(args, "--touch"@)
            &&& !asks(args, "--period"@) ==> v.period == w.period
            &&& !asks(args, "--digits"@) ==> v.digits == w.digits
        }),
    decreases args.len(),
{
    if args.len() > 0 {
        lemma_add_front(w, args);
        lemma_add_options_differ();
        lemma_add_flags(after_front(w, args), args.skip(front_words(args)));
        lemma_asks(args, "--auto"@);
        lemma_asks(args, "--sha256"@);
        lemma_asks(args, "--touch"@);
        lemma_asks(args, "--period"@);
        lemma_asks(args, "--digits"@);
    }
}

/// Whether `word` stands at `i` and nowhere behind it.
spec fn asks_last(args: Seq<Seq<char>>, word: Seq<char>, i: int) -> bool {
    &&& 0 <= i < args.len()
    &&& stands(args, i)
    &&& args[i] == word
    &&& forall|j: int| i < j < args.len() && #[trigger] stands(args, j) ==> args[j] != word
}

proof fn lemma_asks_last(args: Seq<Seq<char>>, word: Seq<char>, i: int)
    requires
        args.len() > 0,
        front_words(args) <= args.len(),
        asks_last(args, word, i),
    ensures
        i == 0 ==> !asks(args.skip(front_words(args)), word),
        i > 0 ==> i >= front_words(args) && asks_last(
            args.skip(front_words(args)),
            word,
            i - front_words(args),
        ),
{
    lemma_standing_words(args);
    let k = front_words(args);
    let rest = args.skip(k);
    assert forall|j: int| i - k < j < rest.len() && 0 <= j && #[trigger] stands(
        rest,
        j,
    ) implies rest[j] != word by {
        assert(stands(args, j + k));
        assert(args[j + k] == rest[j]);
    }
}

proof fn lemma_add_values(w: AddWords, args: Seq<Seq<char>>, i: int)
    requires
        take_add_words(w, args) is Ok,
    ensures
        asks_last(args, "--period"@, i) ==> i + 1 < args.len() && period_named(args[i + 1]) == Ok::<
            u16,
            CliFault,
        >(take_add_words(w, args)->Ok_0.period),
        asks_last(args, "--digits"@, i) ==> i + 1 < args.len() && digits_named(args[i + 1]) == Ok::<
            u8,
            CliFault,
        >(take_add_words(w, args)->Ok_0.digits),
    decreases args.len(),
{
    if args.len() > 0 {
        lemma_add_front(w, args);
        lemma_add_options_differ();
        let k = front_words(args);
        let rest = args.skip(k);
        let next = after_front(w, args);
        lemma_add_values(next, rest, i - k);
        lemma_add_flags(next, rest);
        if asks_last(args, "--period"@, i) {
            lemma_asks_last(args, "--period"@, i);
        }
        if asks_last(args, "--digits"@, i) {
            lemma_asks_last(args, "--digits"@, i);
        }
    }
}

/// Each option of an `add` sets its own field and no other: a flag is set exactly
/// where its word stands among the others and is not the value of an option, and
/// the period and the code length are the value behind the last of their words, or
/// 30 and 6 without one.
pub proof fn law_add_options(args: Seq<Seq<char>>, i: int)
    requires
        add_of(args) is Ok,
    ensures
        ({
            let a = add_of(args)->Ok_0;
            &&& a.auto <==> exists|j: int|
                0 <= j < args.len() && #[trigger] stands(args, j) && args[j] == "--auto"@
            &&& a.sha256 <==> exists|j: int|
                0 <= j < args.len() && #[trigger] stands(args, j) && args[j] == "--sha256"@
            &&& a.touch <==> exists|j: int|
                0 <= j < args.len() && #[trigger] stands(args, j) && args[j] == "--touch"@
            &&& (forall|j: int|
                0 <= j < args.len() && #[trigger] stands(args, j) ==> args[j] != "--period"@)
                ==> a.period == 30
            &&& (forall|j: int|
                0 <= j < args.len() && #[trigger] stands(args, j) ==> args[j] != "--digits"@)
                ==> a.digits == 6
            &&& 0 <= i < args.len() && stands(args, i) && args[i] == "--period"@ && (forall|j: int|
                i < j < args.len() && #[trigger] stands(args, j) ==> args[j] != "--period"@) ==> i
                + 1 < args.len() && period_named(args[i + 1]) == Ok::<u16, CliFault>(a.period)
            &&& 0 <= i < args.len() && stands(args, i) && args[i] == "--digits"@ && (forall|j: int|
                i < j < args.len() && #[trigger] stands(args, j) ==> args[j] != "--digits"@) ==> i
                + 1 < args.len() && digits_named(args[i + 1]) == Ok::<u8, CliFault>(a.digits)
        }),
{
    lemma_add_flags(no_add_words(), args);
    lemma_add_values(no_add_words(), args, i);
}

/// Where the words of an `add` that are no options stand, in order.
#[verifier::spinoff_prover]
#[verifier::rlimit(40)]
proof fn lemma_add_positionals(w: AddWords, args: Seq<Seq<char>>) -> (ps: Seq<int>)
    requires
        take_add_words(w, args) is Ok,
    ensures
        take_add_words(w, args)->Ok_0.positionals.len() == w.positionals.len() + ps.len(),
        forall|j: int|
            0 <= j < w.positionals.len() ==> take_add_words(w, args)->Ok_0.positionals[j]
                == #[trigger] w.positionals[j],
        forall|j: int|
            0 <= j < ps.len() ==> 0 <= #[trigger] ps[j] < args.len() && stands(args, ps[j])
                && !"--"@.is_prefix_of(args[ps[j]]) && take_add_words(
                w,
                args,
            )->Ok_0.positionals[w.positionals.len() + j] == args[ps[j]],
        forall|j: int, l: int| 0 <= j < l < ps.len() ==> #[trigger] ps[j] < #[trigger] ps[l],
        forall|i: int|
            0 <= i < args.len() && #[trigger] stands(args, i) && !"--"@.is_prefix_of(args[i])
                ==> ps.contains(i),
    decreases args.len(),
{
    if args.len() == 0 {
        Seq::empty()
    } else {
        lemma_add_front(w, args);
        lemma_add_options_differ();
        lemma_standing_words(args);
        lemma_front_stands(args);
        let k = front_words(args);
        let rest = args.skip(k);
        let next = after_front(w, args);
        let qs = lemma_add_positionals(next, rest);
        let moved = qs.map_values(|q: int| q + k);
        let plain = !"--"@.is_prefix_of(args[0]);
        let ps = if plain {
            seq![0int] + moved
        } else {
            moved
        };
        let off: int = if plain {
            1
        } else {
            0
        };
        let v = take_add_words(w, args)->Ok_0;
        assert(forall|j: int| off <= j < ps.len() ==> #[trigger] ps[j] == qs[j - off] + k);
        assert forall|j: int| 0 <= j < ps.len() implies 0 <= #[trigger] ps[j] < args.len() && stands(
            args,
            ps[j],
        ) && !"--"@.is_prefix_of(args[ps[j]]) && v.positionals[w.positionals.len() + j]
            == args[ps[j]] by {
            if j < off {
                assert(next.positionals[w.positionals.len() as int] == args[0]);
            } else {
                let q = qs[j - off];
                assert(stands(rest, q));
                assert(rest[q] == args[q + k]);
                assert(v.positionals[next.positionals.len() + (j - off)] == rest[q]);
            }
        }
        assert forall|j: int| 0 <= j < w.positionals.len() implies v.positionals[j]
            == #[trigger] w.positionals[j] by {
            assert(next.positionals[j] == w.positionals[j]);
        }
        assert forall|i: int|
            0 <= i < args.len() && #[trigger] stands(args, i) && !"--"@.is_prefix_of(
                args[i],
            ) implies ps.contains(i) by {
            if i == 0 {
                assert(ps[0] == 0);
            } else {
                assert(stands(rest, i - k));
                assert(rest[i - k] == args[i]);
                let j = choose|j: int| 0 <= j < qs.len() && qs[j] == i - k;
                assert(ps[j + off] == i);
            }
        }
        ps
    }
}

/// An `add` names one issuer and one account: of its words that stand for themselves
/// exactly two do not begin with two hyphens, the first is the issuer, and the
/// second is the account, as they stand but for the tag that is asked for.
pub proof fn law_add_names(args: Seq<Seq<char>>)
    ensures
        add_of(args) matches Ok(a) ==> exists|p: int, q: int|
            {
                &&& 0 <= p < q < args.len()
                &&& #[trigger] stands(args, p) && !"--"@.is_prefix_of(args[p])
                &&& #[trigger] stands(args, q) && !"--"@.is_prefix_of(args[q])
                &&& forall|i: int|
                    0 <= i < args.len() && i != p && i != q && #[trigger] stands(args, i)
                        ==> "--"@.is_prefix_of(args[i])
                &&& a.issuer == tagged_issuer(args[p], a.auto)
                &&& a.account == args[q]
            },
{
    if let Ok(a) = add_of(args) {
        let ps = lemma_add_positionals(no_add_words(), args);
        let p = ps[0];
        let q = ps[1];
        assert forall|i: int|
            0 <= i < args.len() && i != p && i != q && #[trigger] stands(
                args,
                i,
            ) implies "--"@.is_prefix_of(args[i]) by {
            if !"--"@.is_prefix_of(args[i]) {
                let j = choose|j: int| 0 <= j < ps.len() && ps[j] == i;
                assert(j == 0 || j == 1);
            }
        }
        assert(stands(args, p) && stands(args, q));
    }
}

/// Whether word `i` of an `add`, read for itself, is in order.
pub open spec fn word_in_order(args: Seq<Seq<char>>, i: int) -> bool {
    let word = args[i];
    if word == "--period"@ {
        i + 1 < args.len() && period_named(args[i + 1]) is Ok
    } else if word == "--digits"@ {
        i + 1 < args.len() && digits_named(args[i + 1]) is Ok
    } else {
        word == "--auto"@ || word == "--sha256"@ || word == "--touch"@ || !"--"@.is_prefix_of(word)
    }
}

proof fn lemma_add_readable(w: AddWords, args: Seq<Seq<char>>)
    requires
        forall|i: int|
            0 <= i < args.len() && #[trigger] stands(args, i) ==> word_in_order(args, i),
    ensures
        take_add_words(w, args) is Ok,
    decreases args.len(),
{
    if args.len() > 0 {
        lemma_add_options_differ();
        assert(stands(args, 0));
        assert(word_in_order(args, 0));
        lemma_standing_words(args);
        let k = front_words(args);
        let rest = args.skip(k);
        assert forall|i: int| 0 <= i < rest.len() && #[trigger] stands(
            rest,
            i,
        ) implies word_in_order(rest, i) by {
            assert(stands(args, i + k));
            assert(word_in_order(args, i + k));
            assert(rest[i] == args[i + k]);
            if i + 1 < rest.len() {
                assert(rest[i + 1] == args[i + 1 + k]);
            }
        }
        lemma_add_readable(after_front(w, args), rest);
    }
}

/// An `add` is accepted where its words are in order and exactly two of them are no
/// options; with another number of those, what is needed is said.
pub proof fn law_add_is_accepted(args: Seq<Seq<char>>, p: int, q: int)
    requires
        forall|i: int|
            0 <= i < args.len() && #[trigger] stands(args, i) ==> word_in_order(args, i),
    ensures
        0 <= p < q < args.len() && stands(args, p) && !"--"@.is_prefix_of(args[p]) && stands(
            args,
            q,
        ) && !"--"@.is_prefix_of(args[q]) && (forall|i: int|
            0 <= i < args.len() && i != p && i != q && #[trigger] stands(args, i)
                ==> "--"@.is_prefix_of(args[i])) ==> add_of(args) is Ok,
        add_of(args) is Err ==> add_of(args) == Err::<AddView, CliFault>(
            CliFault::Usage(
                "add needs <issuer> <account> (and a secret on stdin or $T2TOTP_SECRET)"@,
            ),
        ),
{
    lemma_add_readable(no_add_words(), args);
    let ps = lemma_add_positionals(no_add_words(), args);
    if 0 <= p < q < args.len() && stands(args, p) && !"--"@.is_prefix_of(args[p]) && stands(args, q)
        && !"--"@.is_prefix_of(args[q]) && (forall|i: int|
        0 <= i < args.len() && i != p && i != q && #[trigger] stands(args, i)
            ==> "--"@.is_prefix_of(args[i])) {
        let a = choose|a: int| 0 <= a < ps.len() && ps[a] == p;
        let b = choose|b: int| 0 <= b < ps.len() && ps[b] == q;
        assert forall|j: int| 0 <= j < ps.len() implies #[trigger] ps[j] == p || ps[j] == q by {
            assert(stands(args, ps[j]) && !"--"@.is_prefix_of(args[ps[j]]));
        }
        assert(a != b);
        if ps.len() > 2 {
            assert(ps[0] < ps[1] && ps[1] < ps[2]);
        }
    }
}

proof fn lemma_add_refusal(w: AddWords, args: Seq<Seq<char>>, i: int)
    requires
        0 <= i < args.len(),
        stands(args, i),
        !word_in_order(args, i),
        forall|j: int| 0 <= j < i && #[trigger] stands(args, j) ==> word_in_order(args, j),
    ensures
        take_add_words(w, args) == Err::<AddWords, CliFault>(
            if args[i] == "--period"@ {
                if i + 1 < args.len() {
                    period_named(args[i + 1])->Err_0
                } else {
                    CliFault::Usage("--period needs a value"@)
                }
            } else if args[i] == "--digits"@ {
                if i + 1 < args.len() {
                    digits_named(args[i + 1])->Err_0
                } else {
                    CliFault::Usage("--digits needs a value"@)
                }
            } else {
                CliFault::Usage("unknown flag for add: "@ + args[i])
            },
        ),
    decreases args.len(),
{
    lemma_add_options_differ();
    if i > 0 {
        assert(stands(args, 0));
        assert(word_in_order(args, 0));
        lemma_standing_words(args);
        let k = front_words(args);
        let rest = args.skip(k);
        assert(rest[i - k] == args[i]);
        assert(i + 1 < args.len() ==> rest[i - k + 1] == args[i + 1]);
        assert forall|j: int| 0 <= j < i - k && #[trigger] stands(rest, j) implies word_in_order(
            rest,
            j,
        ) by {
            assert(stands(args, j + k));
            assert(word_in_order(args, j + k));
            assert(rest[j] == args[j + k]);
            if j + 1 < rest.len() {
                assert(rest[j + 1] == args[j + 1 + k]);
            }
        }
        lemma_add_refusal(after_front(w, args), rest, i - k);
    }
}

/// An `add` is refused for the first of its words that is not in order: an option
/// without a value or with one that it cannot have, or an unknown flag, which is
/// named.
pub proof fn law_add_is_refused(args: Seq<Seq<char>>, i: int)
    requires
        0 <= i < args.len(),
        stands(args, i),
        !word_in_order(args, i),
        forall|j: int| 0 <= j < i && #[trigger] stands(args, j) ==> word_in_order(args, j),
    ensures
        add_of(args) == Err::<AddView, CliFault>(
            if args[i] == "--period"@ {
                if i + 1 < args.len() {
                    period_named(args[i + 1])->Err_0
                } else {
                    CliFault::Usage("--period needs a value"@)
                }
            } else if args[i] == "--digits"@ {
                if i + 1 < args.len() {
                    digits_named(args[i + 1])->Err_0
                } else {
                    CliFault::Usage("--digits needs a value"@)
                }
            } else {
                CliFault::Usage("unknown flag for add: "@ + args[i])
            },
        ),
{
    lemma_add_refusal(no_add_words(), args, i);
}

/// The tag is `[A]`, put behind the whole issuer, where it is asked for and stands
/// nowhere in the issuer yet; else the issuer is left as it is.
pub proof fn law_tag_is_appended(issuer: Seq<char>)
    ensures
        AUTO_TAG@ == seq!['[', 'A', ']'],
        text::occurs(issuer, seq!['[', 'A', ']']) ==> tagged_issuer(issuer, true) == issuer,
        !text::occurs(issuer, seq!['[', 'A', ']']) ==> tagged_issuer(issuer, true) == issuer + seq![
            '[',
            'A',
            ']',
        ],
        tagged_issuer(issuer, false) == issuer,
{
    reveal_strlit("[A]");
    assert(AUTO_TAG@ == seq!['[', 'A', ']']);
}

/// What is written for an `add`, byte by byte: a TOTP entry with the algorithm, the
/// step, the digits and the button flag that were asked for, the issuer and the
/// account in this order, and the seed, all of them whole.
pub proof fn law_add_is_written(w: WriteEntry<'_>, a: AddView, seed: Seq<u8>)
    requires
        is_write_for(w, a, seed),
        w.check() is Ok,
    ensures
        ({
            let p = w.payload();
            let n = a.issuer.len() as int;
            let m = a.account.len() as int;
            &&& p.len() == 9 + n + m + seed.len()
            &&& p[0] == 1
            &&& p[1] == (if a.sha256 {
                0xC2u8
            } else {
                0xC1u8
            })
            &&& p[2] * 256 + p[3] == a.period
            &&& p[4] == a.digits
            &&& p[5] == (if a.touch {
                1u8
            } else {
                0u8
            })
            &&& p[6] == n
            &&& forall|i: int| 0 <= i < n ==> p[7 + i] == (#[trigger] a.issuer[i]) as u8
            &&& p[7 + n] == m
            &&& forall|i: int| 0 <= i < m ==> p[8 + n + i] == (#[trigger] a.account[i]) as u8
            &&& p[8 + n + m] == seed.len()
            &&& forall|i: int| 0 <= i < seed.len() ==> p[9 + n + m + i] == #[trigger] seed[i]
        }),
{
    entry::law_write_layout(w);
}

/// Every command has its words, and its arguments are handed on as they stand: the
/// issuer first and the account second. A command with the wrong number of
/// arguments, an erase that is not confirmed and a word that is no command are
/// refused.
pub proof fn law_commands(issuer: Seq<char>, account: Seq<char>, rest: Seq<Seq<char>>)
    ensures
        command_of(seq![]) == Ok::<CommandView, CliFault>(CommandView::Help),
        command_of(seq!["help"@] + rest) == Ok::<CommandView, CliFault>(CommandView::Help),
        command_of(seq!["--help"@] + rest) == Ok::<CommandView, CliFault>(CommandView::Help),
        command_of(seq!["-h"@] + rest) == Ok::<CommandView, CliFault>(CommandView::Help),
        command_of(seq!["info"@] + rest) == Ok::<CommandView, CliFault>(CommandView::Info),
        command_of(seq!["readers"@] + rest) == Ok::<CommandView, CliFault>(CommandView::Readers),
        command_of(seq!["list"@] + rest) == Ok::<CommandView, CliFault>(CommandView::List),
        command_of(seq!["code"@, issuer, account]) == Ok::<CommandView, CliFault>(
            CommandView::Code { issuer, account },
        ),
        rest.len() != 2 ==> command_of(seq!["code"@] + rest) == Err::<CommandView, CliFault>(
            CliFault::Usage("code"@ + " needs <issuer> <account>"@),
        ),
        add_of(rest) matches Ok(a) ==> command_of(seq!["add"@] + rest) == Ok::<
            CommandView,
            CliFault,
        >(CommandView::Add(a)),
        add_of(rest) matches Err(e) ==> command_of(seq!["add"@] + rest) == Err::<
            CommandView,
            CliFault,
        >(e),
        command_of(seq!["delete"@, issuer, account]) == Ok::<CommandView, CliFault>(
            CommandView::Delete { issuer, account },
        ),
        command_of(seq!["del"@, issuer, account]) == Ok::<CommandView, CliFault>(
            CommandView::Delete { issuer, account },
        ),
        command_of(seq!["rm"@, issuer, account]) == Ok::<CommandView, CliFault>(
            CommandView::Delete { issuer, account },
        ),
        rest.len() != 2 ==> {
            let e = Err::<CommandView, CliFault>(
                CliFault::Usage("delete"@ + " needs <issuer> <account>"@),
            );
            command_of(seq!["delete"@] + rest) == e && command_of(seq!["del"@] + rest) == e
                && command_of(seq!["rm"@] + rest) == e
        },
        rest.contains("--yes"@) ==> command_of(seq!["erase"@] + rest) == Ok::<CommandView, CliFault>(
            CommandView::Erase,
        ),
        !rest.contains("--yes"@) ==> command_of(seq!["erase"@] + rest) == Err::<
            CommandView,
            CliFault,
        >(CliFault::Usage("erase wipes ALL profiles on the key; pass --yes to confirm"@)),
{
    lemma_commands_differ();
    lemma_command_rest("help"@, rest);
    lemma_command_rest("--help"@, rest);
    lemma_command_rest("-h"@, rest);
    lemma_command_rest("info"@, rest);
    lemma_command_rest("readers"@, rest);
    lemma_command_rest("list"@, rest);
    lemma_command_rest("code"@, rest);
    lemma_command_rest("add"@, rest);
    lemma_command_rest("delete"@, rest);
    lemma_command_rest("del"@, rest);
    lemma_command_rest("rm"@, rest);
    lemma_command_rest("erase"@, rest);
}

/// A word that is no command is refused by its name.
pub proof fn law_unknown_command(cmd: Seq<char>, rest: Seq<Seq<char>>)
    requires
        cmd != "help"@ && cmd != "--help"@ && cmd != "-h"@ && cmd != "info"@ && cmd != "readers"@,
        cmd != "list"@ && cmd != "code"@ && cmd != "add"@ && cmd != "delete"@ && cmd != "del"@,
        cmd != "rm"@ && cmd != "erase"@,
    ensures
        command_of(seq![cmd] + rest) == Err::<CommandView, CliFault>(
            CliFault::Usage("unknown command: "@ + cmd),
        ),
{
    lemma_command_rest(cmd, rest);
}

proof fn lemma_command_rest(cmd: Seq<char>, rest: Seq<Seq<char>>)
    ensures
        (seq![cmd] + rest).len() == 1 + rest.len(),
        (seq![cmd] + rest)[0] == cmd,
        (seq![cmd] + rest).skip(1) == rest,
{
    assert((seq![cmd] + rest).skip(1) == rest);
}

proof fn lemma_commands_differ()
    ensures
        "help"@ != "info"@ && "--help"@ != "info"@ && "-h"@ != "info"@,
        "readers"@ != "help"@ && "readers"@ != "--help"@ && "readers"@ != "-h"@ && "readers"@
            != "info"@,
        "list"@ != "help"@ && "list"@ != "--help"@ && "list"@ != "-h"@ && "list"@ != "info"@
            && "list"@ != "readers"@,
        "code"@ != "help"@ && "code"@ != "--help"@ && "code"@ != "-h"@ && "code"@ != "info"@
            && "code"@ != "readers"@ && "code"@ != "list"@,
        "add"@ != "help"@ && "add"@ != "--help"@ && "add"@ != "-h"@ && "add"@ != "info"@ && "add"@
            != "readers"@ && "add"@ != "list"@ && "add"@ != "code"@,
        "delete"@ != "help"@ && "delete"@ != "--help"@ && "delete"@ != "-h"@ && "delete"@ != "info"@
            && "delete"@ != "readers"@ && "delete"@ != "list"@ && "delete"@ != "code"@ && "delete"@
            != "add"@,
        "del"@ != "help"@ && "del"@ != "--help"@ && "del"@ != "-h"@ && "del"@ != "info"@ && "del"@
            != "readers"@ && "del"@ != "list"@ && "del"@ != "code"@ && "del"@ != "add"@,
        "rm"@ != "help"@ && "rm"@ != "--help"@ && "rm"@ != "-h"@ && "rm"@ != "info"@ && "rm"@
            != "readers"@ && "rm"@ != "list"@ && "rm"@ != "code"@ && "rm"@ != "add"@,
        "erase"@ != "help"@ && "erase"@ != "--help"@ && "erase"@ != "-h"@ && "erase"@ != "info"@
            && "erase"@ != "readers"@ && "erase"@ != "list"@ && "erase"@ != "code"@ && "erase"@
            != "add"@ && "erase"@ != "delete"@ && "erase"@ != "del"@ && "erase"@ != "rm"@,
{
    reveal_strlit("help");
    reveal_strlit("--help");
    reveal_strlit("-h");
    reveal_strlit("info");
    reveal_strlit("readers");
    reveal_strlit("list");
    reveal_strlit("code");
    reveal_strlit("add");
    reveal_strlit("delete");
    reveal_strlit("del");
    reveal_strlit("rm");
    reveal_strlit("erase");
    assert("help"@[0] == 'h' && "--help"@[0] == '-' && "-h"@[0] == '-' && "info"@[0] == 'i'
        && "list"@[0] == 'l' && "code"@[0] == 'c' && "add"@[0] == 'a' && "delete"@[0] == 'd'
        && "del"@[0] == 'd' && "erase"@[0] == 'e');
    assert("readers"@[0] == 'r' && "readers"@.len() == 7 && "rm"@[0] == 'r' && "rm"@.len() == 2);
}

/// The user is told to touch the key for a code and for an erase, over USB-HID, and
/// never else.
pub proof fn law_touch_prompts(c: CommandView, over_pcsc: bool)
    ensures
        touch_prompt_of(c, over_pcsc) is Some <==> !over_pcsc && (c is Code || c is Erase),
        !over_pcsc && c is Code ==> touch_prompt_of(c, over_pcsc) == Some(
            "touch your key to release the code..."@,
        ),
        !over_pcsc && c is Erase ==> touch_prompt_of(c, over_pcsc) == Some(
            "touch your key to confirm the erase..."@,
        ),
{
}

/// What `info` says: how the key is connected, its serial in hexadecimal where it is
/// known, and of the device-info block whether the key does TOTP, has NFC and has a
/// PIN, each by its own bit; or why there is no block.
pub proof fn law_info_lines(
    over_pcsc: bool,
    serial: Option<Vec<u8>>,
    info: Result<DeviceInfo, String>,
)
    ensures
        ({
            let lines = info_lines_of(over_pcsc, serial, info);
            &&& lines[0] == "Token2 FIDO2 key"@
            &&& over_pcsc ==> lines[1] == "  transport : "@ + "NFC / PC-SC"@
            &&& !over_pcsc ==> lines[1] == "  transport : "@ + "USB-HID"@
            &&& serial matches Some(x) ==> lines[2] == "  serial    : "@ + proto::hex_text(x@)
            &&& serial is None ==> lines[2] == "  serial    : (unavailable on this model/reader)"@
            &&& info matches Err(e) ==> lines.len() == 4 && lines[3]
                == "  device-info unavailable: "@ + e@
            &&& info matches Ok(d) ==> {
                &&& d.raw_len < 2 ==> lines.len() == 4 && lines[3]
                    == "  TOTP      : (device returned a short config block; unknown)"@
                &&& d.raw_len >= 2 ==> {
                    &&& lines.len() == 6
                    &&& d.device_extension % 2 == 1 ==> lines[3] == "  TOTP      : "@ + "supported"@
                    &&& d.device_extension % 2 == 0 ==> lines[3] == "  TOTP      : "@
                        + "NOT supported (first-gen key — HOTP only)"@
                    &&& d.device_config / 16 % 2 == 1 ==> lines[4] == "  NFC       : "@ + "yes"@
                    &&& d.device_config / 16 % 2 == 0 ==> lines[4] == "  NFC       : "@ + "no"@
                    &&& d.device_config / 2 % 2 == 1 ==> lines[5] == "  FIDO PIN  : "@ + "yes"@
                    &&& d.device_config / 2 % 2 == 0 ==> lines[5] == "  FIDO PIN  : "@ + "no"@
                }
            }
        }),
        yes_or_no(true) == "yes"@ && yes_or_no(false) == "no"@,
{
    if let Ok(d) = info {
        let x = d.device_extension;
        let c = d.device_config;
        assert((x & 0x01 != 0 <==> x % 2 == 1) && (c & 0x10 != 0 <==> c / 16 % 2 == 1) && (c & 0x02
            != 0 <==> c / 2 % 2 == 1)) by (bit_vector);
    }
}

/// What `readers` says: how many readers there are, and of each in order its name
/// and, where there is a key on it, the key's serial.
pub proof fn law_readers_lines(readers: Seq<ReaderStatus>, i: int)
    ensures
        ({
            let lines = readers_lines_of(readers);
            &&& readers.len() == 0 ==> lines == seq!["no PC/SC readers connected"@]
            &&& readers.len() > 0 ==> {
                let a = "PC/SC readers ("@;
                let z = "):"@;
                &&& lines.len() == 1 + readers.len()
                &&& lines[0].take(a.len() as int) == a
                &&& lines[0].skip(lines[0].len() - z.len()) == z
                &&& text::number(
                    lines[0].subrange(a.len() as int, lines[0].len() - z.len()),
                    10,
                ) == Some(readers.len())
                &&& 0 <= i < readers.len() ==> {
                    let r = readers[i];
                    &&& r.serial_hex matches Some(serial) ==> lines[1 + i] == "  [Token2 FIDO] "@
                        + r.reader_name@ + "  serial="@ + serial@
                    &&& r.serial_hex is None ==> lines[1 + i] == "  [other/empty] "@
                        + r.reader_name@
                }
            }
        }),
{
    let lines = readers_lines_of(readers);
    if readers.len() > 0 {
        let a = "PC/SC readers ("@;
        let z = "):"@;
        let d = text::decimal_digits(readers.len());
        text::law_decimal(readers.len());
        assert(lines[0] == a + d + z);
        assert(lines[0].take(a.len() as int) == a);
        assert(lines[0].skip(lines[0].len() - z.len()) == z);
        assert(lines[0].subrange(a.len() as int, lines[0].len() - z.len()) == d);
    }
}

/// What `list` says of an entry: its type and its name at the front, its code, or
/// that the key must be touched, at the end, both whole, and between them whether it
/// is the Auto-OTP entry and whether it asks for a touch.
pub proof fn law_entry_line(e: EntryView)
    ensures
        ({
            let line = entry_line_of(e);
            let kind = if e.otp_type is Totp {
                "TOTP"@
            } else {
                "HOTP"@
            };
            let front = "  "@ + kind + " "@ + entry::profile_label(e.app_name, e.account_name);
            let code = match e.code {
                Some(code) => code,
                None => "(touch key to view)"@,
            };
            let end = "  ->  "@ + code;
            let marks = line.subrange(front.len() as int, line.len() - end.len());
            &&& line.len() >= front.len() + end.len()
            &&& line.take(front.len() as int) == front
            &&& line.skip(line.len() - end.len()) == end
            &&& e.is_auto() && e.button_required ==> marks == " (Auto-OTP)"@ + " [touch]"@
            &&& e.is_auto() && !e.button_required ==> marks == " (Auto-OTP)"@
            &&& !e.is_auto() && e.button_required ==> marks == " [touch]"@
            &&& !e.is_auto() && !e.button_required ==> marks.len() == 0
        }),
{
    let line = entry_line_of(e);
    let front = "  "@ + e.otp_type.name() + " "@ + e.label();
    let code = match e.code {
        Some(code) => code,
        None => "(touch key to view)"@,
    };
    let end = "  ->  "@ + code;
    let one = if e.is_auto() {
        " (Auto-OTP)"@
    } else {
        seq![]
    };
    let two = if e.button_required {
        " [touch]"@
    } else {
        seq![]
    };
    assert(line == front + (one + two) + end);
    assert(line.take(front.len() as int) == front);
    assert(line.skip(line.len() - end.len()) == end);
    let marks = line.subrange(front.len() as int, line.len() - end.len());
    assert(marks == one + two);
    assert(!e.is_auto() ==> marks == two);
    assert(!e.button_required ==> marks == one);
}

/// What `list` says: how many entries there are, and each of them in order.
pub proof fn law_list_lines(entries: Seq<EntryView>, i: int)
    ensures
        ({
            let lines = list_lines_of(entries);
            &&& entries.len() == 0 ==> lines == seq!["no profiles stored on the key"@]
            &&& entries.len() > 0 ==> {
                let z = " profile(s):"@;
                &&& lines.len() == 1 + entries.len()
                &&& lines[0].skip(lines[0].len() - z.len()) == z
                &&& text::number(lines[0].take(lines[0].len() - z.len()), 10) == Some(entries.len())
                &&& 0 <= i < entries.len() ==> lines[1 + i] == entry_line_of(entries[i])
            }
        }),
{
    let lines = list_lines_of(entries);
    if entries.len() > 0 {
        let z = " profile(s):"@;
        let d = text::decimal_digits(entries.len());
        text::law_decimal(entries.len());
        assert(lines[0] == d + z);
        assert(lines[0].skip(lines[0].len() - z.len()) == z);
        assert(lines[0].take(lines[0].len() - z.len()) == d);
    }
}

} // verus!
