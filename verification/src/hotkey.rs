//! Global Auto-OTP hotkey: a system-wide key combo that reads the live code of
//! the `[A]`-tagged profile and types it into whatever window has focus.
//!
//! This module decides: which combination is valid and how it is called, what to
//! do next after each event and each reply of the key, and which keystrokes to
//! inject. Registering the combination, talking to the key and injecting the
//! keystrokes is the desktop app's part.

use crate::entry::Entry;
use crate::text;
use vstd::prelude::*;

verus! {

// --- keys and bindings ---------------------------------------------------------

/// A key of the keyboard, by the name of its code (e.g. `KeyT`).
#[derive(Debug, Clone, Copy, PartialEq, Eq)]
pub struct KeyCode {
    pub name: &'static str,
}

/// A modifier key.
#[derive(Debug, Clone, Copy, PartialEq, Eq, Structural)]
pub enum Modifier {
    Control,
    Shift,
    Alt,
    /// Super/Windows/Command key.
    Meta,
}

/// The desktop that the app runs on, as far as it names keys differently.
#[derive(Debug, Clone, Copy, PartialEq, Eq, Structural)]
pub enum Platform {
    MacOs,
    Windows,
    Other,
}

/// A configurable hotkey binding: a set of modifiers plus a main key.
#[derive(Debug, Clone, Copy, PartialEq, Eq)]
pub struct HotkeyBinding {
    pub ctrl: bool,
    pub shift: bool,
    pub alt: bool,
    /// Super/Windows/Command key.
    pub meta: bool,
    pub key: KeyCode,
}

impl Default for HotkeyBinding {
    fn default() -> (b: Self)
        ensures
            b.ctrl,
            !b.shift,
            b.alt,
            !b.meta,
            b.key.name@ == "KeyA"@,
    {
        // The supported family is Left Ctrl + Left Alt + a letter (matching the
        // Token2 device-side Auto-OTP convention). The letter set is restricted
        // to ones that don't collide with common system/app shortcuts.
        HotkeyBinding {
            ctrl: true,
            shift: false,
            alt: true,
            meta: false,
            key: KeyCode { name: "KeyA" },
        }
    }
}

/// The platform's name for the Super/Meta modifier.
pub open spec fn super_name(platform: Platform) -> Seq<char> {
    match platform {
        Platform::MacOs => "Cmd"@,
        Platform::Windows => "Win"@,
        Platform::Other => "Super"@,
    }
}

/// Platform-appropriate name for the Super/Meta modifier.
pub fn super_label(platform: Platform) -> (s: &'static str)
    ensures
        s@ == super_name(platform),
{
    match platform {
        Platform::MacOs => "Cmd",
        Platform::Windows => "Win",
        Platform::Other => "Super",
    }
}

/// `parts` with ` + ` between them.
pub open spec fn joined(parts: Seq<Seq<char>>) -> Seq<char>
    decreases parts.len(),
{
    if parts.len() == 0 {
        seq![]
    } else if parts.len() == 1 {
        parts[0]
    } else {
        joined(parts.drop_last()) + " + "@ + parts.last()
    }
}

/// One element where the condition holds, and none where it does not.
pub open spec fn only_if<T>(condition: bool, x: T) -> Seq<T> {
    if condition {
        seq![x]
    } else {
        seq![]
    }
}

impl HotkeyBinding {
    /// The modifiers that are held.
    pub open spec fn held(self) -> Seq<Modifier> {
        only_if(self.ctrl, Modifier::Control) + only_if(self.shift, Modifier::Shift) + only_if(
            self.alt,
            Modifier::Alt,
        ) + only_if(self.meta, Modifier::Meta)
    }

    /// The modifiers that are held.
    pub fn modifiers(&self) -> (m: Vec<Modifier>)
        ensures
            m@ == self.held(),
    {
        let mut m: Vec<Modifier> = Vec::new();
        if self.ctrl {
            m.push(Modifier::Control);
        }
        if self.shift {
            m.push(Modifier::Shift);
        }
        if self.alt {
            m.push(Modifier::Alt);
        }
        if self.meta {
            m.push(Modifier::Meta);
        }
        assert(m@ == self.held());
        m
    }

    /// True if at least one modifier is held — global hotkeys without a modifier
    /// are a bad idea (they'd swallow the bare key everywhere).
    pub fn has_modifier(&self) -> (r: bool)
        ensures
            r == (self.ctrl || self.shift || self.alt || self.meta),
    {
        self.ctrl || self.shift || self.alt || self.meta
    }

    /// The parts of the binding's label.
    pub open spec fn label_parts(self, platform: Platform) -> Seq<Seq<char>> {
        only_if(self.ctrl, "Ctrl"@) + only_if(self.shift, "Shift"@) + only_if(self.alt, "Alt"@)
            + only_if(self.meta, super_name(platform)) + seq![label_of_key(self.key.name@)]
    }

    /// Human-readable label, e.g. "Ctrl + Alt + T".
    pub fn label(&self, platform: Platform) -> (s: String)
        ensures
            s@ == joined(self.label_parts(platform)),
    {
        let mut s = String::new();
        let mut any = false;
        let ghost mut parts: Seq<Seq<char>> = seq![];
        if self.ctrl {
            push_part(&mut s, &mut any, "Ctrl", Ghost(parts));
            proof {
                parts = parts.push("Ctrl"@);
            }
        }
        if self.shift {
            push_part(&mut s, &mut any, "Shift", Ghost(parts));
            proof {
                parts = parts.push("Shift"@);
            }
        }
        if self.alt {
            push_part(&mut s, &mut any, "Alt", Ghost(parts));
            proof {
                parts = parts.push("Alt"@);
            }
        }
        if self.meta {
            push_part(&mut s, &mut any, super_label(platform), Ghost(parts));
            proof {
                parts = parts.push(super_name(platform));
            }
        }
        let key = key_label(self.key);
        push_part(&mut s, &mut any, key.as_str(), Ghost(parts));
        assert(parts.push(key@) == self.label_parts(platform));
        s
    }
}

/// Adds one part to a label that is put together part by part.
fn push_part(s: &mut String, any: &mut bool, part: &str, Ghost(parts): Ghost<Seq<Seq<char>>>)
    requires
        old(s)@ == joined(parts),
        *old(any) == (parts.len() > 0),
    ensures
        final(s)@ == joined(parts.push(part@)),
        *final(any),
{
    proof {
        assert(parts.push(part@).drop_last() == parts);
    }
    if *any {
        text::append(s, " + ");
    } else {
        assert(old(s)@ + part@ == part@);
    }
    text::append(s, part);
    *any = true;
}

// --- the keys on offer ---------------------------------------------------------

/// The letters on offer, by their index on the device.
pub open spec fn letters() -> Seq<char> {
    seq!['A', 'B', 'C', 'F', 'N', 'Q', 'S', 'V', 'X', 'Z']
}

/// The name of a letter's key code.
pub open spec fn letter_key(letter: char) -> Seq<char> {
    seq!['K', 'e', 'y', letter]
}

/// Whether a key code's name is that of a letter on offer.
pub open spec fn is_selectable(name: Seq<char>) -> bool {
    exists|i: int| 0 <= i < letters().len() && name == letter_key(#[trigger] letters()[i])
}

/// The keys offered in the settings picker, with display labels. The hotkey is
/// always Ctrl+Alt + one of these letters — the exact set the Token2 device
/// supports for Auto-OTP, chosen to avoid clashing with common shortcuts.
pub fn selectable_keys() -> (keys: Vec<(KeyCode, &'static str)>)
    ensures
        keys@.len() == letters().len(),
        forall|i: int|
            0 <= i < letters().len() ==> (#[trigger] keys@[i]).0.name@ == letter_key(letters()[i])
                && keys@[i].1@ == seq![letters()[i]],
{
    let mut keys: Vec<(KeyCode, &'static str)> = Vec::new();
    keys.push((KeyCode { name: "KeyA" }, "A"));
    keys.push((KeyCode { name: "KeyB" }, "B"));
    keys.push((KeyCode { name: "KeyC" }, "C"));
    keys.push((KeyCode { name: "KeyF" }, "F"));
    keys.push((KeyCode { name: "KeyN" }, "N"));
    keys.push((KeyCode { name: "KeyQ" }, "Q"));
    keys.push((KeyCode { name: "KeyS" }, "S"));
    keys.push((KeyCode { name: "KeyV" }, "V"));
    keys.push((KeyCode { name: "KeyX" }, "X"));
    keys.push((KeyCode { name: "KeyZ" }, "Z"));
    proof {
        reveal_strlit("KeyA");
        reveal_strlit("KeyB");
        reveal_strlit("KeyC");
        reveal_strlit("KeyF");
        reveal_strlit("KeyN");
        reveal_strlit("KeyQ");
        reveal_strlit("KeyS");
        reveal_strlit("KeyV");
        reveal_strlit("KeyX");
        reveal_strlit("KeyZ");
        reveal_strlit("A");
        reveal_strlit("B");
        reveal_strlit("C");
        reveal_strlit("F");
        reveal_strlit("N");
        reveal_strlit("Q");
        reveal_strlit("S");
        reveal_strlit("V");
        reveal_strlit("X");
        reveal_strlit("Z");
        assert("KeyA"@ =~= letter_key('A') && "A"@ =~= seq!['A']);
        assert("KeyB"@ =~= letter_key('B') && "B"@ =~= seq!['B']);
        assert("KeyC"@ =~= letter_key('C') && "C"@ =~= seq!['C']);
        assert("KeyF"@ =~= letter_key('F') && "F"@ =~= seq!['F']);
        assert("KeyN"@ =~= letter_key('N') && "N"@ =~= seq!['N']);
        assert("KeyQ"@ =~= letter_key('Q') && "Q"@ =~= seq!['Q']);
        assert("KeyS"@ =~= letter_key('S') && "S"@ =~= seq!['S']);
        assert("KeyV"@ =~= letter_key('V') && "V"@ =~= seq!['V']);
        assert("KeyX"@ =~= letter_key('X') && "X"@ =~= seq!['X']);
        assert("KeyZ"@ =~= letter_key('Z') && "Z"@ =~= seq!['Z']);
    }
    keys
}

/// Whether a key code's name is that of a letter's key, on offer or not.
pub open spec fn is_letter_key(name: Seq<char>) -> bool {
    name.len() == 4 && name == letter_key(name[3]) && 'A' <= name[3] <= 'Z'
}

/// How a key is called: a letter's key by the letter, any other key by the name of
/// its code.
pub open spec fn label_of_key(name: Seq<char>) -> Seq<char> {
    if is_letter_key(name) {
        seq![name[3]]
    } else {
        name
    }
}

/// How a key is called.
pub fn key_label(code: KeyCode) -> (s: String)
    ensures
        s@ == label_of_key(code.name@),
{
    let name = text::to_chars(code.name);
    if name.len() == 4 && name[0] == 'K' && name[1] == 'e' && name[2] == 'y' && 'A' <= name[3]
        && name[3] <= 'Z' {
        assert(code.name@ == letter_key(name@[3]));
        let mut s = String::new();
        s.push(name[3]);
        s
    } else {
        proof {
            if is_letter_key(code.name@) {
                let letter = code.name@[3];
                assert(letter_key(letter)[0] == 'K' && letter_key(letter)[1] == 'e' && letter_key(
                    letter,
                )[2] == 'y');
            }
        }
        text::owned(code.name)
    }
}

/// A stable, persistable name for a key code, e.g. "KeyT".
pub fn key_name(code: KeyCode) -> (s: String)
    ensures
        s@ == code.name@,
{
    text::owned(code.name)
}

/// The key that a name stands for: the letter on offer of that name, else the
/// default key.
pub open spec fn key_named(name: Seq<char>) -> Seq<char> {
    if is_selectable(name) {
        name
    } else {
        "KeyA"@
    }
}

/// Parse a key name produced by [`key_name`] back to a key code; falls back to the
/// default key when unrecognised.
pub fn key_from_name(name: &str) -> (code: KeyCode)
    ensures
        code.name@ == key_named(name@),
{
    let keys = selectable_keys();
    for i in 0..keys.len()
        invariant
            keys@.len() == letters().len(),
            forall|j: int|
                0 <= j < letters().len() ==> (#[trigger] keys@[j]).0.name@ == letter_key(
                    letters()[j],
                ) && keys@[j].1@ == seq![letters()[j]],
            forall|j: int| 0 <= j < i ==> name@ != letter_key(#[trigger] letters()[j]),
    {
        assert(keys@[i as int].0.name@ == letter_key(letters()[i as int]));
        if text::same_text(keys[i].0.name, name) {
            assert(is_selectable(name@));
            return keys[i].0;
        }
    }
    assert(!is_selectable(name@));
    HotkeyBinding::default().key
}

/// The name of a key on offer stands for that key, and whatever a name is, the key
/// it stands for is on offer.
pub proof fn law_key_name_round_trip(name: Seq<char>)
    ensures
        is_selectable(name) ==> key_named(name) == name,
        is_selectable(key_named(name)),
{
    reveal_strlit("KeyA");
    assert("KeyA"@ == letter_key(letters()[0]));
}

/// A key on offer is called by its letter, as the picker shows it.
pub proof fn law_offered_keys_are_called_by_letter(i: int)
    requires
        0 <= i < letters().len(),
    ensures
        is_selectable(letter_key(letters()[i])),
        label_of_key(letter_key(letters()[i])) == seq![letters()[i]],
{
    assert(letter_key(letters()[i])[3] == letters()[i]);
}

// --- registration and polling --------------------------------------------------

/// Why a binding cannot be registered as it stands, if anything is wrong with it.
pub fn check_binding(binding: &HotkeyBinding) -> (r: Result<(), String>)
    ensures
        match r {
            Ok(_) => binding.ctrl || binding.shift || binding.alt || binding.meta,
            Err(e) => !(binding.ctrl || binding.shift || binding.alt || binding.meta) && e@
                == "choose at least one modifier (Ctrl / Alt / Shift / Super)"@,
        },
{
    if !binding.has_modifier() {
        return Err(text::owned("choose at least one modifier (Ctrl / Alt / Shift / Super)"));
    }
    Ok(())
}

/// What is said of a binding that the system refused to register.
pub fn registration_error(
    binding: &HotkeyBinding,
    platform: Platform,
    reason: &str,
) -> (s: String)
    ensures
        s@ == "could not register "@ + joined(binding.label_parts(platform))
            + " — another app may already own it; try a different combination ("@ + reason@
            + ")"@,
{
    let mut s = text::owned("could not register ");
    text::append(&mut s, binding.label(platform).as_str());
    text::append(
        &mut s,
        " — another app may already own it; try a different combination (",
    );
    text::append(&mut s, reason);
    text::append(&mut s, ")");
    s
}

/// What waiting for a hotkey event brought.
#[derive(Debug, Clone, Copy, PartialEq, Eq, Structural)]
pub enum PollEvent {
    /// A registered combination was pressed or released.
    Key { id: u32, pressed: bool },
    /// Nothing happened for a while.
    Timeout,
    /// No more events will come.
    Disconnected,
}

/// What the poll loop does next.
#[derive(Debug, Clone, Copy, PartialEq, Eq, Structural)]
pub enum PollAction {
    /// Read the code and type it, then wait on.
    TypeCode,
    /// Wait on.
    Wait,
    /// End the loop.
    Stop,
}

/// What the poll loop of the combination `hotkey_id` does after an event. Only the
/// press of that combination types a code.
pub fn on_poll(event: PollEvent, hotkey_id: u32) -> (action: PollAction)
    ensures
        action == (match event {
            PollEvent::Key { id, pressed } => if id == hotkey_id && pressed {
                PollAction::TypeCode
            } else {
                PollAction::Wait
            },
            PollEvent::Timeout => PollAction::Wait,
            PollEvent::Disconnected => PollAction::Stop,
        }),
{
    match event {
        PollEvent::Key { id, pressed } => {
            if id == hotkey_id && pressed {
                PollAction::TypeCode
            } else {
                PollAction::Wait
            }
        },
        PollEvent::Timeout => PollAction::Wait,
        PollEvent::Disconnected => PollAction::Stop,
    }
}

// --- reading and typing --------------------------------------------------------

/// Outcome of a hotkey-driven type attempt, for status feedback.
#[derive(Debug, Clone, PartialEq, Eq)]
pub enum HotkeyOutcome {
    Typed { label: String },
    NoAutoProfile,
    Error(String),
}

/// An outcome with its texts as characters.
pub enum OutcomeView {
    Typed { label: Seq<char> },
    NoAutoProfile,
    Error(Seq<char>),
}

impl View for HotkeyOutcome {
    type V = OutcomeView;

    open spec fn view(&self) -> OutcomeView {
        match *self {
            HotkeyOutcome::Typed { label } => OutcomeView::Typed { label: label@ },
            HotkeyOutcome::NoAutoProfile => OutcomeView::NoAutoProfile,
            HotkeyOutcome::Error(e) => OutcomeView::Error(e@),
        }
    }
}

/// What to do next in a type attempt, which begins with opening the key.
#[derive(Debug, Clone, PartialEq, Eq)]
pub enum TypeAction {
    /// List the entries on the key.
    List,
    /// Read one entry (the user must touch the key).
    Read { app_name: String, account_name: String },
    /// Type a code.
    Type { code: String },
    /// The attempt is over.
    Done(HotkeyOutcome),
}

/// An action with its texts as characters.
pub enum TypeActionView {
    List,
    Read { app_name: Seq<char>, account_name: Seq<char> },
    Type { code: Seq<char> },
    Done(OutcomeView),
}

impl View for TypeAction {
    type V = TypeActionView;

    open spec fn view(&self) -> TypeActionView {
        match *self {
            TypeAction::List => TypeActionView::List,
            TypeAction::Read { app_name, account_name } => TypeActionView::Read {
                app_name: app_name@,
                account_name: account_name@,
            },
            TypeAction::Type { code } => TypeActionView::Type { code: code@ },
            TypeAction::Done(outcome) => TypeActionView::Done(outcome@),
        }
    }
}

/// What came of the last action of a type attempt.
#[derive(Debug, Clone, PartialEq, Eq)]
pub enum TypeReply {
    /// The action failed.
    Failed(String),
    /// The key was opened.
    Opened,
    /// The entries on the key were listed.
    Listed(Vec<Entry>),
    /// An entry was read.
    Read(Entry),
    /// The code was typed.
    Typed,
}

/// The position of the first entry that carries the Auto-OTP tag, or the number of
/// entries where none does.
pub open spec fn first_auto(entries: Seq<Entry>) -> nat
    decreases entries.len(),
{
    if entries.len() == 0 || entries[0]@.is_auto() {
        0
    } else {
        1 + first_auto(entries.drop_first())
    }
}

proof fn lemma_first_auto(entries: Seq<Entry>, k: int)
    requires
        0 <= k <= entries.len(),
        forall|i: int| 0 <= i < k ==> !(#[trigger] entries[i])@.is_auto(),
        k < entries.len() ==> entries[k]@.is_auto(),
    ensures
        first_auto(entries) == k,
    decreases k,
{
    if k > 0 {
        assert(!entries[0]@.is_auto());
        let tail = entries.drop_first();
        assert forall|i: int| 0 <= i < k - 1 implies !(#[trigger] tail[i])@.is_auto() by {
            assert(tail[i] == entries[i + 1]);
        }
        lemma_first_auto(tail, k - 1);
    }
}

/// The first entry that carries the Auto-OTP tag.
pub fn find_auto(entries: &[Entry]) -> (r: Option<usize>)
    ensures
        match r {
            Some(i) => i < entries@.len() && i == first_auto(entries@)
                && entries@[i as int]@.is_auto(),
            None => first_auto(entries@) == entries@.len(),
        },
{
    for i in 0..entries.len()
        invariant
            forall|j: int| 0 <= j < i ==> !(#[trigger] entries@[j])@.is_auto(),
    {
        if entries[i].is_auto() {
            proof {
                lemma_first_auto(entries@, i as int);
            }
            return Some(i);
        }
    }
    proof {
        lemma_first_auto(entries@, entries@.len() as int);
    }
    None
}

/// What is known in a type attempt: how the profile whose code is to be typed is
/// called, once it was found.
pub struct AutoType {
    pub label: String,
}

/// The next action after a reply, and how the profile is called from then on.
pub open spec fn next_action(label: Seq<char>, reply: TypeReply) -> (Seq<char>, TypeActionView) {
    match reply {
        TypeReply::Failed(e) => (label, TypeActionView::Done(OutcomeView::Error(e@))),
        TypeReply::Opened => (label, TypeActionView::List),
        TypeReply::Listed(entries) => if first_auto(entries@) < entries@.len() {
            let target = entries@[first_auto(entries@) as int]@;
            (
                target.label(),
                match target.code {
                    Some(code) => TypeActionView::Type { code },
                    None => TypeActionView::Read {
                        app_name: target.app_name,
                        account_name: target.account_name,
                    },
                },
            )
        } else {
            (label, TypeActionView::Done(OutcomeView::NoAutoProfile))
        },
        TypeReply::Read(entry) => (
            label,
            match entry@.code {
                Some(code) => TypeActionView::Type { code },
                None => TypeActionView::Done(OutcomeView::Error("key returned no code"@)),
            },
        ),
        TypeReply::Typed => (label, TypeActionView::Done(OutcomeView::Typed { label })),
    }
}

impl AutoType {
    pub fn new() -> (t: AutoType)
        ensures
            t.label@ == Seq::<char>::empty(),
    {
        AutoType { label: String::new() }
    }

    /// Find the `[A]` profile, read its live code, and type it: what to do after
    /// the reply to the last action.
    pub fn step(&mut self, reply: TypeReply) -> (action: TypeAction)
        ensures
            (final(self).label@, action@) == next_action(old(self).label@, reply),
    {
        match reply {
            TypeReply::Failed(e) => TypeAction::Done(HotkeyOutcome::Error(e)),
            TypeReply::Opened => TypeAction::List,
            TypeReply::Listed(entries) => {
                // Locate the Auto-OTP profile by its [A] issuer tag.
                match find_auto(entries.as_slice()) {
                    None => TypeAction::Done(HotkeyOutcome::NoAutoProfile),
                    Some(i) => {
                        let target = &entries[i];
                        self.label = target.label();
                        // Prefer the code the listing already returned (TOTP, no
                        // touch). For a touch-required entry, do a targeted read
                        // (the user must touch the key).
                        match &target.code {
                            Some(code) => TypeAction::Type { code: code.clone() },
                            None => TypeAction::Read {
                                app_name: target.app_name.clone(),
                                account_name: target.account_name.clone(),
                            },
                        }
                    },
                }
            },
            TypeReply::Read(entry) => {
                match entry.code {
                    Some(code) => TypeAction::Type { code },
                    None => TypeAction::Done(
                        HotkeyOutcome::Error(text::owned("key returned no code")),
                    ),
                }
            },
            TypeReply::Typed => TypeAction::Done(
                HotkeyOutcome::Typed { label: text::owned(self.label.as_str()) },
            ),
        }
    }
}

// --- keystrokes ----------------------------------------------------------------

/// One step of injecting a code as keystrokes.
#[derive(Debug, Clone, PartialEq, Eq)]
pub enum KeyStep {
    /// Wait for so many milliseconds.
    Pause(u64),
    /// Let a modifier go.
    Release(Modifier),
    /// Type a text.
    Text(String),
    /// Press and release Enter.
    Enter,
}

/// A step with its text as characters.
pub enum KeyStepView {
    Pause(u64),
    Release(Modifier),
    Text(Seq<char>),
    Enter,
}

impl View for KeyStep {
    type V = KeyStepView;

    open spec fn view(&self) -> KeyStepView {
        match *self {
            KeyStep::Pause(ms) => KeyStepView::Pause(ms),
            KeyStep::Release(m) => KeyStepView::Release(m),
            KeyStep::Text(s) => KeyStepView::Text(s@),
            KeyStep::Enter => KeyStepView::Enter,
        }
    }
}

impl KeyStep {
    /// Whether a failure of the step ends the attempt. That a modifier could not be
    /// released is ignored.
    pub fn failure_matters(&self) -> (r: bool)
        ensures
            r == (self@ is Text || self@ is Enter),
    {
        match self {
            KeyStep::Text(_) => true,
            KeyStep::Enter => true,
            KeyStep::Pause(_) => false,
            KeyStep::Release(_) => false,
        }
    }
}

/// The steps that let all modifiers go.
pub open spec fn releases() -> Seq<KeyStepView> {
    seq![
        KeyStepView::Release(Modifier::Control),
        KeyStepView::Release(Modifier::Alt),
        KeyStepView::Release(Modifier::Shift),
        KeyStepView::Release(Modifier::Meta),
    ]
}

/// The steps that type a code: a short pause, all modifiers let go, the code; and
/// where Enter is to follow, another pause, all modifiers let go again, and Enter.
pub open spec fn keystrokes(code: Seq<char>, append_enter: bool) -> Seq<KeyStepView> {
    seq![KeyStepView::Pause(60)] + releases() + seq![KeyStepView::Text(code)] + (if append_enter {
        seq![KeyStepView::Pause(40)] + releases() + seq![KeyStepView::Enter]
    } else {
        seq![]
    })
}

/// Steps, each with its text as characters.
pub open spec fn step_views(steps: Seq<KeyStep>) -> Seq<KeyStepView> {
    steps.map_values(|s: KeyStep| s@)
}

fn push_releases(steps: &mut Vec<KeyStep>)
    ensures
        step_views(final(steps)@) == step_views(old(steps)@) + releases(),
{
    steps.push(KeyStep::Release(Modifier::Control));
    steps.push(KeyStep::Release(Modifier::Alt));
    steps.push(KeyStep::Release(Modifier::Shift));
    steps.push(KeyStep::Release(Modifier::Meta));
    assert(step_views(steps@) == step_views(old(steps)@) + releases());
}

/// Inject the code as keystrokes into the focused window: the steps to take.
pub fn type_code(code: &str, append_enter: bool) -> (steps: Vec<KeyStep>)
    ensures
        step_views(steps@) == keystrokes(code@, append_enter),
{
    let mut steps: Vec<KeyStep> = Vec::new();
    // Brief pause so the user's physical hotkey keys begin to release before we
    // synthesize input.
    steps.push(KeyStep::Pause(60));
    assert(step_views(steps@) == seq![KeyStepView::Pause(60)]);

    // Explicitly release the hotkey modifiers. When the hotkey is pressed
    // rapidly, the physical Ctrl/Alt/Shift/Meta can still be held while we
    // inject Enter — turning it into Ctrl+Enter / Alt+Enter, which most fields
    // ignore. We force these up first so both the digits and the Enter are
    // unmodified.
    push_releases(&mut steps);

    // Type the digits.
    let ghost before = steps@;
    steps.push(KeyStep::Text(text::owned(code)));
    assert(step_views(steps@) == step_views(before) + seq![KeyStepView::Text(code@)]);

    if append_enter {
        // Let all digit keystrokes land before Enter, and release modifiers
        // again in case the user is still leaning on the hotkey.
        let ghost before = steps@;
        steps.push(KeyStep::Pause(40));
        assert(step_views(steps@) == step_views(before) + seq![KeyStepView::Pause(40)]);
        push_releases(&mut steps);
        let ghost before = steps@;
        steps.push(KeyStep::Enter);
        assert(step_views(steps@) == step_views(before) + seq![KeyStepView::Enter]);
    }
    assert(step_views(steps@) == keystrokes(code@, append_enter));
    steps
}

// --- laws ----------------------------------------------------------------------

/// Only the code of an `[A]` profile is typed: where a listing is answered with
/// typing or reading, it is the code or the names of the first entry that carries
/// the tag, and every entry before it carries none.
pub proof fn law_only_the_auto_profile_is_typed(label: Seq<char>, entries: Vec<Entry>)
    ensures
        ({
            let k = first_auto(entries@) as int;
            let action = next_action(label, TypeReply::Listed(entries)).1;
            &&& k <= entries@.len()
            &&& forall|i: int| 0 <= i < k ==> !(#[trigger] entries@[i])@.is_auto()
            &&& k < entries@.len() ==> entries@[k]@.is_auto()
            &&& action matches TypeActionView::Type { code } ==> k < entries@.len()
                && entries@[k]@.code == Some(code)
            &&& action matches TypeActionView::Read { app_name, account_name } ==> k
                < entries@.len() && entries@[k]@.app_name == app_name && entries@[k]@.account_name
                == account_name && entries@[k]@.code is None
            &&& action == TypeActionView::Done(OutcomeView::NoAutoProfile) <==> k == entries@.len()
        }),
{
    lemma_first_auto_is_first(entries@);
}

proof fn lemma_first_auto_is_first(entries: Seq<Entry>)
    ensures
        first_auto(entries) <= entries.len(),
        forall|i: int| 0 <= i < first_auto(entries) ==> !(#[trigger] entries[i])@.is_auto(),
        first_auto(entries) < entries.len() ==> entries[first_auto(entries) as int]@.is_auto(),
    decreases entries.len(),
{
    if entries.len() > 0 && !entries[0]@.is_auto() {
        let tail = entries.drop_first();
        lemma_first_auto_is_first(tail);
        assert forall|i: int| 0 <= i < first_auto(entries) implies !(
        #[trigger] entries[i])@.is_auto() by {
            if i > 0 {
                assert(entries[i] == tail[i - 1]);
            }
        }
        if first_auto(entries) < entries.len() {
            assert(entries[first_auto(entries) as int] == tail[first_auto(tail) as int]);
        }
    }
}

/// What was typed is reported by its name: once a listing has found the profile,
/// and however its code was come by, a typed code is reported with that profile's
/// label.
pub proof fn law_typed_profile_is_reported(label: Seq<char>, entries: Vec<Entry>, read: Entry)
    requires
        first_auto(entries@) < entries@.len(),
    ensures
        ({
            let target = entries@[first_auto(entries@) as int]@;
            let found = next_action(label, TypeReply::Listed(entries)).0;
            let kept = next_action(found, TypeReply::Read(read)).0;
            &&& next_action(found, TypeReply::Typed).1 == TypeActionView::Done(
                OutcomeView::Typed { label: target.label() },
            )
            &&& next_action(kept, TypeReply::Typed).1 == TypeActionView::Done(
                OutcomeView::Typed { label: target.label() },
            )
        }),
{
}

/// No modifier is held while anything is typed: before the code, and before Enter,
/// every modifier is let go after the last thing that was typed.
pub proof fn law_modifiers_are_up_before_typing(code: Seq<char>, append_enter: bool, i: int)
    requires
        0 <= i < keystrokes(code, append_enter).len(),
        keystrokes(code, append_enter)[i] is Text || keystrokes(code, append_enter)[i] is Enter,
    ensures
        i >= 5,
        keystrokes(code, append_enter).subrange(i - 4, i) == releases(),
{
    let all = keystrokes(code, append_enter);
    assert(i == 5 || i == 11);
    assert(all.subrange(i - 4, i) == releases());
}

/// The held modifiers are those that the binding sets, each once, in the order
/// Control, Shift, Alt, Meta.
pub proof fn law_held_modifiers(b: HotkeyBinding)
    ensures
        b.held().contains(Modifier::Control) == b.ctrl,
        b.held().contains(Modifier::Shift) == b.shift,
        b.held().contains(Modifier::Alt) == b.alt,
        b.held().contains(Modifier::Meta) == b.meta,
        forall|i: int, j: int|
            0 <= i < j < b.held().len() ==> match (#[trigger] b.held()[i], #[trigger] b.held()[j]) {
                (Modifier::Control, m) => !(m is Control),
                (Modifier::Shift, m) => m is Alt || m is Meta,
                (Modifier::Alt, m) => m is Meta,
                (Modifier::Meta, _) => false,
            },
{
    let h = b.held();
    let n1: int = if b.ctrl {
        1
    } else {
        0
    };
    let n2 = n1 + if b.shift {
        1int
    } else {
        0
    };
    let n3 = n2 + if b.alt {
        1int
    } else {
        0
    };
    let n4 = n3 + if b.meta {
        1int
    } else {
        0
    };
    assert(h.len() == n4);
    assert(b.ctrl ==> h[0] == Modifier::Control);
    assert(b.shift ==> h[n1] == Modifier::Shift);
    assert(b.alt ==> h[n2] == Modifier::Alt);
    assert(b.meta ==> h[n3] == Modifier::Meta);
    assert forall|i: int| 0 <= i < h.len() implies match #[trigger] h[i] {
        Modifier::Control => b.ctrl && i == 0,
        Modifier::Shift => b.shift && i == n1,
        Modifier::Alt => b.alt && i == n2,
        Modifier::Meta => b.meta && i == n3,
    } by {}
}

/// A binding's label names its modifiers in the order in which they are held, each by
/// the platform's word, and then its key; between two names stands ` + `.
pub proof fn law_binding_label(b: HotkeyBinding, platform: Platform, i: int)
    ensures
        ({
            let parts = b.label_parts(platform);
            &&& parts.len() == b.held().len() + 1
            &&& parts[parts.len() - 1] == label_of_key(b.key.name@)
            &&& 0 <= i < b.held().len() ==> parts[i] == (match b.held()[i] {
                Modifier::Control => "Ctrl"@,
                Modifier::Shift => "Shift"@,
                Modifier::Alt => "Alt"@,
                Modifier::Meta => match platform {
                    Platform::MacOs => "Cmd"@,
                    Platform::Windows => "Win"@,
                    Platform::Other => "Super"@,
                },
            })
        }),
{
}

/// Parts are joined in order, with ` + ` between each two and nowhere else.
pub proof fn law_joined(parts: Seq<Seq<char>>, part: Seq<char>)
    ensures
        joined(seq![]) == Seq::<char>::empty(),
        joined(seq![part]) == part,
        parts.len() > 0 ==> joined(parts.push(part)) == joined(parts) + seq![' ', '+', ' '] + part,
        super_name(Platform::MacOs) == "Cmd"@,
        super_name(Platform::Windows) == "Win"@,
        super_name(Platform::Other) == "Super"@,
{
    reveal_strlit(" + ");
    assert(" + "@ == seq![' ', '+', ' ']);
    assert(parts.push(part).drop_last() == parts);
}

/// The key of a capital letter is called by that letter, and any other key by the
/// name of its code.
pub proof fn law_key_labels(letter: char, name: Seq<char>)
    ensures
        65 <= letter as int <= 90 ==> label_of_key(seq!['K', 'e', 'y', letter]) == seq![letter],
        (forall|c: char| 65 <= c as int <= 90 ==> name != #[trigger] seq!['K', 'e', 'y', c])
            ==> label_of_key(name) == name,
{
    let key = seq!['K', 'e', 'y', letter];
    assert(key[3] == letter);
    if is_letter_key(name) {
        assert(name == seq!['K', 'e', 'y', name[3]]);
    }
}

/// The keys on offer are those of ten letters; the name of one of them stands for
/// that key, and any other name for the key of `A`.
pub proof fn law_keys_on_offer(letter: char, name: Seq<char>)
    ensures
        is_selectable(seq!['K', 'e', 'y', letter]) <==> (letter == 'A' || letter == 'B' || letter
            == 'C' || letter == 'F' || letter == 'N' || letter == 'Q' || letter == 'S' || letter
            == 'V' || letter == 'X' || letter == 'Z'),
        is_selectable(name) ==> name.len() == 4 && name == seq!['K', 'e', 'y', name[3]],
        is_selectable(name) ==> key_named(name) == name,
        !is_selectable(name) ==> key_named(name) == seq!['K', 'e', 'y', 'A'],
{
    reveal_strlit("KeyA");
    assert("KeyA"@ == seq!['K', 'e', 'y', 'A']);
    let key = seq!['K', 'e', 'y', letter];
    assert(key[3] == letter);
    if is_selectable(key) {
        let i = choose|i: int| 0 <= i < letters().len() && key == letter_key(
            #[trigger] letters()[i],
        );
        assert(letter_key(letters()[i])[3] == letters()[i]);
    }
    assert(letters()[0] == 'A' && letters()[1] == 'B' && letters()[2] == 'C' && letters()[3] == 'F'
        && letters()[4] == 'N' && letters()[5] == 'Q' && letters()[6] == 'S' && letters()[7] == 'V'
        && letters()[8] == 'X' && letters()[9] == 'Z');
    if is_selectable(name) {
        let i = choose|i: int| 0 <= i < letters().len() && name == letter_key(
            #[trigger] letters()[i],
        );
        assert(letter_key(letters()[i])[3] == letters()[i]);
    }
}

/// What is typed is the code, whole and once: there is one text among the steps, and
/// it is the code. Enter is pressed once, at the end, where it is asked for, and not
/// at all where it is not. Everything else is a pause or lets a modifier go.
pub proof fn law_code_is_typed_whole(code: Seq<char>, append_enter: bool)
    ensures
        ({
            let steps = keystrokes(code, append_enter);
            &&& exists|i: int| 0 <= i < steps.len() && #[trigger] steps[i] is Text
            &&& forall|i: int|
                0 <= i < steps.len() ==> ((#[trigger] steps[i]) matches KeyStepView::Text(t) ==> t
                    == code)
            &&& forall|i: int, j: int|
                0 <= i < j < steps.len() ==> !((#[trigger] steps[i]) is Text && (
                #[trigger] steps[j]) is Text)
            &&& append_enter ==> steps[steps.len() - 1] is Enter
            &&& forall|i: int|
                0 <= i < steps.len() && (#[trigger] steps[i]) is Enter ==> append_enter && i
                    == steps.len() - 1
        }),
{
    let steps = keystrokes(code, append_enter);
    assert(steps[5] == KeyStepView::Text(code));
    assert forall|i: int| 0 <= i < steps.len() implies ((#[trigger] steps[i]) is Text <==> i == 5)
        && (steps[i] is Enter <==> i == 11) by {}
}

/// Before the code and before Enter all four modifiers are let go, each once, and
/// before that there is a pause of 60 and of 40 milliseconds.
pub proof fn law_keystroke_order(code: Seq<char>, append_enter: bool)
    ensures
        ({
            let steps = keystrokes(code, append_enter);
            &&& steps.len() == (if append_enter {
                12int
            } else {
                6
            })
            &&& steps[0] == KeyStepView::Pause(60)
            &&& steps[1] == KeyStepView::Release(Modifier::Control)
            &&& steps[2] == KeyStepView::Release(Modifier::Alt)
            &&& steps[3] == KeyStepView::Release(Modifier::Shift)
            &&& steps[4] == KeyStepView::Release(Modifier::Meta)
            &&& append_enter ==> {
                &&& steps[6] == KeyStepView::Pause(40)
                &&& steps[7] == KeyStepView::Release(Modifier::Control)
                &&& steps[8] == KeyStepView::Release(Modifier::Alt)
                &&& steps[9] == KeyStepView::Release(Modifier::Shift)
                &&& steps[10] == KeyStepView::Release(Modifier::Meta)
            }
        }),
{
}

/// What steps show is what they hold, one for one and in order.
pub proof fn law_step_views(steps: Seq<KeyStep>, i: int)
    requires
        0 <= i < steps.len(),
    ensures
        step_views(steps).len() == steps.len(),
        step_views(steps)[i] == (match steps[i] {
            KeyStep::Pause(ms) => KeyStepView::Pause(ms),
            KeyStep::Release(m) => KeyStepView::Release(m),
            KeyStep::Text(s) => KeyStepView::Text(s@),
            KeyStep::Enter => KeyStepView::Enter,
        }),
{
}

/// How a listing is answered: where entry `k` is the first with `[A]` in its issuer,
/// the attempt goes by the name of that entry from then on, and its code is typed
/// as it stands, or asked for by the entry's own issuer and account where there is
/// none; and without such an entry the attempt ends.
pub proof fn law_listing_is_answered(label: Seq<char>, entries: Vec<Entry>, k: int)
    requires
        0 <= k <= entries@.len(),
        forall|i: int| 0 <= i < k ==> !(#[trigger] entries@[i])@.is_auto(),
        k < entries@.len() ==> entries@[k]@.is_auto(),
    ensures
        ({
            let (name, action) = next_action(label, TypeReply::Listed(entries));
            &&& k == entries@.len() ==> name == label && action == TypeActionView::Done(
                OutcomeView::NoAutoProfile,
            )
            &&& k < entries@.len() ==> {
                let e = entries@[k];
                &&& name == crate::entry::profile_label(e.app_name@, e.account_name@)
                &&& e.code matches Some(code) ==> action == (TypeActionView::Type { code: code@ })
                &&& e.code is None ==> action == (TypeActionView::Read {
                    app_name: e.app_name@,
                    account_name: e.account_name@,
                })
            }
        }),
{
    lemma_first_auto(entries@, k);
}

/// How every other reply is answered: an opened key is asked for its entries, the
/// code of an entry that was read is typed as it stands, a typed code is reported by
/// the profile's name, and a failure ends the attempt with what it says. None of them
/// changes how the profile is called.
pub proof fn law_replies_are_answered(label: Seq<char>, e: Entry, m: String)
    ensures
        next_action(label, TypeReply::Opened) == (label, TypeActionView::List),
        next_action(label, TypeReply::Failed(m)) == (
            label,
            TypeActionView::Done(OutcomeView::Error(m@)),
        ),
        next_action(label, TypeReply::Typed) == (
            label,
            TypeActionView::Done(OutcomeView::Typed { label }),
        ),
        e.code matches Some(code) ==> next_action(label, TypeReply::Read(e)) == (
            label,
            TypeActionView::Type { code: code@ },
        ),
        e.code is None ==> next_action(label, TypeReply::Read(e)) == (
            label,
            TypeActionView::Done(OutcomeView::Error("key returned no code"@)),
        ),
{
}

/// What an action shows is what it holds, each text under its own name.
pub proof fn law_action_view(a: TypeAction, o: HotkeyOutcome)
    ensures
        match a {
            TypeAction::List => a@ == TypeActionView::List,
            TypeAction::Read { app_name, account_name } => a@ == (TypeActionView::Read {
                app_name: app_name@,
                account_name: account_name@,
            }),
            TypeAction::Type { code } => a@ == (TypeActionView::Type { code: code@ }),
            TypeAction::Done(outcome) => a@ == TypeActionView::Done(outcome@),
        },
        match o {
            HotkeyOutcome::Typed { label } => o@ == (OutcomeView::Typed { label: label@ }),
            HotkeyOutcome::NoAutoProfile => o@ == OutcomeView::NoAutoProfile,
            HotkeyOutcome::Error(m) => o@ == OutcomeView::Error(m@),
        },
{
}

} // verus!
