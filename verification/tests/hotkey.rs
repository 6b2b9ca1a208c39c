use t2totp::entry::{Algorithm, Entry, OtpType};
use t2totp::hotkey::{
    check_binding, find_auto, key_from_name, key_label, key_name, on_poll, registration_error,
    selectable_keys, super_label, type_code, AutoType, HotkeyBinding, HotkeyOutcome, KeyCode,
    KeyStep, Modifier, Platform, PollAction, PollEvent, TypeAction, TypeReply,
};

fn entry(app_name: &str, account_name: &str, code: Option<&str>) -> Entry {
    Entry {
        otp_type: OtpType::Totp,
        algorithm: Algorithm::Sha1,
        timestep: 30,
        code_length: 6,
        button_required: code.is_none(),
        app_name: app_name.to_string(),
        account_name: account_name.to_string(),
        code: code.map(|c| c.to_string()),
    }
}

#[test]
fn default_binding() {
    let b = HotkeyBinding::default();
    assert!(b.has_modifier());
    assert_eq!(b.label(Platform::Other), "Ctrl + Alt + A");
    assert_eq!(b.modifiers(), vec![Modifier::Control, Modifier::Alt]);
    assert_eq!(check_binding(&b), Ok(()));
}

#[test]
fn labels_name_every_part() {
    let b = HotkeyBinding {
        ctrl: true,
        shift: true,
        alt: true,
        meta: true,
        key: KeyCode { name: "F5" },
    };
    assert_eq!(b.label(Platform::Windows), "Ctrl + Shift + Alt + Win + F5");
    assert_eq!(b.label(Platform::MacOs), "Ctrl + Shift + Alt + Cmd + F5");
    assert_eq!(
        b.modifiers(),
        vec![Modifier::Control, Modifier::Shift, Modifier::Alt, Modifier::Meta]
    );
    assert_eq!(super_label(Platform::Other), "Super");
}

#[test]
fn binding_without_modifier_is_refused() {
    let b = HotkeyBinding {
        ctrl: false,
        shift: false,
        alt: false,
        meta: false,
        key: KeyCode { name: "KeyZ" },
    };
    assert!(!b.has_modifier());
    assert!(b.modifiers().is_empty());
    assert_eq!(b.label(Platform::Other), "Z");
    assert_eq!(
        check_binding(&b),
        Err("choose at least one modifier (Ctrl / Alt / Shift / Super)".to_string())
    );
    assert_eq!(check_binding(&HotkeyBinding { meta: true, ..b }), Ok(()));
}

#[test]
fn registration_error_text() {
    assert_eq!(
        registration_error(&HotkeyBinding::default(), Platform::Other, "taken"),
        "could not register Ctrl + Alt + A — another app may already own it; try a different combination (taken)"
    );
}

#[test]
fn selectable_keys_are_the_ten_letters() {
    let keys = selectable_keys();
    let letters: Vec<&str> = keys.iter().map(|(_, l)| *l).collect();
    assert_eq!(letters, vec!["A", "B", "C", "F", "N", "Q", "S", "V", "X", "Z"]);
    for (code, letter) in keys {
        assert_eq!(key_name(code), format!("Key{}", letter));
        assert_eq!(key_label(code), letter);
        assert_eq!(key_from_name(&key_name(code)), code);
    }
}

#[test]
fn unknown_key_names_fall_back() {
    assert_eq!(key_from_name("KeyT").name, "KeyA");
    assert_eq!(key_from_name("").name, "KeyA");
}

#[test]
fn letter_keys_are_called_by_their_letter() {
    assert_eq!(key_label(KeyCode { name: "KeyT" }), "T");
    assert_eq!(key_label(KeyCode { name: "KeyA" }), "A");
    assert_eq!(key_label(KeyCode { name: "KeyZ" }), "Z");
    for name in ["Keyt", "Key1", "Key", "KeyTT", "F5", "Enter", "BracketLeft", ""] {
        assert_eq!(key_label(KeyCode { name }), name);
    }
    let b = HotkeyBinding { key: KeyCode { name: "KeyT" }, ..HotkeyBinding::default() };
    assert_eq!(b.label(Platform::Other), "Ctrl + Alt + T");
}

#[test]
fn polling_decisions() {
    let press = PollEvent::Key { id: 7, pressed: true };
    assert_eq!(on_poll(press, 7), PollAction::TypeCode);
    assert_eq!(on_poll(press, 8), PollAction::Wait);
    assert_eq!(on_poll(PollEvent::Key { id: 7, pressed: false }, 7), PollAction::Wait);
    assert_eq!(on_poll(PollEvent::Timeout, 7), PollAction::Wait);
    assert_eq!(on_poll(PollEvent::Disconnected, 7), PollAction::Stop);
}

#[test]
fn auto_profile_is_the_first_tagged_one() {
    let list = vec![
        entry("Plain", "a", Some("1")),
        entry("X[A]", "b", Some("2")),
        entry("[A]", "c", Some("3")),
    ];
    assert_eq!(find_auto(&list), Some(1));
    assert_eq!(find_auto(&list[..1]), None);
    let mut t = AutoType::new();
    assert_eq!(t.step(TypeReply::Opened), TypeAction::List);
    assert_eq!(t.step(TypeReply::Listed(list)), TypeAction::Type { code: "2".to_string() });
    assert_eq!(
        t.step(TypeReply::Typed),
        TypeAction::Done(HotkeyOutcome::Typed { label: "X[A]:b".to_string() })
    );
}

#[test]
fn touch_profile_is_read_first() {
    let mut t = AutoType::new();
    assert_eq!(
        t.step(TypeReply::Listed(vec![entry("[A]", "b", None)])),
        TypeAction::Read { app_name: "[A]".to_string(), account_name: "b".to_string() }
    );
    assert_eq!(
        t.step(TypeReply::Read(entry("[A]", "b", Some("77")))),
        TypeAction::Type { code: "77".to_string() }
    );
    assert_eq!(
        t.step(TypeReply::Typed),
        TypeAction::Done(HotkeyOutcome::Typed { label: "[A]:b".to_string() })
    );
}

#[test]
fn failed_attempts_are_reported() {
    let mut t = AutoType::new();
    assert_eq!(
        t.step(TypeReply::Failed("no key".to_string())),
        TypeAction::Done(HotkeyOutcome::Error("no key".to_string()))
    );
    assert_eq!(
        t.step(TypeReply::Listed(vec![entry("A", "b", Some("1"))])),
        TypeAction::Done(HotkeyOutcome::NoAutoProfile)
    );
    assert_eq!(
        t.step(TypeReply::Read(entry("[A]", "b", None))),
        TypeAction::Done(HotkeyOutcome::Error("key returned no code".to_string()))
    );
}

#[test]
fn keystrokes_of_a_code() {
    let up = [
        KeyStep::Release(Modifier::Control),
        KeyStep::Release(Modifier::Alt),
        KeyStep::Release(Modifier::Shift),
        KeyStep::Release(Modifier::Meta),
    ];
    let mut want = vec![KeyStep::Pause(60)];
    want.extend_from_slice(&up);
    want.push(KeyStep::Text("123".to_string()));
    assert_eq!(type_code("123", false), want);
    want.push(KeyStep::Pause(40));
    want.extend_from_slice(&up);
    want.push(KeyStep::Enter);
    assert_eq!(type_code("123", true), want);
    let matter: Vec<bool> = want.iter().map(|s| s.failure_matters()).collect();
    assert_eq!(matter.iter().filter(|&&m| m).count(), 2);
    assert!(matter[5] && matter[11]);
}
