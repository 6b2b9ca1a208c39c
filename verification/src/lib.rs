//! T2 TOTP Authenticator — device-access library shared by the `t2totp` CLI and
//! the `t2totp-gui` desktop app.
//!
//! Manages the TOTP profiles on a Token2 second-generation FIDO2 key: the applet's
//! protocol, the HID framing that carries it, the enumeration of HID devices, the
//! scanning of `otpauth` QR codes, the Auto-OTP hotkey and the command line. What
//! talks to the machine (devices, screens, keyboard, terminal) is left to the
//! programs around the library.

use vstd::prelude::*;

pub mod cli;
pub mod entry;
pub mod hid;
pub mod hidframe;
pub mod hotkey;
pub mod proto;
pub mod qr;
pub mod secret;
pub mod text;
pub mod transport;

verus! {

/// The Auto-OTP marker that is appended to an issuer to flag the profile that the
/// global hotkey emits. Plain text in the issuer field, so it round-trips between
/// tools.
pub const AUTO_TAG: &'static str = "[A]";

} // verus!
