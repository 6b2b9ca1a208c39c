//! The interfaces over which a key can be reached.

use vstd::prelude::*;

verus! {

/// Which interface to use.
#[derive(Debug, Clone, Copy, PartialEq, Eq, Structural)]
pub enum Interface {
    /// Whichever finds a key first.
    Auto,
    /// USB-HID.
    Hid,
    /// NFC through a PC/SC reader.
    Nfc,
}

} // verus!
