//! ISO-7816 status words this applet returns.

use vstd::prelude::*;

verus! {

/// Success.
pub const OK: u16 = 0x9000;

/// The named entry does not exist, or the token holds none.
pub const ENTRY_NOT_FOUND: u16 = 0x6A80;

/// The same, as some models report it.
pub const ENTRY_NOT_FOUND_ALT: u16 = 0x6A83;

/// Device storage is full.
pub const NOT_ENOUGH_SPACE: u16 = 0x6A84;

/// This model does not expose HOTP-over-HID.
pub const HID_NOT_SUPPORTED: u16 = 0x6A86;

/// No confirming button press in time.
pub const BUTTON_TIMEOUT: u16 = 0x6FF9;

} // verus!
