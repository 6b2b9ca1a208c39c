//! APDU command headers (`CLA INS P1 P2`).

use vstd::prelude::*;

verus! {

/// `GET_ECDH_PUBKEY` — device returns its raw 64-byte P-256 pubkey.
pub const GET_ECDH_PUBKEY: [u8; 4] = [0x80, 0xC5, 0x01, 0x00];

/// `READ_CONFIG` — device returns the device-info block.
pub const READ_CONFIG: [u8; 4] = [0x80, 0xC5, 0x02, 0x00];

/// `ENABLE_TOTP` — 1 byte (00/01).
pub const ENABLE_TOTP: [u8; 4] = [0x80, 0xC5, 0x02, 0x05];

/// `ENUM_CODES` — host sends subcommand + args.
pub const ENUM_CODES: [u8; 4] = [0x80, 0xC5, 0x05, 0x00];

/// `ENUM_CODES_CONTINUE` — host sends an 8-byte timestamp.
pub const ENUM_CODES_CONTINUE: [u8; 4] = [0x80, 0xC5, 0x05, 0x01];

/// `WRITE_SEED` — encrypted entry write, or empty body for erase-all.
pub const WRITE_SEED: [u8; 4] = [0x80, 0xC5, 0x05, 0x02];

/// `GET_INFO` on the FIDO applet — read serial number.
pub const READ_SERIAL_INS: [u8; 4] = [0x80, 0x33, 0x00, 0x00];

/// ENUM_CODES subcommand: read one entry by name.
pub const SUB_READ_ONE: u8 = 0x01;

/// ENUM_CODES subcommand: paginated read-all.
pub const SUB_READ_ALL: u8 = 0x03;

} // verus!
