# t2totp

A library for managing the TOTP profiles on a Token2 second-generation FIDO2 key,
written in Rust and proved with [Verus](https://github.com/verus-lang/verus).

| Module      | What it holds                                                        |
|-------------|----------------------------------------------------------------------|
| `proto`     | APDUs, status words, serial numbers, device info, Base32 seeds       |
| `entry`     | OTP entries: write/read/delete payloads and the response parser      |
| `hidframe`  | splitting APDUs into HID reports and reassembling responses          |
| `hid`       | HID devices from what sysfs says of the hidraw nodes                 |
| `qr`        | `otpauth://totp` URIs, QR grids, and picking the code on the screens |
| `hotkey`    | the Auto-OTP hotkey: bindings, decisions, keystrokes                 |
| `cli`       | the command line and what is printed                                 |
| `secret`    | byte strings that are scrubbed on drop                               |
| `text`      | text as sequences of characters                                      |
| `transport` | the interfaces over which a key can be reached                       |

Every function states in its contract what it returns. Properties that relate
several functions are proved as `law_...` in the module they belong to. The few
items whose contracts are taken on trust name the function of another crate, or of
the standard library, that they stand for.

`app/` holds the programs around the library: the command line, the HID session,
the desktop hotkey and the search for QR codes in pictures.
