use t2totp::hid::{enumerate, read_ids, read_usage_page, HidError, HidrawNode};

const UEVENT: &str = "DRIVER=hid-generic\nHID_ID=0003:0000349E:00000022\nHID_NAME=Token2 FIDO2 Security Key\nHID_PHYS=usb-1\n";

fn node(name: &str, uevent: Option<&str>, descriptor: Option<&[u8]>) -> HidrawNode {
    HidrawNode {
        name: name.to_string(),
        uevent: uevent.map(|s| s.to_string()),
        descriptor: descriptor.map(|d| d.to_vec()),
    }
}

#[test]
fn uevent_gives_ids_and_name() {
    assert_eq!(
        read_ids(UEVENT),
        Some((0x349E, 0x0022, "Token2 FIDO2 Security Key".to_string()))
    );
    assert_eq!(
        read_ids("HID_ID=0003:0000ffff:00000001\r\n"),
        Some((0xFFFF, 1, String::new()))
    );
    assert_eq!(read_ids("HID_ID=3:9:+a"), Some((9, 10, String::new())));
}

#[test]
fn uevents_without_both_ids_give_none() {
    assert_eq!(read_ids(""), None);
    assert_eq!(read_ids("HID_NAME=x"), None);
    assert_eq!(read_ids("HID_ID=0003:0000349E"), None);
    assert_eq!(read_ids("HID_ID=0003::00000022"), None);
    assert_eq!(read_ids("HID_ID=0003:0000349E:zzzz"), None);
    assert_eq!(read_ids("HID_ID=0003:0000349E:é123"), None);
}

#[test]
fn later_lines_count_more() {
    let uevent = "HID_ID=3:1:2\nHID_NAME=a\nHID_ID=3:4\nHID_ID=3:5:6\nHID_NAME=b=c\n";
    assert_eq!(read_ids(uevent), Some((5, 6, "b=c".to_string())));
    assert_eq!(read_ids("HID_ID=3:5:6\nHID_ID=3:x:6"), None);
}

#[test]
fn usage_page_is_the_first_one() {
    assert_eq!(read_usage_page(&[0x06, 0xD0, 0xF1, 0x09, 0x01]), Some(0xF1D0));
    assert_eq!(read_usage_page(&[0x05, 0x01, 0x06, 0xD0, 0xF1]), Some(1));
    assert_eq!(read_usage_page(&[0x09, 0x05, 0xA1, 0x01, 0x06, 0xD0, 0xF1]), Some(0xF1D0));
    assert_eq!(read_usage_page(&[0x0B, 1, 2, 3, 4, 0x05, 0x0C]), Some(0x0C));
    assert_eq!(read_usage_page(&[0x07, 0xD0, 0xF1, 9, 9]), Some(0xF1D0));
    assert_eq!(read_usage_page(&[0x04, 0xD0]), Some(0));
    assert_eq!(read_usage_page(&[0x06, 0xD0]), Some(0xD0));
    assert_eq!(read_usage_page(&[0x06]), Some(0));
}

#[test]
fn descriptors_without_usage_page_give_none() {
    assert_eq!(read_usage_page(&[]), None);
    assert_eq!(read_usage_page(&[0x09, 0x06]), None);
    assert_eq!(read_usage_page(&[0x0B, 0x06]), None);
}

#[test]
fn nodes_become_devices() {
    let nodes = [
        node("hidraw0", Some(UEVENT), Some(&[0x06, 0xD0, 0xF1])),
        node("hidraw1", None, Some(&[0x06, 0xD0, 0xF1])),
        node("hidraw2", Some("HID_NAME=x"), None),
        node("hidraw3", Some("HID_ID=3:1:2"), None),
        node("hidraw4", Some("HID_ID=3:1:2"), Some(&[0x09, 0x01])),
    ];
    let devices = enumerate(&nodes).unwrap();
    assert_eq!(devices.len(), 3);
    assert_eq!(devices[0].path, "/dev/hidraw0");
    assert_eq!(devices[0].vendor_id, 0x349E);
    assert_eq!(devices[0].product_id, 0x0022);
    assert_eq!(devices[0].usage_page, 0xF1D0);
    assert_eq!(devices[0].product_name, "Token2 FIDO2 Security Key");
    assert_eq!(devices[1].path, "/dev/hidraw3");
    assert_eq!(devices[1].usage_page, 0);
    assert_eq!(devices[2].path, "/dev/hidraw4");
    assert_eq!(devices[2].usage_page, 0);
    assert!(enumerate(&[]).unwrap().is_empty());
}

#[test]
fn hid_error_text() {
    assert_eq!(HidError("gone".to_string()).to_string(), "HID enumeration error: gone");
}
