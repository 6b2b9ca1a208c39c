//! USB-HID device enumeration for Token2 FIDO keys.
//!
//! On Linux the HID interfaces are the nodes of `/sys/class/hidraw`. What sysfs
//! says of each node is handed in as text and bytes; this module makes devices of
//! it.

use crate::proto;
use crate::text;
use vstd::prelude::*;
use vstd::slice::slice_subrange;

verus! {

/// A discovered HID device.
#[derive(Debug, Clone)]
pub struct HidDevice {
    pub path: String,
    pub vendor_id: u16,
    pub product_id: u16,
    pub usage_page: u16,
    pub product_name: String,
}

/// A HID device with its texts as characters.
#[verifier::ext_equal]
pub struct HidDeviceView {
    pub path: Seq<char>,
    pub vendor_id: u16,
    pub product_id: u16,
    pub usage_page: u16,
    pub product_name: Seq<char>,
}

impl View for HidDevice {
    type V = HidDeviceView;

    open spec fn view(&self) -> HidDeviceView {
        HidDeviceView {
            path: self.path@,
            vendor_id: self.vendor_id,
            product_id: self.product_id,
            usage_page: self.usage_page,
            product_name: self.product_name@,
        }
    }
}

#[derive(Debug)]
pub struct HidError(pub String);

impl HidError {
    /// The text that names the error to a user.
    pub fn to_string(&self) -> (s: String)
        ensures
            s@ == "HID enumeration error: "@ + self.0@,
    {
        let mut s = text::owned("HID enumeration error: ");
        text::append(&mut s, self.0.as_str());
        s
    }
}

/// What sysfs says of one hidraw node: its name, and its `device/uevent` and
/// `device/report_descriptor` where they could be read.
#[derive(Debug, Clone)]
pub struct HidrawNode {
    pub name: String,
    pub uevent: Option<String>,
    pub descriptor: Option<Vec<u8>>,
}

// --- uevent --------------------------------------------------------------------

/// What the lines of a uevent have said so far.
#[verifier::ext_equal]
pub struct IdsSoFar {
    pub vid: Option<u16>,
    pub pid: Option<u16>,
    pub name: Seq<char>,
}

/// The last four characters of `s`, or all of it where it is shorter.
pub open spec fn last_four(s: Seq<char>) -> Seq<char> {
    if s.len() > 4 {
        s.skip(s.len() - 4)
    } else {
        s
    }
}

/// The 16-bit number in the last four hexadecimal digits of an ID.
pub open spec fn id_value(s: Seq<char>) -> Option<u16> {
    match text::number_up_to(last_four(s), 16, 0xFFFF) {
        Some(v) => Some(v as u16),
        None => None,
    }
}

/// `ids` with what one more line says. `HID_ID=` gives both IDs, in the format
/// `BUS:VVVVVVVV:PPPPPPPP`; a value in another format says nothing. `HID_NAME=`
/// gives the product's name.
pub open spec fn with_line(ids: IdsSoFar, line: Seq<char>) -> IdsSoFar {
    if "HID_ID="@.is_prefix_of(line) {
        let parts = text::pieces(line.skip(7), ':');
        if parts.len() == 3 {
            IdsSoFar { vid: id_value(parts[1]), pid: id_value(parts[2]), ..ids }
        } else {
            ids
        }
    } else if "HID_NAME="@.is_prefix_of(line) {
        IdsSoFar { name: line.skip(9), ..ids }
    } else {
        ids
    }
}

/// What lines say, one after the other.
pub open spec fn with_lines(lines: Seq<Seq<char>>) -> IdsSoFar
    decreases lines.len(),
{
    if lines.len() == 0 {
        IdsSoFar { vid: None, pid: None, name: seq![] }
    } else {
        with_line(with_lines(lines.drop_last()), lines.last())
    }
}

/// The vendor ID, the product ID and the product's name in a uevent, where it has
/// both IDs.
pub open spec fn ids_of(uevent: Seq<char>) -> Option<(u16, u16, Seq<char>)> {
    let ids = with_lines(text::lines_of(uevent));
    match (ids.vid, ids.pid) {
        (Some(vid), Some(pid)) => Some((vid, pid, ids.name)),
        _ => None,
    }
}

fn parse_id(s: &[char]) -> (r: Option<u16>)
    ensures
        r == id_value(s@),
{
    let from: usize = if s.len() > 4 {
        s.len() - 4
    } else {
        0
    };
    let digits = slice_subrange(s, from, s.len());
    assert(digits@ == last_four(s@));
    match text::parse_number(digits, 16, 0xFFFF) {
        Some(v) => Some(v as u16),
        None => None,
    }
}

/// Read VID/PID and product string from a HID device's uevent, which has them in
/// its `HID_ID=` and `HID_NAME=` fields.
pub fn read_ids(uevent: &str) -> (r: Option<(u16, u16, String)>)
    ensures
        match r {
            Some((vid, pid, name)) => ids_of(uevent@) == Some((vid, pid, name@)),
            None => ids_of(uevent@) is None,
        },
{
    let chars = text::to_chars(uevent);
    let lines = text::lines(chars.as_slice());
    let mut vid: Option<u16> = None;
    let mut pid: Option<u16> = None;
    let mut name = String::new();
    let ghost all = text::lines_of(uevent@);
    proof {
        reveal_strlit("HID_ID=");
        reveal_strlit("HID_NAME=");
    }
    for i in 0..lines.len()
        invariant
            "HID_ID="@.len() == 7,
            "HID_NAME="@.len() == 9,
            text::texts(lines@) == all,
            (IdsSoFar { vid, pid, name: name@ }) == with_lines(all.take(i as int)),
    {
        let line = lines[i];
        proof {
            assert(text::texts(lines@)[i as int] == line@);
            assert(all.take(i + 1).drop_last() == all.take(i as int));
            assert(all.take(i + 1).last() == line@);
        }
        if text::starts_with(line, "HID_ID=") {
            // Format: BUS:VVVVVVVV:PPPPPPPP (hex, zero-padded to 8).
            let rest = slice_subrange(line, 7, line.len());
            assert(rest@ == line@.skip(7));
            let parts = text::split(rest, ':');
            assert(text::texts(parts@).len() == parts@.len());
            if parts.len() == 3 {
                assert(text::texts(parts@)[1] == parts@[1]@);
                assert(text::texts(parts@)[2] == parts@[2]@);
                vid = parse_id(parts[1]);
                pid = parse_id(parts[2]);
            }
        } else if text::starts_with(line, "HID_NAME=") {
            let rest = slice_subrange(line, 9, line.len());
            assert(rest@ == line@.skip(9));
            name = text::to_text(rest);
        }
    }
    assert(all.take(all.len() as int) == all);
    match (vid, pid) {
        (Some(vid), Some(pid)) => Some((vid, pid, name)),
        _ => None,
    }
}

// --- report descriptor ---------------------------------------------------------

/// How many bytes of data follow the first byte of a descriptor item.
pub open spec fn item_size(b: u8) -> nat {
    if b & 0x03 == 3 {
        4
    } else {
        (b & 0x03) as nat
    }
}

/// The byte at `i`, and zero behind the end of `d` or of `size` bytes of data.
pub open spec fn data_byte(d: Seq<u8>, size: nat, i: nat) -> nat {
    if i < size && 1 + i < d.len() {
        d[1 + i as int] as nat
    } else {
        0
    }
}

/// The first usage page that a report descriptor gives: the data of its first item
/// with tag 0x04, least significant byte first, of which the lowest 16 bits count
/// and missing bytes are zero. Items before it are passed over.
pub open spec fn usage_page_of(d: Seq<u8>) -> Option<u16>
    decreases d.len(),
{
    if d.len() == 0 {
        None
    } else {
        let size = item_size(d[0]);
        if d[0] & 0xFC == 0x04 {
            Some((data_byte(d, size, 0) + 256 * data_byte(d, size, 1)) as u16)
        } else if 1 + size < d.len() {
            usage_page_of(d.skip(1 + size as int))
        } else {
            None
        }
    }
}

/// Parse the HID report descriptor to find the top-level usage page. We look
/// for the first Usage Page item; the FIDO page is 0xF1D0.
pub fn read_usage_page(desc: &[u8]) -> (r: Option<u16>)
    ensures
        r == usage_page_of(desc@),
{
    let len: usize = desc.len();
    let mut i: usize = 0;
    assert(desc@.skip(0) == desc@);
    while i < len
        invariant
            len == desc@.len(),
            i <= len,
            usage_page_of(desc@) == usage_page_of(desc@.skip(i as int)),
        decreases len - i,
    {
        let ghost rest = desc@.skip(i as int);
        let b: u8 = desc[i];
        let low: u8 = b & 0x03;
        assert(low < 4) by (bit_vector)
            requires
                low == b & 0x03,
        ;
        let size: usize = match low {
            0 => 0,
            1 => 1,
            2 => 2,
            _ => 4,
        };
        assert(size == item_size(b));
        // Usage Page (global item, tag 0x04).
        if b & 0xFC == 0x04 {
            let mut val: u16 = 0;
            if size > 0 && len - i > 1 {
                val = desc[i + 1] as u16;
            }
            if size > 1 && len - i > 2 {
                val = val + 256 * (desc[i + 2] as u16);
            }
            return Some(val);
        }
        if size + 1 >= len - i {
            return None;
        }
        assert(rest.skip(1 + size as int) == desc@.skip(i + 1 + size));
        i = i + 1 + size;
    }
    None
}

// --- devices -------------------------------------------------------------------

/// The device of one node: none where its IDs are not known, and usage page 0
/// where its descriptor gives none.
pub open spec fn device_of(node: HidrawNode) -> Option<HidDeviceView> {
    match node.uevent {
        None => None,
        Some(uevent) => match ids_of(uevent@) {
            None => None,
            Some((vid, pid, name)) => Some(
                HidDeviceView {
                    path: "/dev/"@ + node.name@,
                    vendor_id: vid,
                    product_id: pid,
                    usage_page: match node.descriptor {
                        Some(d) => match usage_page_of(d@) {
                            Some(page) => page,
                            None => 0,
                        },
                        None => 0,
                    },
                    product_name: name,
                },
            ),
        },
    }
}

/// The devices of the nodes that have one, in the nodes' order.
pub open spec fn devices_of(nodes: Seq<HidrawNode>) -> Seq<HidDeviceView>
    decreases nodes.len(),
{
    if nodes.len() == 0 {
        seq![]
    } else {
        match device_of(nodes.last()) {
            Some(d) => devices_of(nodes.drop_last()).push(d),
            None => devices_of(nodes.drop_last()),
        }
    }
}

/// Devices, each with its texts as characters.
pub open spec fn device_views(devices: Seq<HidDevice>) -> Seq<HidDeviceView> {
    devices.map_values(|d: HidDevice| d@)
}

/// Enumerate connected HID devices from what sysfs says of the hidraw nodes. On a
/// system without that class there are no nodes, and so no devices.
pub fn enumerate(nodes: &[HidrawNode]) -> (r: Result<Vec<HidDevice>, HidError>)
    ensures
        r matches Ok(devices) && device_views(devices@) == devices_of(nodes@),
{
    let mut out: Vec<HidDevice> = Vec::new();
    for i in 0..nodes.len()
        invariant
            device_views(out@) == devices_of(nodes@.take(i as int)),
    {
        let node = &nodes[i];
        let ghost before = out@;
        assert(nodes@.take(i + 1).drop_last() == nodes@.take(i as int));
        assert(nodes@.take(i + 1).last() == node);
        if let Some(uevent) = &node.uevent {
            if let Some((vid, pid, product)) = read_ids(uevent.as_str()) {
                let usage_page: u16 = match &node.descriptor {
                    Some(desc) => match read_usage_page(desc.as_slice()) {
                        Some(page) => page,
                        None => 0,
                    },
                    None => 0,
                };
                let mut path = text::owned("/dev/");
                text::append(&mut path, node.name.as_str());
                out.push(
                    HidDevice {
                        path,
                        vendor_id: vid,
                        product_id: pid,
                        usage_page,
                        product_name: product,
                    },
                );
                assert(device_views(out@) == device_views(before).push(out@.last()@));
            }
        }
    }
    assert(nodes@.take(nodes@.len() as int) == nodes@);
    Ok(out)
}

// --- laws ----------------------------------------------------------------------

/// Four capital hexadecimal digits.
pub open spec fn hex_word(v: u16) -> Seq<char> {
    proto::status_word_text(v).skip(2)
}

/// The line of a uevent that gives the IDs, each zero-padded to eight digits.
pub open spec fn id_line(bus: Seq<char>, vid: u16, pid: u16) -> Seq<char> {
    "HID_ID="@ + bus + seq![':', '0', '0', '0', '0'] + hex_word(vid) + seq![
        ':',
        '0',
        '0',
        '0',
        '0',
    ] + hex_word(pid)
}

/// Whether a line says nothing of the IDs and the name.
pub open spec fn says_nothing(line: Seq<char>) -> bool {
    !"HID_ID="@.is_prefix_of(line) && !"HID_NAME="@.is_prefix_of(line)
}

proof fn lemma_hex_digit(n: nat)
    requires
        n < 16,
    ensures
        text::digit_value(proto::upper_hex_digit(n), 16) == Some(n),
        proto::upper_hex_digit(n) != ':',
        proto::upper_hex_digit(n) != '+',
{
}

/// One more hexadecimal digit behind others.
proof fn lemma_more_digits(s: Seq<char>, v: nat, d: nat)
    requires
        text::digits_value(s, 16) == Some(v),
        d < 16,
    ensures
        text::digits_value(s.push(proto::upper_hex_digit(d)), 16) == Some(v * 16 + d),
{
    lemma_hex_digit(d);
    let t = s.push(proto::upper_hex_digit(d));
    assert(t.drop_last() == s);
    assert(t.last() == proto::upper_hex_digit(d));
}

proof fn lemma_hex_word(v: u16)
    ensures
        hex_word(v).len() == 4,
        text::number_up_to(hex_word(v), 16, 0xFFFF) == Some(v as nat),
        forall|i: int| 0 <= i < 4 ==> (#[trigger] hex_word(v)[i]) != ':',
{
    let d0 = (v / 4096) as nat;
    let d1 = (v / 256 % 16) as nat;
    let d2 = (v / 16 % 16) as nat;
    let d3 = (v % 16) as nat;
    lemma_hex_digit(d0);
    lemma_hex_digit(d1);
    lemma_hex_digit(d2);
    lemma_hex_digit(d3);
    let none = Seq::<char>::empty();
    let one = none.push(proto::upper_hex_digit(d0));
    let two = one.push(proto::upper_hex_digit(d1));
    let three = two.push(proto::upper_hex_digit(d2));
    let four = three.push(proto::upper_hex_digit(d3));
    assert(text::digits_value(none, 16) == Some(0nat));
    lemma_more_digits(none, 0, d0);
    lemma_more_digits(one, d0, d1);
    lemma_more_digits(two, d0 * 16 + d1, d2);
    lemma_more_digits(three, (d0 * 16 + d1) * 16 + d2, d3);
    assert(((d0 * 16 + d1) * 16 + d2) * 16 + d3 == v);
    assert(hex_word(v) == four);
    assert(four[0] != '+');
}

proof fn lemma_id_value(v: u16)
    ensures
        id_value(seq!['0', '0', '0', '0'] + hex_word(v)) == Some(v),
{
    lemma_hex_word(v);
    assert(last_four(seq!['0', '0', '0', '0'] + hex_word(v)) == hex_word(v));
}

proof fn lemma_id_line(ids: IdsSoFar, bus: Seq<char>, vid: u16, pid: u16)
    requires
        forall|i: int| 0 <= i < bus.len() ==> (#[trigger] bus[i]) != ':',
    ensures
        with_line(ids, id_line(bus, vid, pid)) == (IdsSoFar {
            vid: Some(vid),
            pid: Some(pid),
            ..ids
        }),
{
    reveal_strlit("HID_ID=");
    let line = id_line(bus, vid, pid);
    assert("HID_ID="@.is_prefix_of(line));
    lemma_hex_word(vid);
    lemma_hex_word(pid);
    lemma_id_value(vid);
    lemma_id_value(pid);
    let v = seq!['0', '0', '0', '0'] + hex_word(vid);
    let p = seq!['0', '0', '0', '0'] + hex_word(pid);
    let rest = line.skip(7);
    assert(rest == bus + seq![':'] + (v + seq![':'] + p));
    text::lemma_find_char_unique(rest, ':', bus.len() as int);
    assert(rest.take(bus.len() as int) == bus);
    assert(rest.skip(bus.len() as int + 1) == v + seq![':'] + p);
    assert forall|i: int| 0 <= i < 8 implies (#[trigger] v[i]) != ':' && p[i] != ':' by {
        if i >= 4 {
            assert(v[i] == hex_word(vid)[i - 4] && p[i] == hex_word(pid)[i - 4]);
        }
    }
    let tail = v + seq![':'] + p;
    text::lemma_find_char_unique(tail, ':', 8);
    assert(tail.take(8) == v);
    assert(tail.skip(9) == p);
    assert forall|i: int| 0 <= i < 8 implies (#[trigger] p[i]) != ':' by {
        assert(v[i] != ':' && p[i] != ':');
    }
    text::lemma_find_char_unique(p, ':', 8);
    reveal_with_fuel(text::pieces, 3);
    assert(text::pieces(rest, ':') == seq![bus, v, p]);
}

proof fn lemma_quiet_lines(lines: Seq<Seq<char>>, more: Seq<Seq<char>>)
    requires
        forall|i: int| 0 <= i < more.len() ==> says_nothing(#[trigger] more[i]),
    ensures
        with_lines(lines + more) == with_lines(lines),
    decreases more.len(),
{
    if more.len() == 0 {
        assert(lines + more == lines);
    } else {
        assert((lines + more).drop_last() == lines + more.drop_last());
        assert((lines + more).last() == more.last());
        assert(says_nothing(more[more.len() - 1]));
        assert forall|i: int| 0 <= i < more.drop_last().len() implies says_nothing(
            #[trigger] more.drop_last()[i],
        ) by {
            assert(more.drop_last()[i] == more[i]);
        }
        lemma_quiet_lines(lines, more.drop_last());
    }
}

/// A uevent in the kernel's format is read: with one line for the IDs and one for
/// the name behind it, and lines of other fields before, between and behind them,
/// the IDs and the name are what these two lines say.
pub proof fn law_uevent_is_read(
    uevent: Seq<char>,
    before: Seq<Seq<char>>,
    bus: Seq<char>,
    vid: u16,
    pid: u16,
    between: Seq<Seq<char>>,
    name: Seq<char>,
    behind: Seq<Seq<char>>,
)
    requires
        text::lines_of(uevent) == before + seq![id_line(bus, vid, pid)] + between + seq![
            "HID_NAME="@ + name,
        ] + behind,
        forall|i: int| 0 <= i < bus.len() ==> (#[trigger] bus[i]) != ':',
        forall|i: int| 0 <= i < before.len() ==> says_nothing(#[trigger] before[i]),
        forall|i: int| 0 <= i < between.len() ==> says_nothing(#[trigger] between[i]),
        forall|i: int| 0 <= i < behind.len() ==> says_nothing(#[trigger] behind[i]),
    ensures
        ids_of(uevent) == Some((vid, pid, name)),
{
    reveal_strlit("HID_ID=");
    reveal_strlit("HID_NAME=");
    let none = Seq::<Seq<char>>::empty();
    let l1 = before.push(id_line(bus, vid, pid));
    let l2 = l1 + between;
    let name_line = "HID_NAME="@ + name;
    let l3 = l2.push(name_line);
    assert(before + seq![id_line(bus, vid, pid)] + between + seq![name_line] + behind == l3
        + behind);
    assert(none + before == before);
    lemma_quiet_lines(none, before);
    assert(l1.drop_last() == before);
    lemma_id_line(with_lines(before), bus, vid, pid);
    lemma_quiet_lines(l1, between);
    assert(l3.drop_last() == l2);
    assert("HID_NAME="@.is_prefix_of(name_line));
    assert(!"HID_ID="@.is_prefix_of(name_line)) by {
        assert(name_line[4] == 'N');
        assert("HID_ID="@[4] == 'I');
    }
    assert(name_line.skip(9) == name);
    lemma_quiet_lines(l3, behind);
}

/// A descriptor that opens with a two-byte usage page gives that page, whatever
/// follows.
pub proof fn law_opening_usage_page_is_found(lo: u8, hi: u8, rest: Seq<u8>)
    ensures
        usage_page_of(seq![0x06u8, lo, hi] + rest) == Some((hi * 256 + lo) as u16),
{
    assert(0x06u8 & 0x03 == 2 && 0x06u8 & 0xFC == 0x04) by (bit_vector);
}

/// An ID is the hexadecimal number in its last four characters, or in all of them
/// where there are fewer.
pub proof fn law_id_value(front: Seq<char>, digits: Seq<char>)
    requires
        digits.len() <= 4,
    ensures
        id_value(digits) == (match text::number_up_to(digits, 16, 0xFFFF) {
            Some(v) => Some(v as u16),
            None => None,
        }),
        digits.len() == 4 ==> id_value(front + digits) == id_value(digits),
{
    if digits.len() == 4 {
        assert(last_four(front + digits) == digits);
    }
}

/// A line of a uevent says what its field's name promises: the IDs stand in the
/// second and the third of three parts with colons between them, the product's name
/// is all that follows its field's name, and any other line changes nothing.
pub proof fn law_uevent_line(
    ids: IdsSoFar,
    bus: Seq<char>,
    v: Seq<char>,
    p: Seq<char>,
    name: Seq<char>,
    line: Seq<char>,
)
    requires
        forall|i: int| 0 <= i < bus.len() ==> (#[trigger] bus[i]) != ':',
        forall|i: int| 0 <= i < v.len() ==> (#[trigger] v[i]) != ':',
        forall|i: int| 0 <= i < p.len() ==> (#[trigger] p[i]) != ':',
    ensures
        ({
            let t = with_line(ids, "HID_ID="@ + bus + seq![':'] + v + seq![':'] + p);
            t.vid == id_value(v) && t.pid == id_value(p) && t.name == ids.name
        }),
        with_line(ids, "HID_ID="@ + bus) == ids,
        with_line(ids, "HID_ID="@ + bus + seq![':'] + v) == ids,
        ({
            let t = with_line(ids, "HID_NAME="@ + name);
            t.name == name && t.vid == ids.vid && t.pid == ids.pid
        }),
        !"HID_ID="@.is_prefix_of(line) && !"HID_NAME="@.is_prefix_of(line) ==> with_line(ids, line)
            == ids,
        "HID_ID="@.is_prefix_of(line) && text::pieces(line.skip(7), ':').len() != 3 ==> with_line(
            ids,
            line,
        ) == ids,
{
    reveal_strlit("HID_ID=");
    reveal_strlit("HID_NAME=");
    let none = Seq::<char>::empty();
    let line3 = "HID_ID="@ + bus + seq![':'] + v + seq![':'] + p;
    let tail = v + seq![':'] + p;
    assert("HID_ID="@.is_prefix_of(line3));
    assert(line3.skip(7) == bus + seq![':'] + tail);
    text::law_pieces(bus, ':', tail);
    text::law_pieces(v, ':', p);
    text::law_pieces(p, ':', none);
    assert(text::pieces(line3.skip(7), ':') == seq![bus] + (seq![v] + seq![p]));
    let line1 = "HID_ID="@ + bus;
    assert("HID_ID="@.is_prefix_of(line1));
    assert(line1.skip(7) == bus);
    let line2 = "HID_ID="@ + bus + seq![':'] + v;
    assert("HID_ID="@.is_prefix_of(line2));
    assert(line2.skip(7) == bus + seq![':'] + v);
    text::law_pieces(bus, ':', v);
    text::law_pieces(v, ':', none);
    let named = "HID_NAME="@ + name;
    assert("HID_NAME="@.is_prefix_of(named));
    assert(!"HID_ID="@.is_prefix_of(named)) by {
        assert(named[4] == 'N');
        assert("HID_ID="@[4] == 'I');
    }
    assert(named.skip(9) == name);
}

/// The lines of a uevent act one after the other, from nothing known; and the IDs
/// count only where both are known.
pub proof fn law_uevent_lines(lines: Seq<Seq<char>>, line: Seq<char>, uevent: Seq<char>)
    ensures
        with_lines(seq![]).vid is None && with_lines(seq![]).pid is None && with_lines(
            seq![],
        ).name.len() == 0,
        with_lines(lines.push(line)) == with_line(with_lines(lines), line),
        ({
            let ids = with_lines(text::lines_of(uevent));
            &&& ids_of(uevent) is Some <==> ids.vid is Some && ids.pid is Some
            &&& ids_of(uevent) matches Some((vid, pid, name)) ==> ids.vid == Some(vid) && ids.pid
                == Some(pid) && ids.name == name
        }),
{
    assert(lines.push(line).drop_last() == lines);
}

/// The first usage page of a descriptor counts: an item of another tag is passed
/// over with as many bytes of data as its two lowest bits say (four for three), and
/// a usage page is its data with the lowest byte first, of which two bytes count.
pub proof fn law_usage_page(b: u8, data: Seq<u8>, rest: Seq<u8>)
    requires
        data.len() == (if b % 4 == 3 {
            4
        } else {
            b as int % 4
        }),
    ensures
        usage_page_of(seq![]) is None,
        b / 4 != 1 ==> usage_page_of(seq![b] + data + rest) == usage_page_of(rest),
        b / 4 == 1 ==> usage_page_of(seq![b] + data + rest) == Some(
            ((if data.len() > 0 {
                data[0] as int
            } else {
                0
            }) + (if data.len() > 1 {
                256 * data[1]
            } else {
                0
            })) as u16,
        ),
{
    assert(b & 0x03 == b % 4 && (b & 0xFC == 0x04 <==> b / 4 == 1)) by (bit_vector);
    let d = seq![b] + data + rest;
    assert(item_size(b) == data.len());
    if b / 4 != 1 {
        assert(d.skip(1 + data.len() as int) == rest);
    }
}

/// A descriptor that breaks off in the data of its usage page is read as if zeros
/// followed, and one that breaks off before gives none.
pub proof fn law_usage_page_breaks_off(b: u8, lo: u8, hi: u8, data: Seq<u8>)
    ensures
        b / 4 == 1 && b % 4 >= 2 ==> usage_page_of(seq![b, lo, hi] + data) == Some(
            (hi * 256 + lo) as u16,
        ),
        b / 4 == 1 ==> usage_page_of(seq![b]) == Some(0u16),
        b / 4 == 1 && b % 4 >= 2 ==> usage_page_of(seq![b, lo]) == Some(lo as u16),
        b / 4 != 1 && data.len() <= (if b % 4 == 3 {
            4
        } else {
            b as int % 4
        }) ==> usage_page_of(seq![b] + data) is None,
{
    assert(b & 0x03 == b % 4 && (b & 0xFC == 0x04 <==> b / 4 == 1)) by (bit_vector);
}

/// A node's device: its path is that of the node under `/dev`, its IDs and its name
/// are those of the uevent, and its usage page is that of the descriptor, or zero
/// where there is none. A node without known IDs has no device.
pub proof fn law_device_of_node(node: HidrawNode)
    ensures
        node.uevent is None ==> device_of(node) is None,
        node.uevent matches Some(uevent) ==> {
            &&& device_of(node) is Some <==> ids_of(uevent@) is Some
            &&& device_of(node) matches Some(d) ==> {
                &&& ids_of(uevent@) == Some((d.vendor_id, d.product_id, d.product_name))
                &&& d.path == "/dev/"@ + node.name@
                &&& node.descriptor is None ==> d.usage_page == 0
                &&& node.descriptor matches Some(desc) ==> {
                    &&& usage_page_of(desc@) is None ==> d.usage_page == 0
                    &&& usage_page_of(desc@) matches Some(page) ==> d.usage_page == page
                }
            }
        },
{
}

/// The devices come in the order of their nodes: of two lists of nodes, one behind
/// the other, those of the first and then those of the second; and a node's device,
/// where it has one, is there once.
pub proof fn law_devices_in_order(a: Seq<HidrawNode>, b: Seq<HidrawNode>, node: HidrawNode)
    ensures
        devices_of(seq![]) == Seq::<HidDeviceView>::empty(),
        devices_of(seq![node]) == (match device_of(node) {
            Some(d) => seq![d],
            None => seq![],
        }),
        devices_of(a + b) == devices_of(a) + devices_of(b),
    decreases b.len(),
{
    let one = seq![node];
    assert(one.drop_last() == Seq::<HidrawNode>::empty());
    assert(devices_of(one.drop_last()) == Seq::<HidDeviceView>::empty());
    if b.len() == 0 {
        assert(a + b == a);
        assert(devices_of(a) + devices_of(b) == devices_of(a));
    } else {
        law_devices_in_order(a, b.drop_last(), node);
        assert((a + b).drop_last() == a + b.drop_last());
        assert((a + b).last() == b.last());
        if let Some(d) = device_of(b.last()) {
            assert((devices_of(a) + devices_of(b.drop_last())).push(d) == devices_of(a)
                + devices_of(b.drop_last()).push(d));
        }
    }
}

/// What a device shows is what it holds, each field under its own name; and a list of
/// devices shows them one for one and in order.
pub proof fn law_device_view(d: HidDevice, devices: Seq<HidDevice>)
    ensures
        d@.path == d.path@,
        d@.vendor_id == d.vendor_id,
        d@.product_id == d.product_id,
        d@.usage_page == d.usage_page,
        d@.product_name == d.product_name@,
        device_views(devices).len() == devices.len(),
        forall|i: int| 0 <= i < devices.len() ==> device_views(devices)[i] == (
        #[trigger] devices[i])@,
{
}

} // verus!
