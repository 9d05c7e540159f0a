//! Finding the display among the HID devices of the system.

use crate::error::DeviceError;
use crate::text;
use crate::text::{
    chars_of, contains_chars, contains_text, same_chars, to_lower, to_upper, trimmed, CharSet,
};
use vstd::prelude::*;

verus! {

/// The upper case of a text, as `str::to_uppercase` gives it.
pub uninterp spec fn unicode_upper(s: Seq<char>) -> Seq<char>;

/// Whether every character is ASCII.
pub open spec fn is_ascii_text(s: Seq<char>) -> bool {
    forall|i: int| 0 <= i < s.len() ==> (#[trigger] s[i]) as u32 <= 127
}

/// `str::to_uppercase`: the Unicode upper case of a text. Of a text in ASCII
/// it changes the letters `a` to `z` and nothing else.
#[verifier::external_body]
fn uppercase(s: &str) -> (res: String)
    ensures
        res@ == unicode_upper(s@),
        is_ascii_text(s@) ==> res@ == text::upper(s@),
{
    s.to_uppercase()
}

/// What `sysfs` tells of a USB device: the raw contents of its attribute
/// files, as far as they could be read.
#[derive(Clone, Debug)]
pub struct UsbNode {
    pub id_vendor: Option<String>,
    pub id_product: Option<String>,
    pub product: Option<String>,
    pub manufacturer: Option<String>,
    pub serial: Option<String>,
    pub bcd_device: Option<String>,
}

/// The text of a USB device's attributes.
pub struct UsbNodeView {
    pub id_vendor: Option<Seq<char>>,
    pub id_product: Option<Seq<char>>,
    pub product: Option<Seq<char>>,
    pub manufacturer: Option<Seq<char>>,
    pub serial: Option<Seq<char>>,
    pub bcd_device: Option<Seq<char>>,
}

impl View for UsbNode {
    type V = UsbNodeView;

    open spec fn view(&self) -> UsbNodeView {
        UsbNodeView {
            id_vendor: text::opt_text(self.id_vendor),
            id_product: text::opt_text(self.id_product),
            product: text::opt_text(self.product),
            manufacturer: text::opt_text(self.manufacturer),
            serial: text::opt_text(self.serial),
            bcd_device: text::opt_text(self.bcd_device),
        }
    }
}

/// One entry of `/sys/class/hidraw`: its name, the contents of its `uevent`
/// file, where its link leads, and the devices above it, nearest first.
#[derive(Clone, Debug)]
pub struct HidrawEntry {
    pub name: String,
    pub uevent: String,
    pub link: String,
    pub ancestors: Vec<UsbNode>,
}

/// The text of an entry.
pub struct HidrawView {
    pub name: Seq<char>,
    pub uevent: Seq<char>,
    pub link: Seq<char>,
    pub ancestors: Seq<UsbNodeView>,
}

/// The attributes of a list of USB devices.
pub open spec fn nodes(v: Seq<UsbNode>) -> Seq<UsbNodeView> {
    Seq::new(v.len(), |i: int| v[i]@)
}

impl View for HidrawEntry {
    type V = HidrawView;

    open spec fn view(&self) -> HidrawView {
        HidrawView {
            name: self.name@,
            uevent: self.uevent@,
            link: self.link@,
            ancestors: nodes(self.ancestors@),
        }
    }
}

/// The text of a list of entries.
pub open spec fn entries_view(v: Seq<HidrawEntry>) -> Seq<HidrawView> {
    Seq::new(v.len(), |i: int| v[i]@)
}

/// Whether an upper-case `uevent` text names the display.
pub open spec fn names_display(uevent: Seq<char>) -> bool {
    text::occurs(uevent, "264A"@) && text::occurs(uevent, "233C"@)
}

/// The device file of an entry.
pub open spec fn device_file(name: Seq<char>) -> Seq<char> {
    "/dev/"@ + name
}

/// The device file of the last entry that satisfies `f`.
pub open spec fn last_file(s: Seq<HidrawView>, f: spec_fn(HidrawView) -> bool) -> Option<Seq<char>>
    decreases s.len(),
{
    if s.len() == 0 {
        None
    } else if f(s.last()) {
        Some(device_file(s.last().name))
    } else {
        last_file(s.drop_last(), f)
    }
}

/// Whether an entry is the control interface of the display.
pub open spec fn is_control(e: HidrawView) -> bool {
    names_display(unicode_upper(e.uevent)) && text::occurs(e.link, ":1.0"@)
}

/// Whether an entry is the image interface of the display.
pub open spec fn is_image(e: HidrawView) -> bool {
    names_display(unicode_upper(e.uevent)) && !text::occurs(e.link, ":1.0"@) && text::occurs(
        e.link,
        ":1.1"@,
    )
}

/// The device files of the two interfaces of the display.
#[derive(Clone, Debug)]
pub struct Interfaces {
    pub control: Option<String>,
    pub image: Option<String>,
}

impl Interfaces {
    /// The device file of the control interface.
    pub fn control_file(&self) -> (res: Result<String, DeviceError>)
        ensures
            res matches Ok(p) ==> text::opt_text(self.control) == Some(p@),
            res matches Err(e) ==> self.control is None && e == DeviceError::ControlNotFound,
    {
        match &self.control {
            Some(p) => Ok(p.clone()),
            None => Err(DeviceError::ControlNotFound),
        }
    }

    /// The device file of the image interface.
    pub fn image_file(&self) -> (res: Result<String, DeviceError>)
        ensures
            res matches Ok(p) ==> text::opt_text(self.image) == Some(p@),
            res matches Err(e) ==> self.image is None && e == DeviceError::ImageNotFound,
    {
        match &self.image {
            Some(p) => Ok(p.clone()),
            None => Err(DeviceError::ImageNotFound),
        }
    }
}

fn device_file_of(name: &str) -> (res: String)
    ensures
        res@ == device_file(name@),
{
    let mut file = String::new();
    file.append("/dev/");
    file.append(name);
    assert(file@ == device_file(name@));
    file
}

fn names_display_test(uevent: &[char]) -> (res: bool)
    ensures
        res == names_display(uevent@),
{
    let vid = chars_of("264A");
    let pid = chars_of("233C");
    contains_chars(uevent, vid.as_slice()) && contains_chars(uevent, pid.as_slice())
}

/// Selects the interfaces of the display. Where several entries are the same
/// interface, the last one counts.
pub fn find_interfaces(entries: &[HidrawEntry]) -> (res: Interfaces)
    ensures
        text::opt_text(res.control) == last_file(
            entries_view(entries@),
            |e: HidrawView| is_control(e),
        ),
        text::opt_text(res.image) == last_file(entries_view(entries@), |e: HidrawView| is_image(e)),
{
    let ghost all = entries_view(entries@);
    let ghost fc = |e: HidrawView| is_control(e);
    let ghost fi = |e: HidrawView| is_image(e);
    let mut control: Option<String> = None;
    let mut image: Option<String> = None;
    let mut i: usize = 0;
    while i < entries.len()
        invariant
            i <= entries@.len(),
            all == entries_view(entries@),
            fc == (|e: HidrawView| is_control(e)),
            fi == (|e: HidrawView| is_image(e)),
            text::opt_text(control) == last_file(all.take(i as int), fc),
            text::opt_text(image) == last_file(all.take(i as int), fi),
        decreases entries@.len() - i,
    {
        let e = &entries[i];
        let ghost next = all.take(i + 1);
        assert(next.drop_last() == all.take(i as int));
        assert(next.last() == e@);
        let upper = uppercase(e.uevent.as_str());
        let uevent = chars_of(upper.as_str());
        if names_display_test(uevent.as_slice()) {
            let file = device_file_of(e.name.as_str());
            if contains_text(e.link.as_str(), ":1.0") {
                control = Some(file);
            } else if contains_text(e.link.as_str(), ":1.1") {
                image = Some(file);
            }
        }
        i = i + 1;
    }
    assert(all.take(i as int) == all);
    Interfaces { control, image }
}

// ── Device information ───────────────────────────────────────────────────────

/// What is shown of the display.
#[derive(Clone, Debug)]
pub struct DeviceInfo {
    pub connected: bool,
    pub vid: String,
    pub pid: String,
    pub product: Option<String>,
    pub manufacturer: Option<String>,
    pub serial: Option<String>,
    pub revision: Option<String>,
    pub control_hidraw: Option<String>,
    pub image_hidraw: Option<String>,
}

/// A text without surrounding white space, if anything is left of it.
pub open spec fn trimmed_value(s: Option<Seq<char>>) -> Option<Seq<char>> {
    match s {
        Some(t) => if text::trim(t, CharSet::White).len() > 0 {
            Some(text::trim(t, CharSet::White))
        } else {
            None
        },
        None => None,
    }
}

/// Whether an attribute holds the given lower-case identifier, in any case.
pub open spec fn holds_id(s: Option<Seq<char>>, id: Seq<char>) -> bool {
    s matches Some(t) && text::lower(text::trim(t, CharSet::White)) == id
}

/// Whether a USB device is the display.
pub open spec fn is_display(n: UsbNodeView) -> bool {
    holds_id(n.id_vendor, "264a"@) && holds_id(n.id_product, "233c"@)
}

/// The first device of the list that is the display.
pub open spec fn first_display(s: Seq<UsbNodeView>) -> Option<UsbNodeView>
    decreases s.len(),
{
    if s.len() == 0 {
        None
    } else if is_display(s[0]) {
        Some(s[0])
    } else {
        first_display(s.skip(1))
    }
}

/// Whether an entry belongs to the display.
pub open spec fn is_attached(e: HidrawView) -> bool {
    names_display(text::upper(e.uevent))
}

/// The USB device of the last entry that belongs to the display and has one.
pub open spec fn display_node(s: Seq<HidrawView>) -> Option<UsbNodeView>
    decreases s.len(),
{
    if s.len() == 0 {
        None
    } else if is_attached(s.last()) && first_display(s.last().ancestors) is Some {
        first_display(s.last().ancestors)
    } else {
        display_node(s.drop_last())
    }
}

/// An attribute of the display's USB device.
pub open spec fn attribute(
    s: Seq<HidrawView>,
    f: spec_fn(UsbNodeView) -> Option<Seq<char>>,
) -> Option<Seq<char>> {
    match display_node(s) {
        Some(n) => trimmed_value(f(n)),
        None => None,
    }
}

impl DeviceInfo {
    /// Whether this is what the entries tell of the display.
    pub open spec fn describes(self, s: Seq<HidrawView>) -> bool {
        &&& self.connected == (exists|i: int| 0 <= i < s.len() && is_attached(#[trigger] s[i]))
        &&& self.vid@ == "264a"@
        &&& self.pid@ == "233c"@
        &&& text::opt_text(self.product) == attribute(s, |n: UsbNodeView| n.product)
        &&& text::opt_text(self.manufacturer) == attribute(s, |n: UsbNodeView| n.manufacturer)
        &&& text::opt_text(self.serial) == attribute(s, |n: UsbNodeView| n.serial)
        &&& text::opt_text(self.revision) == attribute(s, |n: UsbNodeView| n.bcd_device)
        &&& text::opt_text(self.control_hidraw) == last_file(
            s,
            |e: HidrawView| is_attached(e) && text::occurs(e.link, ":1.0"@),
        )
        &&& text::opt_text(self.image_hidraw) == last_file(
            s,
            |e: HidrawView| is_attached(e) && text::occurs(e.link, ":1.1"@),
        )
    }
}

/// White space removed from an attribute, if anything is left of it.
pub fn read_trimmed(value: &Option<String>) -> (res: Option<String>)
    ensures
        text::opt_text(res) == trimmed_value(text::opt_text(*value)),
{
    match value {
        Some(v) => {
            let chars = chars_of(v.as_str());
            let t = trimmed(chars.as_slice(), CharSet::White);
            if t.len() > 0 {
                Some(text::text_of(t.as_slice()))
            } else {
                None
            }
        },
        None => None,
    }
}

fn holds_id_test(value: &Option<String>, id: &str) -> (res: bool)
    ensures
        res == holds_id(text::opt_text(*value), id@),
{
    match value {
        Some(v) => {
            let chars = chars_of(v.as_str());
            let t = trimmed(chars.as_slice(), CharSet::White);
            let low = to_lower(t.as_slice());
            let want = chars_of(id);
            same_chars(low.as_slice(), want.as_slice())
        },
        None => false,
    }
}

/// The position of the first device that is the display, or the length.
fn find_display(list: &Vec<UsbNode>) -> (res: usize)
    ensures
        res <= list@.len(),
        first_display(nodes(list@)) == (if res < list@.len() {
            Some(list@[res as int]@)
        } else {
            None
        }),
{
    let ghost all = nodes(list@);
    let mut i: usize = 0;
    assert(all.skip(0) == all);
    while i < list.len()
        invariant
            i <= list@.len(),
            all == nodes(list@),
            first_display(all) == first_display(all.skip(i as int)),
        decreases list@.len() - i,
    {
        assert(all.skip(i as int)[0] == list@[i as int]@);
        assert(all.skip(i as int).skip(1) == all.skip(i + 1));
        if holds_id_test(&list[i].id_vendor, "264a") && holds_id_test(&list[i].id_product, "233c") {
            return i;
        }
        i = i + 1;
    }
    i
}

/// What the entries of `/sys/class/hidraw` tell of the display.
pub fn detect_device_info(entries: &[HidrawEntry]) -> (res: DeviceInfo)
    ensures
        res.describes(entries_view(entries@)),
{
    let ghost all = entries_view(entries@);
    let mut info = DeviceInfo {
        connected: false,
        vid: "264a".to_string(),
        pid: "233c".to_string(),
        product: None,
        manufacturer: None,
        serial: None,
        revision: None,
        control_hidraw: None,
        image_hidraw: None,
    };
    let mut i: usize = 0;
    while i < entries.len()
        invariant
            i <= entries@.len(),
            all == entries_view(entries@),
            info.describes(all.take(i as int)),
        decreases entries@.len() - i,
    {
        let e = &entries[i];
        let ghost prev = all.take(i as int);
        let ghost next = all.take(i + 1);
        let ghost before = info;
        assert(next.drop_last() == prev);
        assert(next.last() == e@);
        let raw = chars_of(e.uevent.as_str());
        let uevent = to_upper(raw.as_slice());
        let attached = names_display_test(uevent.as_slice());
        assert(attached == is_attached(next.last()));
        if attached {
            info.connected = true;
            assert(is_attached(next[i as int]));
            if contains_text(e.link.as_str(), ":1.0") {
                info.control_hidraw = Some(device_file_of(e.name.as_str()));
            }
            if contains_text(e.link.as_str(), ":1.1") {
                info.image_hidraw = Some(device_file_of(e.name.as_str()));
            }
            let at = find_display(&e.ancestors);
            if at < e.ancestors.len() {
                let node = &e.ancestors[at];
                info.product = read_trimmed(&node.product);
                info.manufacturer = read_trimmed(&node.manufacturer);
                info.serial = read_trimmed(&node.serial);
                info.revision = read_trimmed(&node.bcd_device);
            }
        }
        proof {
            if before.connected {
                let k = choose|k: int| 0 <= k < prev.len() && is_attached(#[trigger] prev[k]);
                assert(next[k] == prev[k]);
            }
            if !info.connected {
                assert forall|k: int| 0 <= k < next.len() implies !is_attached(#[trigger] next[k]) by {
                    if k < i {
                        assert(next[k] == prev[k]);
                    }
                }
            }
        }
        i = i + 1;
    }
    assert(all.take(i as int) == all);
    info
}

// ── Laws ─────────────────────────────────────────────────────────────────────

proof fn lemma_no_file(s: Seq<HidrawView>, f: spec_fn(HidrawView) -> bool)
    requires
        forall|i: int| 0 <= i < s.len() ==> !f(#[trigger] s[i]),
    ensures
        last_file(s, f) is None,
    decreases s.len(),
{
    if s.len() > 0 {
        assert forall|i: int| 0 <= i < s.drop_last().len() implies !f(#[trigger] s.drop_last()[i]) by {
            assert(s.drop_last()[i] == s[i]);
        }
        lemma_no_file(s.drop_last(), f);
    }
}

proof fn lemma_last_file(s: Seq<HidrawView>, f: spec_fn(HidrawView) -> bool, k: int)
    requires
        0 <= k < s.len(),
        f(s[k]),
        forall|i: int| k < i < s.len() ==> !f(#[trigger] s[i]),
    ensures
        last_file(s, f) == Some(device_file(s[k].name)),
    decreases s.len(),
{
    if k < s.len() - 1 {
        assert(!f(s[s.len() - 1]));
        assert forall|i: int| k < i < s.drop_last().len() implies !f(#[trigger] s.drop_last()[i]) by {
            assert(s.drop_last()[i] == s[i]);
        }
        lemma_last_file(s.drop_last(), f, k);
    }
}

/// The two interfaces are told apart: where only the entries `c` and `i` name the
/// vendor 264A and the product 233C, and the link of the first leads to interface
/// 0 and that of the second to interface 1, the commands go to the file of the
/// first and the pictures to the file of the second.
pub proof fn law_interfaces_are_told_apart(s: Seq<HidrawView>, c: int, i: int)
    requires
        0 <= c < s.len(),
        0 <= i < s.len(),
        text::occurs(unicode_upper(s[c].uevent), "264A"@),
        text::occurs(unicode_upper(s[c].uevent), "233C"@),
        text::occurs(s[c].link, ":1.0"@),
        text::occurs(unicode_upper(s[i].uevent), "264A"@),
        text::occurs(unicode_upper(s[i].uevent), "233C"@),
        text::occurs(s[i].link, ":1.1"@),
        !text::occurs(s[i].link, ":1.0"@),
        forall|k: int|
            0 <= k < s.len() && k != c && k != i ==> !text::occurs(
                unicode_upper((#[trigger] s[k]).uevent),
                "264A"@,
            ) || !text::occurs(unicode_upper(s[k].uevent), "233C"@),
    ensures
        last_file(s, |e: HidrawView| is_control(e)) == Some("/dev/"@ + s[c].name),
        last_file(s, |e: HidrawView| is_image(e)) == Some("/dev/"@ + s[i].name),
{
    lemma_last_file(s, |e: HidrawView| is_control(e), c);
    lemma_last_file(s, |e: HidrawView| is_image(e), i);
}

/// A device of another vendor, or another product of the vendor, is not taken for
/// the display.
pub proof fn law_other_devices_are_ignored(s: Seq<HidrawView>)
    requires
        forall|k: int|
            0 <= k < s.len() ==> !text::occurs(
                unicode_upper((#[trigger] s[k]).uevent),
                "264A"@,
            ) || !text::occurs(unicode_upper(s[k].uevent), "233C"@),
    ensures
        last_file(s, |e: HidrawView| is_control(e)) is None,
        last_file(s, |e: HidrawView| is_image(e)) is None,
{
    lemma_no_file(s, |e: HidrawView| is_control(e));
    lemma_no_file(s, |e: HidrawView| is_image(e));
}

proof fn lemma_display_node(s: Seq<HidrawView>, k: int)
    requires
        0 <= k < s.len(),
        is_attached(s[k]),
        first_display(s[k].ancestors) is Some,
        forall|j: int| k < j < s.len() ==> !is_attached(#[trigger] s[j]),
    ensures
        display_node(s) == first_display(s[k].ancestors),
    decreases s.len(),
{
    if k < s.len() - 1 {
        assert(!is_attached(s[s.len() - 1]));
        assert forall|j: int| k < j < s.drop_last().len() implies !is_attached(
            #[trigger] s.drop_last()[j],
        ) by {
            assert(s.drop_last()[j] == s[j]);
        }
        lemma_display_node(s.drop_last(), k);
    }
}

proof fn lemma_first_display(s: Seq<UsbNodeView>, n: int)
    requires
        0 <= n < s.len(),
        is_display(s[n]),
        forall|j: int| 0 <= j < n ==> !is_display(#[trigger] s[j]),
    ensures
        first_display(s) == Some(s[n]),
    decreases n,
{
    if n > 0 {
        assert(!is_display(s[0]));
        assert(s.skip(1)[n - 1] == s[n]);
        assert forall|j: int| 0 <= j < n - 1 implies !is_display(#[trigger] s.skip(1)[j]) by {
            assert(s.skip(1)[j] == s[j + 1]);
        }
        lemma_first_display(s.skip(1), n - 1);
    }
}

/// What is shown of the display comes from the attributes of its USB device, each
/// from its own file, without surrounding white space: of the nearest device above
/// the entry whose vendor is 264a and whose product is 233c.
pub proof fn law_attributes_are_shown(info: DeviceInfo, s: Seq<HidrawView>, k: int, n: int)
    requires
        info.describes(s),
        0 <= k < s.len(),
        text::occurs(text::upper(s[k].uevent), "264A"@),
        text::occurs(text::upper(s[k].uevent), "233C"@),
        forall|j: int| k < j < s.len() ==> !is_attached(#[trigger] s[j]),
        0 <= n < s[k].ancestors.len(),
        holds_id(s[k].ancestors[n].id_vendor, "264a"@),
        holds_id(s[k].ancestors[n].id_product, "233c"@),
        forall|j: int| 0 <= j < n ==> !is_display(#[trigger] s[k].ancestors[j]),
    ensures
        ({
            let node = s[k].ancestors[n];
            &&& info.connected
            &&& is_shown(text::opt_text(info.product), node.product)
            &&& is_shown(text::opt_text(info.manufacturer), node.manufacturer)
            &&& is_shown(text::opt_text(info.serial), node.serial)
            &&& is_shown(text::opt_text(info.revision), node.bcd_device)
        }),
{
    let node = s[k].ancestors[n];
    assert(is_attached(s[k]));
    lemma_first_display(s[k].ancestors, n);
    lemma_display_node(s, k);
    lemma_shown(node.product);
    lemma_shown(node.manufacturer);
    lemma_shown(node.serial);
    lemma_shown(node.bcd_device);
}

/// Whether `shown` is the text of a file without surrounding white space, or
/// nothing if that leaves nothing.
pub open spec fn is_shown(shown: Option<Seq<char>>, file: Option<Seq<char>>) -> bool {
    match file {
        Some(t) => match shown {
            Some(v) => v.len() > 0 && !text::is_white(v[0]) && !text::is_white(v.last())
                && text::occurs(t, v),
            None => forall|i: int| 0 <= i < t.len() ==> text::is_white(#[trigger] t[i]),
        },
        None => shown is None,
    }
}

proof fn lemma_blank(t: Seq<char>)
    requires
        text::trim_end(t, CharSet::White).len() == 0,
    ensures
        forall|i: int| 0 <= i < t.len() ==> text::is_white(#[trigger] t[i]),
    decreases t.len(),
{
    if t.len() > 0 {
        lemma_blank(t.drop_last());
        assert forall|i: int| 0 <= i < t.len() implies text::is_white(#[trigger] t[i]) by {
            if i < t.len() - 1 {
                assert(t.drop_last()[i] == t[i]);
            }
        }
    }
}

proof fn lemma_blank_start(t: Seq<char>)
    requires
        text::trim(t, CharSet::White).len() == 0,
    ensures
        forall|i: int| 0 <= i < t.len() ==> text::is_white(#[trigger] t[i]),
    decreases t.len(),
{
    if t.len() > 0 && text::is_white(t[0]) {
        lemma_blank_start(t.skip(1));
        assert forall|i: int| 0 <= i < t.len() implies text::is_white(#[trigger] t[i]) by {
            if i > 0 {
                assert(t.skip(1)[i - 1] == t[i]);
            }
        }
    } else {
        lemma_blank(t);
    }
}

proof fn lemma_shown(file: Option<Seq<char>>)
    ensures
        is_shown(trimmed_value(file), file),
{
    if let Some(t) = file {
        let v = text::trim(t, CharSet::White);
        text::law_trim(t, CharSet::White);
        if v.len() == 0 {
            lemma_blank_start(t);
        } else {
            let (a, b) = choose|a: int, b: int|
                0 <= a <= b <= t.len() && #[trigger] t.subrange(a, b) == v;
            assert(text::occurs_at(t, v, a));
        }
    }
}

} // verus!
