use th420_display::error::DeviceError;
use th420_display::hidraw::{
    detect_device_info, find_interfaces, read_trimmed, HidrawEntry, UsbNode,
};

fn node(vendor: &str, product: &str) -> UsbNode {
    UsbNode {
        id_vendor: Some(vendor.to_string()),
        id_product: Some(product.to_string()),
        product: Some(" TH420 \n".to_string()),
        manufacturer: Some("\n".to_string()),
        serial: None,
        bcd_device: Some("0100\n".to_string()),
    }
}

fn entry(name: &str, uevent: &str, link: &str) -> HidrawEntry {
    HidrawEntry {
        name: name.to_string(),
        uevent: uevent.to_string(),
        link: link.to_string(),
        ancestors: vec![node("1d6b", "0002"), node("264A\n", "233c\n")],
    }
}

#[test]
fn interfaces_are_found_by_link() {
    let entries = vec![
        entry("hidraw0", "HID_ID=0003:0000046D:0000C52B", "../../1-1:1.0/x"),
        entry("hidraw3", "hid_id=0003:0000264a:0000233c", "../../1-2:1.0/x"),
        entry("hidraw4", "HID_ID=0003:0000264A:0000233C", "../../1-2:1.1/x"),
    ];
    let found = find_interfaces(&entries);
    assert_eq!(found.control_file().unwrap(), "/dev/hidraw3");
    assert_eq!(found.image_file().unwrap(), "/dev/hidraw4");
}

#[test]
fn the_last_interface_counts() {
    let entries = vec![
        entry("hidraw1", "264a 233c", ":1.0"),
        entry("hidraw2", "264a 233c", ":1.0 :1.1"),
    ];
    let found = find_interfaces(&entries);
    assert_eq!(found.control.as_deref(), Some("/dev/hidraw2"));
    assert!(found.image.is_none());
}

#[test]
fn upper_case_is_unicode() {
    // The upper case of this letter begins with a plain A.
    let entries = vec![entry("hidraw1", "264\u{1e9a} 233c", ":1.0")];
    assert_eq!(find_interfaces(&entries).control.as_deref(), Some("/dev/hidraw1"));
    assert!(!detect_device_info(&entries).connected);
}

#[test]
fn missing_interfaces_are_named() {
    let found = find_interfaces(&[]);
    assert_eq!(found.control_file().unwrap_err(), DeviceError::ControlNotFound);
    assert_eq!(found.image_file().unwrap_err(), DeviceError::ImageNotFound);
    assert_eq!(
        DeviceError::ControlNotFound.message(),
        "TH420 control interface not found (VID 264A PID 233C)"
    );
    assert_eq!(DeviceError::ImageNotFound.message(), "TH420 image interface not found");
}

#[test]
fn device_info_comes_from_the_usb_device() {
    let entries = vec![
        entry("hidraw3", "0000264a:0000233c", "1-2:1.0"),
        entry("hidraw4", "0000264a:0000233c", "1-2:1.1"),
    ];
    let info = detect_device_info(&entries);
    assert!(info.connected);
    assert_eq!((info.vid.as_str(), info.pid.as_str()), ("264a", "233c"));
    assert_eq!(info.product.as_deref(), Some("TH420"));
    assert_eq!(info.manufacturer, None);
    assert_eq!(info.serial, None);
    assert_eq!(info.revision.as_deref(), Some("0100"));
    assert_eq!(info.control_hidraw.as_deref(), Some("/dev/hidraw3"));
    assert_eq!(info.image_hidraw.as_deref(), Some("/dev/hidraw4"));
    let none = detect_device_info(&[]);
    assert!(!none.connected);
    assert_eq!(none.vid, "264a");
}

#[test]
fn trimmed_values_are_not_empty() {
    assert_eq!(read_trimmed(&Some("  a b \n".to_string())).as_deref(), Some("a b"));
    assert_eq!(read_trimmed(&Some(" \n".to_string())), None);
    assert_eq!(read_trimmed(&None), None);
}
