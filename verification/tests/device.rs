use th420_display::device::{
    parse_liquid_temp, poll_read, Device, OpenStep, Transfer, Wait, CTRL_SIZE, FLASH_CHUNK_SIZE,
    IMG_DATA_SIZE, IMG_PKT_SIZE,
};
use th420_display::error::DeviceError;
use th420_display::hidraw::HidrawEntry;

fn control(t: &Transfer) -> &[u8] {
    match t {
        Transfer::ControlWrite(r) => r,
        other => panic!("expected a control report, got {other:?}"),
    }
}

fn image(t: &Transfer) -> &[u8] {
    match t {
        Transfer::ImageWrite(r) => r,
        other => panic!("expected an image report, got {other:?}"),
    }
}

#[test]
fn coolant_temperature_uses_encoded_status_field() {
    let mut response = [0u8; CTRL_SIZE];
    response[..8].copy_from_slice(&[0x80, 0x01, 0x00, 0x80, 0x3e, 0x3f, 0x09, 0x10]);

    assert_eq!(f32::from(parse_liquid_temp(&response).unwrap()), 26.0);
    response[5] = 0;
    assert!(parse_liquid_temp(&response).is_err());
}

#[test]
fn coolant_temperature_edges() {
    let mut response = [0u8; CTRL_SIZE];
    response[4] = 0x24;
    response[5] = 0x25;
    assert_eq!(parse_liquid_temp(&response).unwrap(), 0);
    response[4] = 0x23;
    response[5] = 0x24;
    assert_eq!(
        parse_liquid_temp(&response).unwrap_err(),
        DeviceError::InvalidTemperature
    );
    // The check value does not wrap around.
    response[4] = 0xff;
    response[5] = 0xff;
    assert_eq!(parse_liquid_temp(&response).unwrap(), 0xff - 0x24);
    response[5] = 0x00;
    assert!(parse_liquid_temp(&response).is_err());
}

#[test]
fn frame_data_is_split_into_protocol_packets() {
    let jpeg = vec![0x5a; IMG_DATA_SIZE + 3];
    let transfers = Device::send_frame_data(&jpeg);
    let bytes: Vec<u8> = transfers.iter().flat_map(|t| image(t).to_vec()).collect();
    assert_eq!(bytes.len(), IMG_PKT_SIZE * 2);
    assert_eq!(&bytes[..4], &[0x08, 2, 0, 0x80]);
    assert_eq!(&bytes[4..4 + IMG_DATA_SIZE], &jpeg[..IMG_DATA_SIZE]);
    assert_eq!(&bytes[IMG_PKT_SIZE..IMG_PKT_SIZE + 4], &[0x08, 1, 0, 0]);
    assert_eq!(&bytes[IMG_PKT_SIZE + 4..IMG_PKT_SIZE + 7], &jpeg[IMG_DATA_SIZE..]);
}

#[test]
fn frame_reports_carry_the_whole_picture() {
    assert!(Device::send_frame_data(&[]).is_empty());
    let jpeg: Vec<u8> = (0..260_101u32).map(|n| (n % 251) as u8).collect();
    let transfers = Device::send_frame_data(&jpeg);
    // 256 reports: the number of reports wraps around to zero.
    assert_eq!(transfers.len(), 256);
    assert_eq!(&image(&transfers[0])[..4], &[0x08, 0, 0, 0x80]);
    assert_eq!(&image(&transfers[255])[..4], &[0x08, 255, 0, 0]);
    let stream: Vec<u8> = transfers.iter().flat_map(|t| image(t)[4..].to_vec()).collect();
    assert_eq!(&stream[..jpeg.len()], jpeg.as_slice());
    assert!(stream[jpeg.len()..].iter().all(|&b| b == 0));
}

#[test]
fn brightness_validates_range_and_writes_padded_command() {
    assert!(Device::set_brightness(101).is_err());
    let transfers = Device::set_brightness(42).unwrap();
    assert_eq!(transfers.len(), 1);
    let command = control(&transfers[0]);
    assert_eq!(command.len(), CTRL_SIZE);
    assert_eq!(&command[..5], &[0x12, 0x01, 0, 0x80, 42]);
    assert!(command[5..].iter().all(|&b| b == 0));
}

#[test]
fn brightness_error_has_its_text() {
    let e = Device::set_brightness(255).unwrap_err();
    assert_eq!(e, DeviceError::BrightnessOutOfRange);
    assert_eq!(e.message(), "brightness must be between 0 and 100");
    assert!(Device::set_brightness(100).is_ok());
    assert!(Device::set_brightness(0).is_ok());
}

#[test]
fn initialization_reads_a_response_to_each_command() {
    let transfers = Device::init();
    assert_eq!(transfers.len(), 18);
    let codes: Vec<u8> = transfers.chunks(3).map(|c| control(&c[0])[0]).collect();
    assert_eq!(codes, [0x85, 0x87, 0x85, 0x87, 0x84, 0x81]);
    for step in transfers.chunks(3) {
        assert_eq!(&control(&step[0])[1..4], &[0x01, 0x00, 0x80]);
        assert_eq!(control(&step[0]).len(), CTRL_SIZE);
        assert!(matches!(step[1], Transfer::ControlRead));
        assert!(matches!(step[2], Transfer::Pause(50)));
    }
}

#[test]
fn temperature_query_and_color_commands() {
    let query = Device::read_liquid_temp();
    assert_eq!(&control(&query[0])[..5], &[0x80, 0x01, 0x00, 0x80, 0]);
    assert!(matches!(query[1], Transfer::ControlRead));
    assert_eq!(query.len(), 2);

    let color = Device::set_pump_temperature_color([1, 2, 3]);
    assert_eq!(color.len(), 3);
    assert_eq!(&control(&color[0])[..9], &[0x16, 0x01, 0x00, 0x80, 1, 2, 3, 0xff, 0]);
    assert!(matches!(color[1], Transfer::Pause(300)));
    assert_eq!(control(&color[0]), control(&color[2]));
}

/// The uploaded bytes, put together from the reports, and the progress of each
/// chunk.
fn uploaded(transfers: &[Transfer]) -> (Vec<u8>, Vec<u32>) {
    let mut blob = Vec::new();
    let mut progress = Vec::new();
    let mut left = 0usize;
    for t in transfers {
        let Transfer::ControlWrite(r) = t else { continue };
        assert_eq!(r.len(), CTRL_SIZE);
        if r[0] != 0x0b {
            continue;
        }
        let data = if r[3] == 0x80 {
            let offset = u32::from_le_bytes(r[4..8].try_into().unwrap());
            assert_eq!(offset as usize, blob.len());
            left = u32::from_le_bytes(r[8..12].try_into().unwrap()) as usize;
            progress.push(u32::from_le_bytes(r[12..16].try_into().unwrap()));
            &r[16..]
        } else {
            &r[4..]
        };
        let n = left.min(data.len());
        blob.extend_from_slice(&data[..n]);
        assert!(data[n..].iter().all(|&b| b == 0));
        left -= n;
    }
    (blob, progress)
}

#[test]
fn standby_upload_carries_the_picture() {
    let jpeg: Vec<u8> = (0..25_000u32).map(|n| (n % 253) as u8).collect();
    let transfers = Device::upload_standby(&jpeg).unwrap();
    let (blob, progress) = uploaded(&transfers);
    assert_eq!(blob, jpeg);
    assert_eq!(progress, [40, 81, 100]);
    assert_eq!(&control(&transfers[0])[..4], &[0x82, 0x01, 0x00, 0x80]);
    assert!(matches!(transfers[1], Transfer::ControlRead));
    let open = control(&transfers[2]);
    assert_eq!(&open[..8], &[0x0a, 0x01, 0x00, 0x80, 0x00, 0, 0, 0]);
    assert_eq!(u32::from_le_bytes(open[8..12].try_into().unwrap()), 25_000);
    // One response per chunk, besides those of the opening and the closing.
    let reads = transfers.iter().filter(|t| matches!(t, Transfer::ControlRead)).count();
    assert_eq!(reads, 2 + 3 + 1);
    let n = transfers.len();
    assert_eq!(&control(&transfers[n - 2])[..4], &[0x82, 0x01, 0x00, 0x80]);
    assert!(matches!(transfers[n - 1], Transfer::ControlRead));
}

#[test]
fn flash_chunk_layout_is_exact() {
    // A full chunk needs 24 reports, of which the last holds 220 bytes.
    let jpeg = vec![7u8; FLASH_CHUNK_SIZE];
    let transfers = Device::upload_standby(&jpeg).unwrap();
    let reports: Vec<&[u8]> = transfers
        .iter()
        .filter_map(|t| match t {
            Transfer::ControlWrite(r) if r[0] == 0x0b => Some(r.as_slice()),
            _ => None,
        })
        .collect();
    assert_eq!(reports.len(), 24);
    assert_eq!(&reports[0][..4], &[0x0b, 24, 0, 0x80]);
    assert_eq!(&reports[1][..4], &[0x0b, 1, 0, 0]);
    assert_eq!(&reports[23][..4], &[0x0b, 23, 0, 0]);
    let last = FLASH_CHUNK_SIZE - 424 - 22 * 436;
    assert!(reports[23][4..4 + last].iter().all(|&b| b == 7));
    assert!(reports[23][4 + last..].iter().all(|&b| b == 0));
    // 420 bytes fit into one report together with the head.
    let small = Device::upload_standby(&vec![9u8; 420]).unwrap();
    let (blob, progress) = uploaded(&small);
    assert_eq!(blob.len(), 420);
    assert_eq!(progress, [100]);
    // 424 bytes leave a second report without data.
    let two = Device::upload_standby(&vec![9u8; 424]).unwrap();
    let count = two
        .iter()
        .filter(|t| matches!(t, Transfer::ControlWrite(r) if r[0] == 0x0b))
        .count();
    assert_eq!(count, 2);
}

#[test]
fn boot_upload_commits_the_delay() {
    let container = vec![3u8; 100];
    let transfers = Device::upload_boot(&container, 200).unwrap();
    let (blob, _) = uploaded(&transfers);
    assert_eq!(blob, container);
    assert_eq!(control(&transfers[2])[4], 0x01);
    let n = transfers.len();
    assert!(matches!(transfers[n - 5], Transfer::Pause(80)));
    assert_eq!(&control(&transfers[n - 4])[..9], &[0x14, 0x01, 0x00, 0x80, 0xc7, 0, 0, 0, 0]);
    assert!(matches!(transfers[n - 3], Transfer::Pause(20)));
    let slow = Device::upload_boot(&container, 800).unwrap();
    assert_eq!(&control(&slow[slow.len() - 4])[4..8], &[0x1f, 0x03, 0, 0]);
}

#[test]
fn uploads_are_refused_with_their_reason() {
    assert_eq!(Device::upload_standby(&[]).unwrap_err(), DeviceError::EmptyStandby);
    assert_eq!(Device::upload_boot(&[], 100).unwrap_err(), DeviceError::EmptyBootContainer);
    assert_eq!(Device::upload_boot(&[1], 79).unwrap_err(), DeviceError::BootDelayTooShort);
    assert!(Device::upload_boot(&[1], 80).is_ok());
    assert_eq!(DeviceError::EmptyStandby.message(), "standby JPEG is empty");
    assert_eq!(DeviceError::StandbyTooLarge.message(), "standby JPEG is too large");
    assert_eq!(DeviceError::EmptyBootContainer.message(), "boot container is empty");
    assert_eq!(
        DeviceError::BootDelayTooShort.message(),
        "boot frame delay must be at least 80 ms"
    );
    assert_eq!(
        DeviceError::InvalidTemperature.message(),
        "invalid liquid-temperature response"
    );
}

#[test]
fn waiting_for_a_response() {
    assert_eq!(poll_read(1), Wait::Ready);
    assert_eq!(poll_read(0), Wait::TimedOut);
    assert_eq!(poll_read(-1), Wait::Failed);
    assert_eq!(DeviceError::NoResponse.message(), "device did not respond");
}

#[test]
fn display_is_opened_interface_by_interface() {
    let entry = |name: &str, link: &str| HidrawEntry {
        name: name.to_string(),
        uevent: "HID_ID=0003:0000264A:0000233C".to_string(),
        link: link.to_string(),
        ancestors: vec![],
    };
    let both = Device::open(&[entry("hidraw4", "1-2:1.1"), entry("hidraw3", "1-2:1.0")]);
    assert!(matches!(&both[0], OpenStep::Control(p) if p == "/dev/hidraw3"));
    assert!(matches!(&both[1], OpenStep::Image(p) if p == "/dev/hidraw4"));
    let none = Device::open(&[]);
    assert_eq!(none.len(), 1);
    assert!(matches!(none[0], OpenStep::Fail(DeviceError::ControlNotFound)));
    let half = Device::open(&[entry("hidraw3", "1-2:1.0")]);
    assert!(matches!(half[0], OpenStep::Control(_)));
    assert!(matches!(half[1], OpenStep::Fail(DeviceError::ImageNotFound)));
}
