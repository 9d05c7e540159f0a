use th420_display::boot::build_boot_container;
use th420_display::error::DeviceError;

#[test]
fn boot_container_has_verified_offsets_and_checksum() {
    let container = build_boot_container(&[vec![1, 2, 3, 4], vec![5, 6, 7]]).unwrap();

    assert_eq!(container.len(), 103);
    assert_eq!(i32::from_le_bytes(container[0..4].try_into().unwrap()), -137);
    assert_eq!(u32::from_le_bytes(container[4..8].try_into().unwrap()), 87);
    assert_eq!(u32::from_le_bytes(container[8..12].try_into().unwrap()), 32);
    assert_eq!(&container[16..32], b"Update_Boot_GIF\0");
    assert_eq!(i32::from_le_bytes(container[32..36].try_into().unwrap()), -76);
    assert_eq!(u32::from_le_bytes(container[36..40].try_into().unwrap()), 64);
    assert_eq!(u32::from_le_bytes(container[40..44].try_into().unwrap()), 4);
    assert_eq!(i32::from_le_bytes(container[48..52].try_into().unwrap()), -87);
    assert_eq!(u32::from_le_bytes(container[52..56].try_into().unwrap()), 76);
    assert_eq!(&container[64..76], b"000.jpg\0\x01\x02\x03\x04");
    assert_eq!(&container[76..87], b"001.jpg\0\x05\x06\x07");
    assert_eq!(&container[87..102], &[0; 15]);
    assert_eq!(container[102], 0x10);
}

#[test]
fn boot_container_rejects_empty_frames_and_too_many_frames() {
    assert!(build_boot_container(&[]).is_err());
    assert!(build_boot_container(&[vec![]]).is_err());
    assert!(build_boot_container(&vec![vec![1]; 256]).is_err());
}

#[test]
fn boot_container_names_each_refusal() {
    assert_eq!(build_boot_container(&[]).unwrap_err(), DeviceError::NoBootFrames);
    assert_eq!(
        build_boot_container(&vec![vec![1]; 256]).unwrap_err(),
        DeviceError::TooManyBootFrames
    );
    assert_eq!(
        build_boot_container(&[vec![1], vec![]]).unwrap_err(),
        DeviceError::EmptyBootFrame
    );
    assert_eq!(DeviceError::NoBootFrames.message(), "boot GIF has no frames");
    assert_eq!(
        DeviceError::TooManyBootFrames.message(),
        "boot GIF has more than 255 frames"
    );
    assert_eq!(DeviceError::EmptyBootFrame.message(), "boot GIF has an empty frame");
    assert_eq!(DeviceError::BootJpegTooLarge.message(), "boot JPEG is too large");
    assert_eq!(
        DeviceError::BootContainerTooLarge.message(),
        "boot container is too large"
    );
}

#[test]
fn boot_container_holds_255_frames() {
    let frames: Vec<Vec<u8>> = (0..255u32).map(|n| vec![n as u8; n as usize + 1]).collect();
    let container = build_boot_container(&frames).unwrap();
    assert_eq!(container[14], 255);
    assert_eq!(container[15], b'P');
    assert_eq!(&container[12..14], &[16, 0]);
    // The table locates every frame.
    for (n, frame) in frames.iter().enumerate() {
        let entry = &container[32 + 16 * n..48 + 16 * n];
        let offset = u32::from_le_bytes(entry[4..8].try_into().unwrap()) as usize;
        let size = u32::from_le_bytes(entry[8..12].try_into().unwrap()) as usize;
        let end = i32::from_le_bytes(entry[0..4].try_into().unwrap());
        assert_eq!(size, frame.len());
        assert_eq!(end, -((offset + 8 + size) as i32));
        assert_eq!(&entry[12..16], &[0x08, 0, 0, 0x40]);
        assert_eq!(&container[offset..offset + 8], format!("{n:03}.jpg\0").as_bytes());
        assert_eq!(&container[offset + 8..offset + 8 + size], frame.as_slice());
    }
    let data_end = u32::from_le_bytes(container[4..8].try_into().unwrap()) as i32;
    let checksum = i32::from_le_bytes(container[0..4].try_into().unwrap());
    assert_eq!(checksum, -(data_end + 255 * 16 + 16 + 255));
    assert_eq!(container.len() as i32, data_end + 16);
}
