use keyboard_oled::oled::{
    advance_open, dimensions, find_device, update_payload, DeviceError, OpenEvent, OpenState,
    DEVICE_ID, OLED_HEIGHT, OLED_WIDTH, UPDATE_COMMAND, VENDOR_ID,
};
use keyboard_oled::{OledBuffer, OledPixel};

#[test]
fn test_oled_dimensions() {
    let (width, height) = dimensions();
    assert_eq!(width, OLED_WIDTH);
    assert_eq!(height, OLED_HEIGHT);
    assert_eq!((width, height), (128, 40));
}

#[test]
fn find_device_picks_first_match_and_skips_unreadable() {
    let list = [None, Some((0x1038, 0x0001)), Some((VENDOR_ID, DEVICE_ID)), Some((VENDOR_ID, DEVICE_ID))];
    assert_eq!(find_device(&list, VENDOR_ID, DEVICE_ID), Some(2));
    assert_eq!(find_device(&list, 0x0000, 0x0000), None);
    assert_eq!(find_device(&[], VENDOR_ID, DEVICE_ID), None);
}

#[test]
fn open_with_unknown_ids_fails_not_found() {
    let listed = OpenEvent::Listed(vec![Some((VENDOR_ID, DEVICE_ID)), None]);
    let s = advance_open(0x0000, 0x0000, OpenState::Unopened, listed);
    assert_eq!(s, OpenState::Failed(DeviceError::NotFound));
}

#[test]
fn open_walks_to_opened() {
    let listed = OpenEvent::Listed(vec![None, Some((1, 2)), Some((VENDOR_ID, DEVICE_ID))]);
    let s = advance_open(VENDOR_ID, DEVICE_ID, OpenState::Unopened, listed);
    assert_eq!(s, OpenState::Selected(2));
    let s = advance_open(VENDOR_ID, DEVICE_ID, s, OpenEvent::OpenSucceeded);
    assert_eq!(s, OpenState::HandleOpen(2));
    let s = advance_open(VENDOR_ID, DEVICE_ID, s, OpenEvent::ClaimSucceeded);
    assert_eq!(s, OpenState::Opened(2));
    let s = advance_open(VENDOR_ID, DEVICE_ID, s, OpenEvent::ClaimFailed);
    assert_eq!(s, OpenState::Opened(2));
}

#[test]
fn open_failures_map_to_their_errors() {
    let s = advance_open(VENDOR_ID, DEVICE_ID, OpenState::Unopened, OpenEvent::ListFailed);
    assert_eq!(s, OpenState::Failed(DeviceError::EnumerationError));
    let s = advance_open(VENDOR_ID, DEVICE_ID, OpenState::Selected(0), OpenEvent::OpenFailed);
    assert_eq!(s, OpenState::Failed(DeviceError::OpenError));
    let s = advance_open(VENDOR_ID, DEVICE_ID, OpenState::HandleOpen(0), OpenEvent::ClaimFailed);
    assert_eq!(s, OpenState::Failed(DeviceError::ClaimError));
}

#[test]
fn update_payload_layout() {
    let mut b = OledBuffer::new();
    b.set_pixel(0, 0, OledPixel::On);
    b.set_pixel(127, 39, OledPixel::On);
    let p = update_payload(&b);
    assert_eq!(p.len(), 642);
    assert_eq!(p[0], UPDATE_COMMAND);
    assert_eq!(p[0], 0x65);
    assert_eq!(p[1], 0x80);
    assert_eq!(p[640], 0x01);
    assert_eq!(p[641], 0x00);
    assert!(p[2..640].iter().all(|&v| v == 0));
}
