use keyboard_oled::oled::{OLED_HEIGHT, OLED_WIDTH};
use keyboard_oled::oled_buffer::BUFFER_SIZE;
use keyboard_oled::{BufferError, OledBuffer, OledPixel};
use keyboard_oled::OledPixel::{Off, On};

#[test]
fn test_oled_buffer_get_set_pixel() {
    let mut oled_buffer = OledBuffer::new();
    let px = oled_buffer.get_pixel(0, 0);
    assert!(px.is_ok());
    assert_eq!(*px.unwrap(), OledPixel::Off);

    let px = oled_buffer.get_pixel(usize::MAX, usize::MAX);
    assert!(px.is_err());

    oled_buffer.set_pixel(0, 0, OledPixel::On);
    let px = oled_buffer.get_pixel(0, 0).unwrap();
    assert_eq!(*px, OledPixel::On);
}

#[test]
fn test_oled_buffer_to_buffer() {
    let mut oled_buffer = OledBuffer::new();
    oled_buffer.set_pixel(0, 0, OledPixel::On);

    let buffer = &mut [0u8; BUFFER_SIZE / 8];
    oled_buffer.to_buffer(buffer);

    assert_eq!(buffer[0], 0x80);
    for i in 1..buffer.len() {
        assert_eq!(buffer[i], 0x00);
    }
}

#[test]
fn set_then_get_round_trips_on_and_off() {
    let mut b = OledBuffer::new();
    b.set_pixel(127, 39, OledPixel::On);
    assert_eq!(b.get_pixel(127, 39), Ok(&OledPixel::On));
    b.set_pixel(127, 39, OledPixel::Off);
    assert_eq!(b.get_pixel(127, 39), Ok(&OledPixel::Off));
    b.set_scissor(10, 10, 5, 5);
    b.set_pixel(12, 13, OledPixel::On);
    assert_eq!(b.get_pixel(12, 13), Ok(&OledPixel::On));
}

#[test]
fn out_of_bounds_read_fails_and_write_is_dropped() {
    let mut b = OledBuffer::new();
    assert_eq!(b.get_pixel(OLED_WIDTH, 0), Err(BufferError::OutOfBounds));
    assert_eq!(b.get_pixel(0, OLED_HEIGHT), Err(BufferError::OutOfBounds));
    b.set_pixel(OLED_WIDTH, 0, OledPixel::On);
    b.set_pixel(0, OLED_HEIGHT, OledPixel::On);
    b.set_pixel(usize::MAX, usize::MAX, OledPixel::On);
    let out = &mut [0u8; BUFFER_SIZE / 8];
    b.to_buffer(out);
    assert!(out.iter().all(|&v| v == 0));
}

#[test]
fn clip_drops_writes_outside_and_clear_stays_inside() {
    let mut b = OledBuffer::new();
    b.set_pixel(0, 0, OledPixel::On);
    b.set_pixel(3, 2, OledPixel::On);
    b.set_pixel(6, 4, OledPixel::On);
    b.set_scissor(2, 1, 4, 3);
    // exclusive upper bounds: x = 6 and y = 4 lie outside
    b.set_pixel(6, 1, OledPixel::On);
    b.set_pixel(2, 4, OledPixel::On);
    b.set_pixel(1, 1, OledPixel::On);
    assert_eq!(b.get_pixel(6, 1), Ok(&OledPixel::Off));
    assert_eq!(b.get_pixel(2, 4), Ok(&OledPixel::Off));
    assert_eq!(b.get_pixel(1, 1), Ok(&OledPixel::Off));
    b.set_pixel(5, 3, OledPixel::On);
    assert_eq!(b.get_pixel(5, 3), Ok(&OledPixel::On));
    b.clear();
    assert_eq!(b.get_pixel(3, 2), Ok(&OledPixel::Off));
    assert_eq!(b.get_pixel(5, 3), Ok(&OledPixel::Off));
    assert_eq!(b.get_pixel(0, 0), Ok(&OledPixel::On));
    assert_eq!(b.get_pixel(6, 4), Ok(&OledPixel::On));
    b.clear_scissor();
    b.set_pixel(6, 1, OledPixel::On);
    assert_eq!(b.get_pixel(6, 1), Ok(&OledPixel::On));
    b.clear();
    assert_eq!(b.get_pixel(0, 0), Ok(&OledPixel::Off));
    assert_eq!(b.get_pixel(6, 4), Ok(&OledPixel::Off));
    assert_eq!(b.get_pixel(6, 1), Ok(&OledPixel::Off));
}

#[test]
fn clip_reaching_past_the_edge_clears_to_the_edge() {
    let mut b = OledBuffer::new();
    b.set_pixel(127, 39, OledPixel::On);
    b.set_pixel(120, 0, OledPixel::On);
    b.set_scissor(100, 20, usize::MAX, usize::MAX);
    b.clear();
    assert_eq!(b.get_pixel(127, 39), Ok(&OledPixel::Off));
    assert_eq!(b.get_pixel(120, 0), Ok(&OledPixel::On));
}

#[test]
fn get_pixel_mut_ignores_clip() {
    let mut b = OledBuffer::new();
    b.set_scissor(0, 0, 1, 1);
    match b.get_pixel_mut(50, 30) {
        Ok(p) => p.set_on(),
        Err(_) => panic!("in bounds"),
    }
    assert!(b.get_pixel(50, 30).unwrap().is_on());
    assert_eq!(b.get_pixel_mut(128, 0).err(), Some(BufferError::OutOfBounds));
}

#[test]
fn serialize_all_off_gives_zero_bytes() {
    let b = OledBuffer::new();
    let out = &mut [0xffu8; BUFFER_SIZE / 8];
    b.to_buffer(out);
    assert_eq!(out.len(), OLED_WIDTH * OLED_HEIGHT / 8);
    assert!(out.iter().all(|&v| v == 0));
}

#[test]
fn serialize_second_pixel_sets_bit_six() {
    let mut b = OledBuffer::new();
    b.set_pixel(1, 0, OledPixel::On);
    let out = &mut [0u8; 640];
    b.to_buffer(out);
    assert_eq!(out[0], 0x40);
    for i in 1..out.len() {
        assert_eq!(out[i], 0x00);
    }
}

#[test]
fn serialize_packs_rows_and_groups() {
    let mut b = OledBuffer::new();
    b.set_pixel(15, 0, OledPixel::On);
    b.set_pixel(8, 1, OledPixel::On);
    b.set_pixel(13, 1, OledPixel::On);
    b.set_pixel(127, 39, OledPixel::On);
    let out = &mut [0u8; 640];
    b.to_buffer(out);
    assert_eq!(out[1], 0x01);
    assert_eq!(out[17], 0x84);
    assert_eq!(out[639], 0x01);
    assert_eq!(out.iter().filter(|&&v| v != 0).count(), 3);
}

#[test]
fn custom_size_buffer() {
    let mut b = OledBuffer::with_size(16, 2);
    assert_eq!(b.pixel_count(), 32);
    assert_eq!(b.get_pixel(16, 0), Err(BufferError::OutOfBounds));
    b.set_pixel(0, 1, OledPixel::On);
    b.set_pixel(15, 1, OledPixel::On);
    let out = &mut [0u8; 4];
    b.to_buffer(out);
    assert_eq!(out, &[0x00, 0x00, 0x80, 0x01]);
}

#[test]
fn pack_puts_first_pixel_in_top_bit() {
    assert_eq!(OledPixel::pack(&[On, Off, Off, Off, Off, Off, Off, On]), 0x81);
    assert_eq!(OledPixel::pack(&[Off, On, On]), 0x60);
    assert_eq!(OledPixel::pack(&[]), 0x00);
    assert_eq!(OledPixel::pack(&[On; 8]), 0xff);
}

#[test]
fn pixel_setters_and_predicates() {
    let mut p = OledPixel::Off;
    assert!(p.is_off() && !p.is_on());
    p.set_on();
    assert_eq!(p, OledPixel::On);
    assert!(p.is_on() && !p.is_off());
    p.set_off();
    assert_eq!(p, OledPixel::Off);
}
