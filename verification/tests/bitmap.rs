use mbrot_tile::image::{to_bgr, to_grey, Bitmap, Color};

fn le4(v: u32) -> [u8; 4] {
    [v as u8, (v >> 8) as u8, (v >> 16) as u8, (v >> 24) as u8]
}

fn le2(v: u16) -> [u8; 2] {
    [v as u8, (v >> 8) as u8]
}

#[test]
fn construction_rejects_unsupported_depths() {
    for depth in [1i16, 4, 16, 32, 0, -8, 7, 25] {
        assert!(Bitmap::new(4, 4, depth).is_none());
    }
    assert!(Bitmap::new(4, 4, 8).is_some());
    assert!(Bitmap::new(4, 4, 24).is_some());
}

#[test]
fn set_then_get() {
    let mut b = Bitmap::new(3, 2, 24).unwrap();
    b.set(1, 1, Color::RGB(9, 8, 7));
    assert_eq!(b.get_pixel(1, 1), Color::RGB(9, 8, 7));
    // a cell never stored reads as black
    assert_eq!(b.get_pixel(0, 0), Color::Black);
    assert_eq!(b.get_pixel(2, 1), Color::Black);
}

#[test]
fn out_of_range_writes_are_dropped() {
    let mut b = Bitmap::new(2, 2, 8).unwrap();
    b.set(5, 3, Color::Grey(9)); // index 11, beyond the 4-cell buffer
    b.set(-1, 0, Color::Grey(9)); // negative index
    for y in 0..2 {
        for x in 0..2 {
            assert_eq!(b.get_pixel(x, y), Color::Black);
        }
    }
}

#[test]
fn red_tile_round_trip() {
    let mut b = Bitmap::new(4, 4, 24).unwrap();
    for y in 0..4 {
        for x in 0..4 {
            b.set(x, y, Color::RGB(255, 0, 0));
        }
    }
    let out = b.write_out();
    // 4 * 3 = 12 bytes per row, already 4-aligned: no padding
    assert_eq!(out.len(), 54 + 12 * 4);
    assert_eq!(&out[0..2], b"BM");
    assert_eq!(&out[2..6], &le4(102));
    assert_eq!(&out[6..10], &[0, 0, 0, 0]);
    assert_eq!(&out[10..14], &le4(54));
    assert_eq!(&out[14..18], &le4(40));
    assert_eq!(&out[18..22], &le4(4));
    assert_eq!(&out[22..26], &le4(4));
    assert_eq!(&out[26..28], &le2(1));
    assert_eq!(&out[28..30], &le2(24));
    for p in 0..16 {
        // blue-green-red order
        assert_eq!(&out[54 + 3 * p..54 + 3 * p + 3], &[0, 0, 255]);
    }
}

#[test]
fn dib_block_fixed_fields() {
    let b = Bitmap::new(3, 2, 24).unwrap();
    let out = b.write_out();
    // compression, raw data size
    assert_eq!(&out[30..34], &le4(0));
    assert_eq!(&out[34..38], &le4(0));
    // horizontal and vertical resolution
    assert_eq!(&out[38..42], &le4(3780));
    assert_eq!(&out[42..46], &le4(3780));
    // palette and important colors
    assert_eq!(&out[46..50], &le4(0));
    assert_eq!(&out[50..54], &le4(0));
    // the height field carries the width value
    assert_eq!(&out[18..22], &le4(3));
    assert_eq!(&out[22..26], &le4(3));
}

#[test]
fn row_padding_width_five() {
    let mut b = Bitmap::new(5, 1, 24).unwrap();
    for x in 0..5 {
        b.set(x, 0, Color::Grey(100));
    }
    let out = b.write_out();
    // row base 15 bytes, one pad byte brings it to 16
    assert_eq!(out.len(), 54 + 16);
    assert_eq!(&out[2..6], &le4(70));
    assert_eq!(&out[54 + 12..54 + 15], &[100, 100, 100]);
    assert_eq!(out[54 + 15], 0);
}

#[test]
fn row_padding_width_four() {
    let mut b = Bitmap::new(4, 1, 24).unwrap();
    for x in 0..4 {
        b.set(x, 0, Color::RGB(1, 2, 3));
    }
    let out = b.write_out();
    // row base 12 bytes: no padding
    assert_eq!(out.len(), 54 + 12);
    assert_eq!(&out[2..6], &le4(66));
    assert_eq!(&out[54..57], &[3, 2, 1]);
}

#[test]
fn grey_rows_average_rgb() {
    let mut b = Bitmap::new(3, 1, 8).unwrap();
    b.set(0, 0, Color::RGB(10, 20, 40));
    b.set(1, 0, Color::Grey(200));
    let out = b.write_out();
    // row base 3 bytes, one pad byte brings it to 4
    assert_eq!(out.len(), 54 + 4);
    assert_eq!(&out[28..30], &le2(8));
    assert_eq!(&out[54..58], &[23, 200, 0, 0]);
}

#[test]
fn pixel_byte_conversions() {
    assert_eq!(to_bgr(Color::RGB(1, 2, 3)), vec![3, 2, 1]);
    assert_eq!(to_bgr(Color::Grey(7)), vec![7, 7, 7]);
    assert_eq!(to_bgr(Color::Black), vec![0, 0, 0]);
    assert_eq!(to_grey(Color::RGB(10, 20, 40)), vec![23]);
    assert_eq!(to_grey(Color::Grey(9)), vec![9]);
    assert_eq!(to_grey(Color::Black), vec![0]);
}
