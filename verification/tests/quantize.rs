use rusty_theme::color::ColorChannel;
use rusty_theme::engine::{MedianCut, QuantizeError};

fn rgba(r: u8, g: u8, b: u8) -> [u8; 4] {
    [r, g, b, 0xFF]
}

fn pixels_of(colors: &[[u8; 4]]) -> Vec<u8> {
    let mut v = Vec::new();
    for c in colors {
        v.extend_from_slice(c);
    }
    v
}

fn palette(pixels: &[u8], k: u32) -> Vec<ColorChannel> {
    MedianCut::from_pixel_vec(pixels, k)
        .expect("valid input")
        .get_quantized_colors()
        .clone()
}

#[test]
fn scenario_black_and_white() {
    let data = pixels_of(&[rgba(0, 0, 0), rgba(0, 0, 0), rgba(255, 255, 255), rgba(255, 255, 255)]);
    let q = palette(&data, 16);
    assert_eq!(q.len(), 2);
    assert_eq!(q[0].cnt + q[1].cnt, 4);
    assert_eq!(q[0].cnt, 2);
    assert_eq!(q[1].cnt, 2);
    let black = q.iter().find(|c| c.red == 0 && c.grn == 0 && c.blu == 0);
    let white = q.iter().find(|c| c.red == 255 && c.grn == 255 && c.blu == 255);
    assert!(black.is_some());
    assert!(white.is_some());
    assert_eq!(black.unwrap().cnt, 2);
    assert_eq!(white.unwrap().cnt, 2);
}

#[test]
fn scenario_one_million_equal_pixels() {
    let mut data = Vec::with_capacity(4_000_000);
    for _ in 0..1_000_000 {
        data.extend_from_slice(&[0x56, 0x34, 0x12, 0xFF]);
    }
    let q = palette(&data, 16);
    assert_eq!(q.len(), 1);
    assert_eq!(q[0].red, 0x56);
    assert_eq!(q[0].grn, 0x34);
    assert_eq!(q[0].blu, 0x12);
    assert_eq!(q[0].cnt, 1_000_000);
}

#[test]
fn scenario_seventeen_colors_into_sixteen() {
    // 17 evenly spread grey values, each on one pixel, squeezed into 16 slots.
    let mut data = Vec::new();
    for i in 0..17u16 {
        let v = (i * 15) as u8;
        data.extend_from_slice(&rgba(v, v, v));
    }
    let q = palette(&data, 16);
    assert_eq!(q.len(), 16);
    let total: usize = q.iter().map(|c| c.cnt).sum();
    assert_eq!(total, 17);
    for c in &q {
        // every input is grey, so every average is grey and inside the ramp
        assert_eq!(c.red, c.grn);
        assert_eq!(c.grn, c.blu);
        assert!(c.red <= 240);
    }
}

#[test]
fn identical_calls_give_identical_palettes() {
    let mut data = Vec::new();
    for i in 0..64u16 {
        let v = (i * 3) as u8;
        data.extend_from_slice(&rgba(v, v.wrapping_mul(7), 255 - v));
        data.extend_from_slice(&rgba(v, v, v));
    }
    let a = palette(&data, 8);
    let b = palette(&data, 8);
    assert_eq!(a.len(), b.len());
    for (x, y) in a.iter().zip(b.iter()) {
        assert_eq!(x, y);
    }
}

#[test]
fn counts_descend_and_sum_to_pixel_count() {
    let mut data = Vec::new();
    // six distinct colors with skewed counts, squeezed into four slots
    let colors = [
        (rgba(10, 0, 0), 9),
        (rgba(200, 30, 0), 1),
        (rgba(0, 90, 255), 4),
        (rgba(0, 100, 250), 2),
        (rgba(128, 128, 128), 7),
        (rgba(30, 0, 40), 3),
    ];
    let mut total = 0;
    for (c, n) in colors.iter() {
        for _ in 0..*n {
            data.extend_from_slice(c);
        }
        total += *n;
    }
    let q = palette(&data, 4);
    assert_eq!(q.len(), 4);
    let sum: usize = q.iter().map(|c| c.cnt).sum();
    assert_eq!(sum, total);
    for w in q.windows(2) {
        assert!(w[0].cnt >= w[1].cnt);
    }
}

#[test]
fn few_colors_come_back_unchanged() {
    let mut data = Vec::new();
    for _ in 0..7 {
        data.extend_from_slice(&rgba(1, 2, 3));
    }
    for _ in 0..5 {
        data.extend_from_slice(&rgba(200, 100, 50));
    }
    for _ in 0..2 {
        data.extend_from_slice(&rgba(9, 9, 9));
    }
    let q = palette(&data, 16);
    assert_eq!(q.len(), 3);
    assert_eq!((q[0].red, q[0].grn, q[0].blu, q[0].cnt), (1, 2, 3, 7));
    assert_eq!((q[1].red, q[1].grn, q[1].blu, q[1].cnt), (200, 100, 50, 5));
    assert_eq!((q[2].red, q[2].grn, q[2].blu, q[2].cnt), (9, 9, 9, 2));
}

#[test]
fn averaging_truncates() {
    // two colors forced into one slot: (10 + 11) / 2 truncates to 10
    let data = pixels_of(&[rgba(10, 0, 0), rgba(11, 0, 0)]);
    let q = palette(&data, 1);
    assert_eq!(q.len(), 1);
    assert_eq!(q[0].red, 10);
    assert_eq!(q[0].grn, 0);
    assert_eq!(q[0].blu, 0);
    assert_eq!(q[0].cnt, 2);
}

#[test]
fn alpha_byte_is_ignored() {
    let data = pixels_of(&[[5, 6, 7, 0x00], [5, 6, 7, 0xFF], [5, 6, 7, 0x80]]);
    let q = palette(&data, 16);
    assert_eq!(q.len(), 1);
    assert_eq!((q[0].red, q[0].grn, q[0].blu, q[0].cnt), (5, 6, 7, 3));
}

#[test]
fn ragged_buffer_is_rejected() {
    let data = [1u8, 2, 3, 4, 5];
    let r = MedianCut::from_pixel_vec(&data, 16);
    assert!(matches!(r, Err(QuantizeError::InvalidInput)));
}

#[test]
fn zero_palette_size_is_rejected() {
    let data = pixels_of(&[rgba(1, 2, 3)]);
    let r = MedianCut::from_pixel_vec(&data, 0);
    assert!(matches!(r, Err(QuantizeError::InvalidInput)));
}

#[test]
fn empty_image_gives_empty_palette() {
    let data: [u8; 0] = [];
    let q = palette(&data, 16);
    assert!(q.is_empty());
}
