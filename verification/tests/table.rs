use rusty_theme::bucket::ColorBucket;
use rusty_theme::color::{Color, ColorChannel};
use rusty_theme::histogram::Histogram;
use rusty_theme::sorting::{sort_range, sort_words, SortKey};

#[test]
fn histogram_counts_and_orders_colors() {
    let pixels = [0xFF_1234_56u32, 0x00_1234_56, 0x12_0000_01, 0xAA_1234_56, 0x00_0000_01];
    let h = Histogram::new_pixels(&pixels);
    assert_eq!(h.color_vec, vec![0x00_0000_01, 0x12_3456]);
    assert_eq!(h.count_vec, vec![2, 3]);
}

#[test]
fn histogram_new_keeps_its_tables() {
    let h = Histogram::new(vec![1, 2, 3], vec![4, 5, 6]);
    assert_eq!(h.color_vec, vec![1, 2, 3]);
    assert_eq!(h.count_vec, vec![4, 5, 6]);
}

#[test]
fn new_rgb_unpacks_and_masks() {
    let c = ColorChannel::new_rgb(0xAABB_CCDD, 5);
    assert_eq!(c.rgb, 0x00BB_CCDD);
    assert_eq!(c.red, 0xDD);
    assert_eq!(c.grn, 0xCC);
    assert_eq!(c.blu, 0xBB);
    assert_eq!(c.cnt, 5);
}

#[test]
fn new_colors_packs_red_in_the_low_byte() {
    let c = ColorChannel::new_colors(1, 2, 3, 4);
    assert_eq!(c.rgb, 0x0003_0201);
    assert_eq!((c.red, c.grn, c.blu, c.cnt), (1, 2, 3, 4));
}

fn small_table() -> Vec<ColorChannel> {
    vec![
        ColorChannel::new_colors(10, 200, 60, 3),
        ColorChannel::new_colors(20, 100, 50, 1),
        ColorChannel::new_colors(30, 150, 70, 6),
    ]
}

#[test]
fn bucket_scans_exact_bounds_and_count() {
    let table = small_table();
    let b = ColorBucket::new(0, 2, 0, &table);
    assert_eq!(b.count, 10);
    assert_eq!((b.rmin, b.rmax), (10, 30));
    assert_eq!((b.gmin, b.gmax), (100, 200));
    assert_eq!((b.bmin, b.bmax), (50, 70));
    assert_eq!(b.color_count(), 3);
}

#[test]
fn longest_dimension_prefers_blue_then_green() {
    let table = small_table();
    let mut b = ColorBucket::new(0, 2, 0, &table);
    // spans: red 20, green 100, blue 20 -> green is the widest
    assert_eq!(b.get_longest_color(), Color::Green);
    b.rmin = 0;
    b.rmax = 10;
    b.gmin = 0;
    b.gmax = 10;
    b.bmin = 0;
    b.bmax = 10;
    // exact three-way tie -> blue wins
    assert_eq!(b.get_longest_color(), Color::Blue);
    b.bmax = 5;
    // blue out, red and green tied -> green wins
    assert_eq!(b.get_longest_color(), Color::Green);
}

#[test]
fn find_median_reaches_half_the_pixels() {
    let mut table = small_table();
    let b = ColorBucket::new(0, 2, 0, &table);
    // sorted by green: entries with counts 1, 6, 3; half of 10 is 5,
    // reached at the second entry
    let med = b.find_median(Color::Green, &mut table);
    assert_eq!(med, 1);
    assert_eq!(table[0].grn, 100);
    assert_eq!(table[1].grn, 150);
    assert_eq!(table[2].grn, 200);
}

#[test]
fn find_median_falls_back_to_lower() {
    // the last entry holds most of the pixels, so the running sum never
    // reaches half before the range runs out
    let mut table = vec![
        ColorChannel::new_colors(10, 0, 0, 1),
        ColorChannel::new_colors(20, 0, 0, 100),
    ];
    let b = ColorBucket::new(0, 1, 0, &table);
    let med = b.find_median(Color::Red, &mut table);
    assert_eq!(med, 0);
}

#[test]
fn split_box_parts_the_range() {
    let mut table = small_table();
    let mut b = ColorBucket::new(0, 2, 0, &table);
    let sibling = b.split_box(&mut table).expect("three colors split");
    assert_eq!(b.lower, 0);
    assert_eq!(sibling.upper, 2);
    assert_eq!(b.upper + 1, sibling.lower);
    assert_eq!(b.level, 1);
    assert_eq!(sibling.level, 1);
    assert_eq!(b.count + sibling.count, 10);
}

#[test]
fn split_box_leaves_a_single_color_alone() {
    let mut table = small_table();
    let mut b = ColorBucket::new(1, 1, 0, &table);
    assert!(b.split_box(&mut table).is_none());
}

#[test]
fn avg_color_weights_by_pixel_count() {
    let table = small_table();
    let b = ColorBucket::new(0, 2, 0, &table);
    let avg = b.avg_color(&table);
    // red: (10*3 + 20*1 + 30*6) / 10 = 23
    assert_eq!(avg.red, 23);
    // green: (200*3 + 100*1 + 150*6) / 10 = 160
    assert_eq!(avg.grn, 160);
    // blue: (60*3 + 50*1 + 70*6) / 10 = 65
    assert_eq!(avg.blu, 65);
    assert_eq!(avg.cnt, 10);
}

#[test]
fn sort_words_orders_ascending() {
    let mut v = vec![5u32, 3, 9, 3, 1];
    sort_words(&mut v);
    assert_eq!(v, vec![1, 3, 3, 5, 9]);
}

#[test]
fn sort_range_touches_only_the_range() {
    let mut table = small_table();
    table.push(ColorChannel::new_colors(1, 1, 1, 9));
    sort_range(&mut table, 0, 2, SortKey::CountDesc);
    assert_eq!(table[0].cnt, 6);
    assert_eq!(table[1].cnt, 3);
    assert_eq!(table[2].cnt, 1);
    assert_eq!(table[3].cnt, 9);
}
