use giflib::colormap::GifColorType;
use giflib::quantize::{distinct_colors, gif_quantize_buffer};

fn rgb(r: u8, g: u8, b: u8) -> GifColorType {
    GifColorType { Red: r, Green: g, Blue: b }
}

#[test]
fn two_colors_get_their_own_entries() {
    let red = [255u8, 0, 255, 0];
    let green = [0u8, 0, 0, 0];
    let blue = [0u8, 255, 0, 255];
    let mut out = [9u8; 4];
    let mut map = [rgb(1, 1, 1); 4];
    let mut size = 4;
    assert!(gif_quantize_buffer(2, 2, &mut size, &red, &green, &blue, &mut out, &mut map));
    assert_eq!(size, 2);
    assert_eq!(out[0], out[2]);
    assert_eq!(out[1], out[3]);
    assert_ne!(out[0], out[1]);
    // averages of the 5-bit colors, scaled back: 31 * 8 = 248
    assert_eq!(map[out[0] as usize], rgb(248, 0, 0));
    assert_eq!(map[out[1] as usize], rgb(0, 0, 248));
    assert_eq!(map[2], rgb(0, 0, 0));
    assert_eq!(map[3], rgb(0, 0, 0));
}

#[test]
fn colors_are_merged_down_to_the_limit() {
    let n = 16usize;
    let red: Vec<u8> = (0..n).map(|i| (i * 16) as u8).collect();
    let green = vec![0u8; n];
    let blue = vec![0u8; n];
    let mut out = vec![0u8; n];
    let mut map = vec![rgb(0, 0, 0); 4];
    let mut size = 4;
    assert!(gif_quantize_buffer(n as u32, 1, &mut size, &red, &green, &blue, &mut out, &mut map));
    assert_eq!(size, 4);
    assert!(out.iter().all(|&o| o < 4));
    // increasing reds stay in order of their boxes' averages
    for i in 1..n {
        assert!(map[out[i] as usize].Red >= map[out[i - 1] as usize].Red);
    }
}

#[test]
fn single_entry_when_size_zero() {
    let red = [10u8, 200];
    let green = [20u8, 100];
    let blue = [30u8, 0];
    let mut out = [7u8; 2];
    let mut map = [rgb(9, 9, 9); 1];
    let mut size = 0;
    assert!(gif_quantize_buffer(2, 1, &mut size, &red, &green, &blue, &mut out, &mut map));
    assert_eq!(size, 1);
    assert_eq!(out, [0, 0]);
    // (10 >> 3 = 1, 200 >> 3 = 25): (1 + 25) * 8 / 2 = 104
    assert_eq!(map[0], rgb(104, (2 + 12) * 8 / 2, (3 + 0) * 8 / 2));
}

#[test]
fn no_pixels_gives_empty_map() {
    let mut out = [5u8; 1];
    let mut map = [rgb(3, 3, 3); 1];
    let mut size = 8;
    assert!(gif_quantize_buffer(0, 3, &mut size, &[], &[], &[], &mut out, &mut map));
    assert_eq!(size, 0);
    assert_eq!(out, [5]);
    assert_eq!(map[0], rgb(3, 3, 3));
}

#[test]
fn median_cut_splits_where_the_pixel_count_passes_half() {
    // red, black, black, blue: one box of three colors, cut along red after
    // black, whose two pixels with blue's one pass half of the four.
    let red = [255u8, 0, 0, 0];
    let green = [0u8, 0, 0, 0];
    let blue = [0u8, 0, 0, 255];
    let mut out = [9u8; 4];
    let mut map = [rgb(1, 1, 1); 2];
    let mut size = 2;
    assert!(gif_quantize_buffer(4, 1, &mut size, &red, &green, &blue, &mut out, &mut map));
    assert_eq!(size, 2);
    assert_eq!(out, [1, 0, 0, 1]);
    assert_eq!(map[0], rgb(0, 0, 0));
    // blue and red averaged: (31 + 0) * 8 / 2 = 124
    assert_eq!(map[1], rgb(124, 0, 124));
}

#[test]
fn median_cut_picks_the_first_widest_box_and_primary() {
    // sixteen reds, one pixel each: the whole box is cut along red in half;
    // then the first box is cut along green (its widest primary, first of
    // the widest) into 4 + 4 colors, then along blue into 2 + 2.
    let n = 16usize;
    let red: Vec<u8> = (0..n).map(|i| (i * 16) as u8).collect();
    let green = vec![0u8; n];
    let blue = vec![0u8; n];
    let mut out = vec![0u8; n];
    let mut map = vec![rgb(0, 0, 0); 4];
    let mut size = 4;
    assert!(gif_quantize_buffer(n as u32, 1, &mut size, &red, &green, &blue, &mut out, &mut map));
    assert_eq!(size, 4);
    assert_eq!(out, vec![0, 0, 3, 3, 2, 2, 2, 2, 1, 1, 1, 1, 1, 1, 1, 1]);
    assert_eq!(map, vec![rgb(8, 0, 0), rgb(184, 0, 0), rgb(88, 0, 0), rgb(40, 0, 0)]);
}

#[test]
fn a_size_above_256_with_few_colors_and_a_short_map() {
    // Asking for more entries than there are colors: each color gets its own
    // box, and the map needs room for those boxes only.
    let red = [255u8, 0, 255, 0];
    let green = [0u8, 0, 0, 0];
    let blue = [0u8, 255, 0, 255];
    let mut out = [9u8; 4];
    let mut map = [rgb(1, 1, 1); 2];
    let mut size = 300;
    assert!(gif_quantize_buffer(2, 2, &mut size, &red, &green, &blue, &mut out, &mut map));
    assert_eq!(size, 2);
    assert_eq!(out, [1, 0, 1, 0]);
    assert_eq!(map, [rgb(0, 0, 248), rgb(248, 0, 0)]);
}

#[test]
fn distinct_colors_counts_15_bit_colors() {
    // 0 and 7 share a 15-bit color, 8 does not.
    let red = [0u8, 7, 8, 255];
    let green = [0u8, 0, 0, 0];
    let blue = [0u8, 0, 0, 0];
    assert_eq!(distinct_colors(4, &red, &green, &blue), 3);
    assert_eq!(distinct_colors(2, &red, &green, &blue), 1);
    assert_eq!(distinct_colors(0, &red, &green, &blue), 0);
}
