use ascii_kernel::error::KernelError;
use ascii_kernel::palette::nearest_color_batch;

fn with_palette(pixels: &[[u8; 4]], palette: &[[u8; 3]]) -> Vec<u8> {
    let mut buf: Vec<u8> = Vec::new();
    for p in pixels {
        buf.extend_from_slice(p);
    }
    for c in palette {
        buf.extend_from_slice(c);
    }
    buf
}

#[test]
fn black_and_white_palette_splits_the_grays() {
    let mut buf = with_palette(
        &[[10, 10, 10, 255], [200, 200, 200, 128], [127, 127, 127, 7]],
        &[[0, 0, 0], [255, 255, 255]],
    );
    assert_eq!(nearest_color_batch(&mut buf, 3, 12, 2), Ok(()));
    assert_eq!(
        buf,
        vec![0, 0, 0, 255, 255, 255, 255, 128, 0, 0, 0, 7, 0, 0, 0, 255, 255, 255]
    );
}

#[test]
fn equally_near_entries_resolve_to_the_lower_index() {
    let mut buf = with_palette(&[[127, 127, 127, 1]], &[[0, 0, 0], [254, 254, 254]]);
    assert_eq!(nearest_color_batch(&mut buf, 1, 4, 2), Ok(()));
    assert_eq!(&buf[..4], &[0, 0, 0, 1]);

    let mut buf = with_palette(&[[127, 127, 127, 1]], &[[254, 254, 254], [0, 0, 0]]);
    assert_eq!(nearest_color_batch(&mut buf, 1, 4, 2), Ok(()));
    assert_eq!(&buf[..4], &[254, 254, 254, 1]);

    let mut buf = with_palette(&[[5, 5, 5, 1]], &[[9, 9, 9], [6, 5, 5], [5, 4, 5], [5, 5, 6]]);
    assert_eq!(nearest_color_batch(&mut buf, 1, 4, 4), Ok(()));
    assert_eq!(&buf[..4], &[6, 5, 5, 1]);
}

#[test]
fn distance_is_squared_euclidean() {
    // (9,0,0) is 81 away and (5,5,0) is 50 away, though the sum of its
    // channel differences is larger.
    let mut buf = with_palette(&[[0, 0, 0, 0]], &[[9, 0, 0], [5, 5, 0]]);
    assert_eq!(nearest_color_batch(&mut buf, 1, 4, 2), Ok(()));
    assert_eq!(&buf[..4], &[5, 5, 0, 0]);

    // (10,0,0) is 100 away and (6,6,6) is 108 away, though its largest
    // channel difference is smaller.
    let mut buf = with_palette(&[[0, 0, 0, 0]], &[[6, 6, 6], [10, 0, 0]]);
    assert_eq!(nearest_color_batch(&mut buf, 1, 4, 2), Ok(()));
    assert_eq!(&buf[..4], &[10, 0, 0, 0]);
}

#[test]
fn farthest_corners_are_still_compared() {
    let mut buf = with_palette(&[[0, 0, 0, 0], [255, 255, 255, 0]], &[[255, 255, 255]]);
    assert_eq!(nearest_color_batch(&mut buf, 2, 8, 1), Ok(()));
    assert_eq!(&buf[..8], &[255, 255, 255, 0, 255, 255, 255, 0]);
}

#[test]
fn every_pixel_ends_as_a_palette_color() {
    let palette = [[12u8, 200, 7], [90, 90, 90], [250, 3, 128], [0, 0, 0]];
    let mut pixels: Vec<[u8; 4]> = Vec::new();
    let mut seed: u32 = 12345;
    for _ in 0..64 {
        seed = seed.wrapping_mul(1664525).wrapping_add(1013904223);
        let b = seed.to_le_bytes();
        pixels.push([b[0], b[1], b[2], b[3]]);
    }
    let mut buf = with_palette(&pixels, &palette);
    let before = buf.clone();
    assert_eq!(nearest_color_batch(&mut buf, 64, 256, 4), Ok(()));
    for i in 0..64 {
        let px = [buf[4 * i], buf[4 * i + 1], buf[4 * i + 2]];
        let old = [before[4 * i] as i64, before[4 * i + 1] as i64, before[4 * i + 2] as i64];
        let dist = |c: &[u8; 3]| -> i64 {
            (0..3).map(|k| (old[k] - c[k] as i64) * (old[k] - c[k] as i64)).sum()
        };
        let chosen = palette.iter().position(|c| *c == px).expect("a palette color");
        for (j, c) in palette.iter().enumerate() {
            assert!(dist(&palette[chosen]) <= dist(c));
            if j < chosen {
                assert!(dist(&palette[chosen]) < dist(c));
            }
        }
        assert_eq!(buf[4 * i + 3], before[4 * i + 3]);
    }
    assert_eq!(&buf[256..], &before[256..]);
}

#[test]
fn quantizing_twice_changes_nothing_more() {
    let mut buf = with_palette(
        &[[3, 99, 180, 1], [250, 250, 0, 2], [77, 77, 77, 3]],
        &[[0, 0, 0], [128, 128, 128], [255, 255, 255], [0, 128, 255]],
    );
    assert_eq!(nearest_color_batch(&mut buf, 3, 12, 4), Ok(()));
    let once = buf.clone();
    assert_eq!(nearest_color_batch(&mut buf, 3, 12, 4), Ok(()));
    assert_eq!(buf, once);
}

#[test]
fn empty_palette_keeps_every_pixel() {
    let mut buf = with_palette(&[[1, 2, 3, 4], [5, 6, 7, 8]], &[]);
    let before = buf.clone();
    assert_eq!(nearest_color_batch(&mut buf, 2, 8, 0), Ok(()));
    assert_eq!(buf, before);
}

#[test]
fn no_pixels_means_no_change() {
    let mut buf = with_palette(&[[1, 2, 3, 4]], &[[9, 9, 9]]);
    let before = buf.clone();
    assert_eq!(nearest_color_batch(&mut buf, 0, 4, 1), Ok(()));
    assert_eq!(buf, before);
}

#[test]
fn only_the_first_pixels_are_touched() {
    let mut buf = with_palette(&[[1, 2, 3, 4], [5, 6, 7, 8], [9, 10, 11, 12]], &[[0, 0, 0]]);
    assert_eq!(nearest_color_batch(&mut buf, 2, 12, 1), Ok(()));
    assert_eq!(buf, vec![0, 0, 0, 4, 0, 0, 0, 8, 9, 10, 11, 12, 0, 0, 0]);
}

#[test]
fn pixel_region_behind_the_buffer_is_out_of_bounds() {
    let mut buf = with_palette(&[[1, 2, 3, 4], [5, 6, 7, 8]], &[[0, 0, 0]]);
    let before = buf.clone();
    assert_eq!(nearest_color_batch(&mut buf, 3, 8, 1), Err(KernelError::OutOfBounds));
    assert_eq!(buf, before);
    assert_eq!(nearest_color_batch(&mut buf, usize::MAX, 8, 1), Err(KernelError::OutOfBounds));
    assert_eq!(buf, before);
    assert_eq!(nearest_color_batch(&mut buf, usize::MAX / 4 + 1, 8, 1), Err(KernelError::OutOfBounds));
    assert_eq!(buf, before);
}

#[test]
fn palette_behind_the_buffer_is_out_of_bounds() {
    let mut buf = with_palette(&[[1, 2, 3, 4], [5, 6, 7, 8]], &[[0, 0, 0]]);
    let before = buf.clone();
    assert_eq!(nearest_color_batch(&mut buf, 2, 8, 2), Err(KernelError::OutOfBounds));
    assert_eq!(nearest_color_batch(&mut buf, 2, 9, 1), Err(KernelError::OutOfBounds));
    assert_eq!(nearest_color_batch(&mut buf, 2, 12, 0), Err(KernelError::OutOfBounds));
    assert_eq!(nearest_color_batch(&mut buf, 2, usize::MAX, 1), Err(KernelError::OutOfBounds));
    assert_eq!(nearest_color_batch(&mut buf, 2, 8, usize::MAX), Err(KernelError::OutOfBounds));
    assert_eq!(buf, before);
    assert_eq!(nearest_color_batch(&mut buf, 2, 11, 0), Ok(()));
    assert_eq!(buf, before);
}

#[test]
fn palette_inside_the_pixels_is_read_as_it_stands() {
    // The one-entry palette starts at byte 1. Pixel 0 takes (2,3,4), which
    // makes the entry (3,4,4) by the time pixel 1 is looked at.
    let mut buf: Vec<u8> = vec![1, 2, 3, 4, 9, 9, 9, 9];
    assert_eq!(nearest_color_batch(&mut buf, 2, 1, 1), Ok(()));
    assert_eq!(buf, vec![2, 3, 4, 4, 3, 4, 4, 9]);
}
