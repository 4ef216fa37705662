use image_canvas::raster::{resize_image, rotate, PixelError, Rotation, UNIT};

fn gradient(w: u32, h: u32) -> Vec<u8> {
    let mut v = Vec::new();
    for y in 0..h {
        for x in 0..w {
            v.push((y * w + x) as u8 + 1);
            v.push(2);
            v.push(3);
            v.push(4);
        }
    }
    v
}

fn pixel(buf: &[u8], w: u32, x: u32, y: u32) -> [u8; 4] {
    let i = ((y * w + x) * 4) as usize;
    [buf[i], buf[i + 1], buf[i + 2], buf[i + 3]]
}

#[test]
fn resample_to_same_size_is_identity() {
    let src = gradient(5, 3);
    assert_eq!(resize_image(&src, 5, 3, 5, 3), Ok(src.clone()));
}

#[test]
fn resample_upscale_repeats_pixels() {
    let src = gradient(2, 2);
    let out = resize_image(&src, 2, 2, 4, 4).unwrap();
    assert_eq!(out.len(), 64);
    assert_eq!(pixel(&out, 4, 0, 0), [1, 2, 3, 4]);
    assert_eq!(pixel(&out, 4, 1, 1), [1, 2, 3, 4]);
    assert_eq!(pixel(&out, 4, 2, 0), [2, 2, 3, 4]);
    assert_eq!(pixel(&out, 4, 3, 3), [4, 2, 3, 4]);
    assert_eq!(pixel(&out, 4, 0, 2), [3, 2, 3, 4]);
}

#[test]
fn resample_downscale_takes_floor_source() {
    let src = gradient(4, 1);
    let out = resize_image(&src, 4, 1, 3, 1).unwrap();
    // x * 4 / 3 for x = 0, 1, 2 is 0, 1, 2
    assert_eq!(out, vec![1, 2, 3, 4, 2, 2, 3, 4, 3, 2, 3, 4]);
    let out2 = resize_image(&src, 4, 1, 2, 1).unwrap();
    assert_eq!(out2, vec![1, 2, 3, 4, 3, 2, 3, 4]);
}

#[test]
fn resample_to_zero_size_is_empty() {
    let src = gradient(3, 3);
    assert_eq!(resize_image(&src, 3, 3, 0, 7), Ok(vec![]));
    assert_eq!(resize_image(&src, 3, 3, 7, 0), Ok(vec![]));
}

#[test]
fn resample_rejects_length_mismatch() {
    let src = vec![0u8; 15];
    assert_eq!(resize_image(&src, 2, 2, 4, 4), Err(PixelError::LengthMismatch));
}

#[test]
fn resample_rejects_empty_source() {
    assert_eq!(resize_image(&[], 0, 5, 2, 2), Err(PixelError::EmptySource));
    assert_eq!(resize_image(&[], 0, 5, 0, 2), Ok(vec![]));
}

#[test]
fn resample_rejects_huge_output() {
    let src = gradient(1, 1);
    assert_eq!(
        resize_image(&src, 1, 1, u32::MAX, u32::MAX),
        Err(PixelError::TooLarge)
    );
}

#[test]
fn rotate_by_zero_is_identity() {
    let src = gradient(4, 3);
    let (out, w, h) = rotate(&src, 4, 3, Rotation::identity()).unwrap();
    assert_eq!((w, h), (4, 3));
    assert_eq!(out, src);
}

#[test]
fn rotate_by_quarter_turn_transposes() {
    let src = gradient(3, 2);
    let quarter = Rotation::new(90f64.to_bits(), 0, UNIT);
    let (out, w, h) = rotate(&src, 3, 2, quarter).unwrap();
    assert_eq!((w, h), (2, 3));
    for ny in 0..3 {
        // the first column maps just outside the source
        assert_eq!(pixel(&out, 2, 0, ny), [0, 0, 0, 0]);
        // pixel (1, ny) is source pixel (ny, 2 - 1)
        assert_eq!(pixel(&out, 2, 1, ny), pixel(&src, 3, ny, 1));
    }
}

#[test]
fn rotate_by_half_turn_keeps_size() {
    let src = gradient(2, 2);
    let half = Rotation::new(180f64.to_bits(), -UNIT, 0);
    let (out, w, h) = rotate(&src, 2, 2, half).unwrap();
    assert_eq!((w, h), (2, 2));
    // (0, 0) maps to source (2, 2), outside; (1, 1) maps to (1, 1)
    assert_eq!(pixel(&out, 2, 0, 0), [0, 0, 0, 0]);
    assert_eq!(pixel(&out, 2, 1, 1), pixel(&src, 2, 1, 1));
}

#[test]
fn rotate_expands_bounding_box() {
    // 45 degrees: cos = sin = 46341 / 65536
    let src = gradient(10, 10);
    let rot = Rotation::new(45f64.to_bits(), 46341, 46341);
    let (out, w, h) = rotate(&src, 10, 10, rot).unwrap();
    assert_eq!((w, h), (15, 15));
    assert_eq!(out.len(), 15 * 15 * 4);
    // the corner of the box lies outside the turned image
    assert_eq!(pixel(&out, 15, 0, 0), [0, 0, 0, 0]);
}

#[test]
fn rotate_rejects_length_mismatch() {
    let src = vec![1u8; 7];
    assert_eq!(
        rotate(&src, 1, 2, Rotation::identity()),
        Err(PixelError::LengthMismatch)
    );
}

#[test]
fn rotation_new_clamps_to_unit() {
    let r = Rotation::new(7, 2 * UNIT, -3 * UNIT);
    assert_eq!(r.cos, UNIT);
    assert_eq!(r.sin, -UNIT);
    assert_eq!(r.degrees_bits, 7);
}
