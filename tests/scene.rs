use image_canvas::raster::{Rotation, UNIT};
use image_canvas::scene::{ImageManager, Outline, SceneError};

fn solid(w: u32, h: u32, rgba: [u8; 4]) -> Vec<u8> {
    let mut v = Vec::new();
    for _ in 0..w * h {
        v.extend_from_slice(&rgba);
    }
    v
}

const RED: [u8; 4] = [255, 0, 0, 255];
const BLUE: [u8; 4] = [0, 0, 255, 255];

#[test]
fn add_returns_distinct_ids() {
    let mut m = ImageManager::new();
    let a = m.add_image(2, 2, solid(2, 2, RED)).unwrap();
    let b = m.add_image(3, 1, solid(3, 1, BLUE)).unwrap();
    let c = m.add_image(1, 1, solid(1, 1, RED)).unwrap();
    assert_ne!(a, b);
    assert_ne!(b, c);
    assert_ne!(a, c);
    assert_eq!(m.get_image_size(a), vec![2, 2, 2, 2]);
    assert_eq!(m.get_image_size(b), vec![3, 1, 3, 1]);
    assert_eq!(m.get_image_pos(c), vec![0, 0]);
}

#[test]
fn ids_are_not_reused_after_delete() {
    let mut m = ImageManager::new();
    let a = m.add_image(1, 1, solid(1, 1, RED)).unwrap();
    let b = m.add_image(1, 1, solid(1, 1, BLUE)).unwrap();
    assert_eq!(m.select_image(0, 0), Some(b));
    m.delete_selected_image();
    let c = m.add_image(1, 1, solid(1, 1, BLUE)).unwrap();
    assert_ne!(c, a);
    assert_ne!(c, b);
    assert_eq!(m.get_image_size(b), Vec::<u32>::new());
    assert_eq!(m.get_image_size(a), vec![1, 1, 1, 1]);
}

#[test]
fn add_rejects_invalid_dimensions() {
    let mut m = ImageManager::new();
    assert_eq!(m.add_image(0, 2, vec![]), Err(SceneError::InvalidDimensions));
    assert_eq!(m.add_image(2, 0, vec![]), Err(SceneError::InvalidDimensions));
    assert_eq!(m.add_image(2, 2, vec![0; 15]), Err(SceneError::InvalidDimensions));
    assert_eq!(m.select_image(0, 0), None);
}

#[test]
fn moves_change_position() {
    let mut m = ImageManager::new();
    let a = m.add_image(2, 2, solid(2, 2, RED)).unwrap();
    m.move_image_absolute(a, 10, -4);
    assert_eq!(m.get_image_pos(a), vec![10, -4]);
    m.move_image_relative(a, 5, 6);
    assert_eq!(m.get_image_pos(a), vec![15, 2]);
    m.move_image_relative(a, i32::MAX, i32::MIN);
    assert_eq!(m.get_image_pos(a), vec![i32::MAX, i32::MIN + 2]);
    m.move_image_relative(a, 0, i32::MIN);
    assert_eq!(m.get_image_pos(a), vec![i32::MAX, i32::MIN]);
}

#[test]
fn unknown_ids_are_ignored() {
    let mut m = ImageManager::new();
    let a = m.add_image(1, 1, solid(1, 1, RED)).unwrap();
    m.move_image_absolute(a + 1, 9, 9);
    m.move_image_relative(a + 1, 9, 9);
    assert_eq!(m.update_image_size(a + 1, 3, 3), Ok(()));
    m.update_image_rotation(a + 1, Rotation::new(1, 0, UNIT));
    assert_eq!(m.get_image_pos(a), vec![0, 0]);
    assert_eq!(m.get_image_size(a), vec![1, 1, 1, 1]);
    assert_eq!(m.get_image_size(a + 1), Vec::<u32>::new());
    assert_eq!(m.get_image_pos(a + 1), Vec::<i32>::new());
    assert_eq!(m.get_image_rotation(a + 1), Rotation::identity());
}

#[test]
fn select_prefers_topmost() {
    let mut m = ImageManager::new();
    let a = m.add_image(4, 4, solid(4, 4, RED)).unwrap();
    let b = m.add_image(4, 4, solid(4, 4, BLUE)).unwrap();
    m.move_image_absolute(b, 2, 2);
    assert_eq!(m.select_image(3, 3), Some(b));
    assert_eq!(m.select_image(1, 1), Some(a));
    assert_eq!(m.select_image(5, 5), Some(b));
    // right and bottom edges are outside the rectangle
    assert_eq!(m.select_image(6, 3), None);
    assert_eq!(m.select_image(3, 6), None);
}

#[test]
fn select_ignores_rotation() {
    let mut m = ImageManager::new();
    let a = m.add_image(4, 1, solid(4, 1, RED)).unwrap();
    m.update_image_rotation(a, Rotation::new(90f64.to_bits(), 0, UNIT));
    assert_eq!(m.select_image(3, 0), Some(a));
    assert_eq!(m.select_image(0, 2), None);
}

#[test]
fn end_to_end_scene() {
    let mut m = ImageManager::new();
    let a = m.add_image(10, 10, solid(10, 10, RED)).unwrap();
    let b = m.add_image(10, 10, solid(10, 10, BLUE)).unwrap();
    assert_eq!(m.select_image(5, 5), Some(b));
    m.move_image_absolute(b, 100, 100);
    assert_eq!(m.select_image(5, 5), Some(a));
    m.delete_selected_image();
    assert_eq!(m.select_image(5, 5), None);
    assert_eq!(m.get_image_size(a), Vec::<u32>::new());
    assert_eq!(m.get_image_pos(b), vec![100, 100]);
}

#[test]
fn deleted_id_is_not_found() {
    let mut m = ImageManager::new();
    let a = m.add_image(2, 2, solid(2, 2, RED)).unwrap();
    m.move_image_absolute(a, 3, 4);
    m.update_image_rotation(a, Rotation::new(30f64.to_bits(), 56756, 32768));
    assert_eq!(m.select_image(3, 4), Some(a));
    m.delete_selected_image();
    assert_eq!(m.get_image_size(a), Vec::<u32>::new());
    assert_eq!(m.get_image_pos(a), Vec::<i32>::new());
    assert_eq!(m.get_image_rotation(a), Rotation::identity());
    let frame = m.render().unwrap();
    assert!(frame.is_empty());
    // a second delete with nothing selected changes nothing
    m.delete_selected_image();
}

#[test]
fn resize_rejects_zero() {
    let mut m = ImageManager::new();
    let a = m.add_image(3, 2, solid(3, 2, RED)).unwrap();
    assert_eq!(m.update_image_size(a, 5, 6), Ok(()));
    assert_eq!(m.update_image_size(a, 0, 6), Err(SceneError::InvalidDimensions));
    assert_eq!(m.get_image_size(a), vec![5, 6, 3, 2]);
    assert_eq!(m.update_image_size(a, 7, 0), Err(SceneError::InvalidDimensions));
    assert_eq!(m.get_image_size(a), vec![5, 6, 3, 2]);
}

#[test]
fn resize_keeps_position() {
    let mut m = ImageManager::new();
    let a = m.add_image(3, 2, solid(3, 2, RED)).unwrap();
    m.move_image_absolute(a, 7, 8);
    assert_eq!(m.update_image_size(a, 9, 9), Ok(()));
    assert_eq!(m.get_image_pos(a), vec![7, 8]);
}

#[test]
fn rotation_is_stored() {
    let mut m = ImageManager::new();
    let a = m.add_image(1, 1, solid(1, 1, RED)).unwrap();
    assert_eq!(m.get_image_rotation(a), Rotation::identity());
    let r = Rotation::new(450f64.to_bits(), 0, UNIT);
    m.update_image_rotation(a, r);
    assert_eq!(m.get_image_rotation(a), r);
    assert_eq!(f64::from_bits(m.get_image_rotation(a).degrees_bits), 450.0);
}

#[test]
fn render_resamples_and_places() {
    let mut m = ImageManager::new();
    let a = m.add_image(1, 1, solid(1, 1, RED)).unwrap();
    let b = m.add_image(2, 1, vec![1, 2, 3, 4, 5, 6, 7, 8]).unwrap();
    m.move_image_absolute(a, 10, 20);
    assert_eq!(m.update_image_size(a, 2, 3), Ok(()));
    assert_eq!(m.update_image_size(b, 4, 1), Ok(()));
    let frame = m.render().unwrap();
    assert_eq!(frame.len(), 2);
    assert_eq!(frame[0].pixels, solid(2, 3, RED));
    assert_eq!((frame[0].width, frame[0].height), (2, 3));
    assert_eq!((frame[0].left_twice, frame[0].top_twice), (20, 40));
    assert_eq!(frame[0].outline, None);
    assert_eq!(
        frame[1].pixels,
        vec![1, 2, 3, 4, 1, 2, 3, 4, 5, 6, 7, 8, 5, 6, 7, 8]
    );
    assert_eq!(frame[1].outline, None);
}

#[test]
fn render_centres_rotated_box_and_outlines_selection() {
    let mut m = ImageManager::new();
    let a = m.add_image(4, 2, solid(4, 2, BLUE)).unwrap();
    m.move_image_absolute(a, 10, 20);
    m.update_image_rotation(a, Rotation::new(90f64.to_bits(), 0, UNIT));
    assert_eq!(m.select_image(11, 21), Some(a));
    let frame = m.render().unwrap();
    assert_eq!((frame[0].width, frame[0].height), (2, 4));
    // box centred on the display rectangle: left = 10 - (2 - 4) / 2 = 11,
    // top = 20 - (4 - 2) / 2 = 19
    assert_eq!((frame[0].left_twice, frame[0].top_twice), (22, 38));
    assert_eq!(
        frame[0].outline,
        Some(Outline { x: 8, y: 18, width: 8, height: 6 })
    );
}
