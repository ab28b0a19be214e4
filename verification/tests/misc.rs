use tearchan::bitmap::Bitmap;
use tearchan::horde::{DirectionState, EntityType, WaitState};
use tearchan::registry::Storage;

#[test]
fn bitmap_rows_and_colors() {
    let pixels: Vec<u8> = (0u8..24).collect();
    let mut bitmap = Bitmap::new(pixels, 3, 2);
    assert_eq!(bitmap.width(), 3);
    assert_eq!(bitmap.height(), 2);
    assert_eq!(bitmap.stride(), 4);
    assert_eq!(bitmap.row(1), &[12u8, 13, 14, 15, 16, 17, 18, 19, 20, 21, 22, 23][..]);
    bitmap.set_color(1, 1, &(1, 2, 3, 4));
    assert_eq!(bitmap.row(1), &[12u8, 13, 14, 15, 1, 2, 3, 4, 20, 21, 22, 23][..]);
    assert_eq!(bitmap.row(0), &[0u8, 1, 2, 3, 4, 5, 6, 7, 8, 9, 10, 11][..]);
}

#[test]
fn bitmap_empty_is_one_white_pixel() {
    let bitmap = Bitmap::new_empty();
    assert_eq!(bitmap.width(), 1);
    assert_eq!(bitmap.height(), 1);
    assert_eq!(bitmap.row(0), &[255u8, 255, 255, 255][..]);
}

#[test]
fn storage_register_read_write_unregister() {
    let mut storage = Storage::new();
    storage.register(3, "three".to_string());
    storage.register(5, "five".to_string());
    assert_eq!(storage.read(3), "three");
    storage.write(5).push('!');
    assert_eq!(storage.read(5), "five!");
    storage.register(3, "drei".to_string());
    assert_eq!(storage.read(3), "drei");
    assert_eq!(storage.unregister(3), Some("drei".to_string()));
    assert_eq!(storage.unregister(3), None);
    assert_eq!(storage.read(5), "five!");
}

#[test]
fn direction_steps() {
    assert_eq!(DirectionState::Right.get_vec2(), (1, 0));
    assert_eq!(DirectionState::Left.get_vec2(), (-1, 0));
    assert_eq!(DirectionState::Up.get_vec2(), (0, -1));
    assert_eq!(DirectionState::Down.get_vec2(), (0, 1));
    assert_eq!(DirectionState::Stay.get_vec2(), (0, 0));
}

#[test]
fn direction_from_diff_round_trip() {
    for d in [DirectionState::Right, DirectionState::Left, DirectionState::Up, DirectionState::Down] {
        let (x, y) = d.get_vec2();
        assert_eq!(DirectionState::from_diff(x, y), d);
    }
    assert_eq!(DirectionState::from_diff(0, 0), DirectionState::Up);
    assert_eq!(DirectionState::from_diff(2, 5), DirectionState::Right);
    assert_eq!(DirectionState::from_diff(-2, 5), DirectionState::Down);
    assert_eq!(DirectionState::from_diff(-2, -5), DirectionState::Left);
}

#[test]
fn entity_types_compare() {
    assert_ne!(EntityType::Player, EntityType::Enemy);
    assert_eq!(EntityType::Passage, EntityType::Passage);
    assert_eq!(WaitState, WaitState);
}

use tearchan::horde::{destination_cell, destination_fits, next_move, AxisOffset};

#[test]
fn destination_from_the_centre_steps() {
    let c = AxisOffset::Centered;
    assert_eq!(destination_cell((3, 4), DirectionState::Right, c, c), (4, 4));
    assert_eq!(destination_cell((3, 4), DirectionState::Up, c, c), (3, 3));
    assert_eq!(destination_cell((3, 4), DirectionState::Stay, c, c), (3, 4));
}

#[test]
fn destination_off_the_centre_finishes_the_move() {
    let c = AxisOffset::Centered;
    assert_eq!(destination_cell((3, 4), DirectionState::Right, AxisOffset::Before, c), (3, 4));
    assert_eq!(destination_cell((3, 4), DirectionState::Left, AxisOffset::Before, c), (2, 4));
    assert_eq!(destination_cell((3, 4), DirectionState::Right, AxisOffset::After, c), (4, 4));
    assert_eq!(destination_cell((3, 4), DirectionState::Up, AxisOffset::After, c), (3, 4));
    assert_eq!(destination_cell((3, 4), DirectionState::Down, c, AxisOffset::After), (3, 5));
    assert_eq!(destination_cell((3, 4), DirectionState::Down, c, AxisOffset::Before), (3, 4));
}

#[test]
fn next_move_needs_a_path() {
    let c = AxisOffset::Centered;
    let paths = vec![(4, 4), (3, 5)];
    assert_eq!(next_move((3, 4), DirectionState::Right, c, c, &paths), Some((4, 4)));
    assert_eq!(next_move((3, 4), DirectionState::Left, c, c, &paths), None);
    assert_eq!(next_move((3, 4), DirectionState::Stay, c, c, &paths), None);
    assert_eq!(next_move((3, 4), DirectionState::Down, c, c, &paths), Some((3, 5)));
}

use tearchan::image::Image;

#[test]
fn image_pixels() {
    let mut image = Image::new_empty_with_size((2, 2));
    assert_eq!(image.size(), &(2, 2));
    assert_eq!(image.bytes().len(), 16);
    assert_eq!(image.get_color((1, 1)), (0, 0, 0, 0));
    image.set_color((1, 1), (9, 8, 7, 6));
    assert_eq!(image.get_color((1, 1)), (9, 8, 7, 6));
    assert_eq!(image.row(1), &[0u8, 0, 0, 0, 9, 8, 7, 6][..]);
    assert_eq!(image.row(0), &[0u8; 8][..]);
    assert_eq!(image.stride(), 4);
    let empty = Image::new_empty();
    assert_eq!(empty.get_color((0, 0)), (255, 255, 255, 255));
}

#[test]
fn zero_width_rows_are_empty() {
    let bitmap = Bitmap::new(Vec::new(), 0, 3);
    assert_eq!(bitmap.row(7), &[] as &[u8]);
    let image = Image::new(Vec::new(), (0, 2));
    assert_eq!(image.row(5), &[] as &[u8]);
}

#[test]
fn destination_at_the_edge_of_the_grid() {
    let c = AxisOffset::Centered;
    let edge = (i32::MAX, i32::MIN);
    assert!(destination_fits(edge, DirectionState::Left, c, c));
    assert_eq!(destination_cell(edge, DirectionState::Left, c, c), (i32::MAX - 1, i32::MIN));
    assert!(!destination_fits(edge, DirectionState::Right, c, c));
    assert!(!destination_fits(edge, DirectionState::Up, c, c));
    assert!(destination_fits(edge, DirectionState::Right, AxisOffset::Before, c));
    assert_eq!(destination_cell(edge, DirectionState::Right, AxisOffset::Before, c), edge);
    assert_eq!(next_move(edge, DirectionState::Down, c, c, &vec![(i32::MAX, i32::MIN + 1)]), Some((i32::MAX, i32::MIN + 1)));
}
