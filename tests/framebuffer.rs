use term_renderer::color::Color;
use term_renderer::framebuffer::{get_raw_index, FrameBuffer};
use term_renderer::sprite::{compile_sprite, Metadata, Pixel, Sprite};

fn block(width: u16, height: u16, c: Color) -> Sprite {
    let source: String = std::iter::repeat('#').take(width as usize * height as usize).collect();
    let metadata = Metadata { color_map: vec![('#', c)], transparent: '.', height, width, tag: None };
    compile_sprite(&source, metadata).unwrap()
}

#[test]
fn raw_index_is_row_major() {
    assert_eq!(get_raw_index(5, 4, 2), 14);
    assert_eq!(get_raw_index(10, 0, 0), 0);
    assert_eq!(get_raw_index(10, 9, 9), 99);
}

#[test]
fn new_buffer_is_filled_with_background() {
    let fb = FrameBuffer::new(4, 3, Color::White);
    assert_eq!(fb.width(), 4);
    assert_eq!(fb.height(), 3);
    assert_eq!(fb.background(), Color::White);
    let cells = fb.buffer();
    assert_eq!(cells.len(), 12);
    for (i, p) in cells.iter().enumerate() {
        assert_eq!(p.x, (i % 4) as i32);
        assert_eq!(p.y, (i / 4) as i32);
        assert_eq!(p.color, Color::White);
        assert!(p.isrendered);
    }
}

#[test]
fn placement_entirely_outside_emits_nothing() {
    let fb = FrameBuffer::new(10, 10, Color::White);
    let sprite = block(3, 3, Color::Red);
    assert!(fb.to_worldspace(10, 0, &sprite).is_empty());
    assert!(fb.to_worldspace(0, 10, &sprite).is_empty());
    assert!(fb.to_worldspace(500, 500, &sprite).is_empty());
}

#[test]
fn placement_at_origin_keeps_every_pixel() {
    let fb = FrameBuffer::new(10, 10, Color::White);
    let sprite = block(3, 2, Color::Red);
    let placed = fb.to_worldspace(0, 0, &sprite);
    assert_eq!(placed, sprite.pixels);
    assert_eq!(placed.len(), 6);
}

#[test]
fn placement_clips_per_pixel() {
    let fb = FrameBuffer::new(10, 10, Color::White);
    let sprite = block(3, 3, Color::Red);
    let placed = fb.to_worldspace(8, 9, &sprite);
    // columns 8 and 9 of row 9 remain
    assert_eq!(placed.len(), 2);
    assert_eq!((placed[0].x, placed[0].y), (8, 9));
    assert_eq!((placed[1].x, placed[1].y), (9, 9));
    assert_eq!(placed[0].color, Color::Red);
}

#[test]
fn write_paints_the_sprite_cells() {
    let mut fb = FrameBuffer::new(5, 5, Color::White);
    let sprite = block(2, 2, Color::Blue);
    fb.write(1, 2, &sprite);
    let cells = fb.buffer();
    for (i, p) in cells.iter().enumerate() {
        let inside = (1..3).contains(&(i % 5)) && (2..4).contains(&(i / 5));
        assert_eq!(p.color, if inside { Color::Blue } else { Color::White });
        assert_eq!(p.x, (i % 5) as i32);
    }
}

#[test]
fn blit_skips_pixels_outside_and_transparent_ones() {
    let mut fb = FrameBuffer::new(3, 3, Color::White);
    let groups = vec![vec![
        Pixel { x: -1, y: 0, color: Color::Red, isrendered: true },
        Pixel { x: 0, y: 3, color: Color::Red, isrendered: true },
        Pixel { x: 1, y: 1, color: Color::Green, isrendered: false },
        Pixel { x: 2, y: 2, color: Color::Green, isrendered: true },
    ]];
    fb.blit(&groups);
    let colors: Vec<Color> = fb.buffer().iter().map(|p| p.color).collect();
    let mut expected = vec![Color::White; 9];
    expected[8] = Color::Green;
    assert_eq!(colors, expected);
}

#[test]
fn blit_last_writer_wins() {
    let mut fb = FrameBuffer::new(3, 1, Color::White);
    let groups = vec![
        vec![Pixel { x: 1, y: 0, color: Color::Red, isrendered: true }],
        vec![Pixel { x: 1, y: 0, color: Color::Blue, isrendered: true }],
    ];
    fb.blit(&groups);
    assert_eq!(fb.buffer()[1].color, Color::Blue);
}

#[test]
fn reset_restores_background() {
    let mut fb = FrameBuffer::new(4, 4, Color::Black);
    fb.write(0, 0, &block(4, 4, Color::Yellow));
    assert!(fb.buffer().iter().all(|p| p.color == Color::Yellow));
    fb.reset();
    assert!(fb.buffer().iter().all(|p| p.color == Color::Black));
}

#[test]
fn zero_sized_buffer_has_no_cells() {
    let mut fb = FrameBuffer::new(0, 5, Color::White);
    assert_eq!(fb.buffer().len(), 0);
    fb.paint(&Pixel { x: 0, y: 0, color: Color::Red, isrendered: true });
    assert_eq!(fb.buffer().len(), 0);
}

#[test]
fn a_negative_coordinate_with_an_index_in_range_is_painted() {
    let mut fb = FrameBuffer::new(3, 3, Color::White);
    fb.paint(&Pixel { x: -1, y: 1, color: Color::Red, isrendered: true });
    assert_eq!(fb.buffer()[2].color, Color::Red);
    fb.paint(&Pixel { x: 4, y: 0, color: Color::Blue, isrendered: true });
    assert_eq!(fb.buffer()[4].color, Color::Blue);
    fb.paint(&Pixel { x: -1, y: 0, color: Color::Green, isrendered: true });
    assert!(fb.buffer().iter().all(|p| p.color != Color::Green));
}
