use term_renderer::color::Color;
use term_renderer::sprite::{compile_grid, compile_sprite, Metadata, SpriteError};

const SMILEY: &str = "
        ░░▓▓░
        ▓░░░▓
        ░░░▓▓
        ▓░░░▓
        ░░▓▓░
    ";

fn smiley_metadata(width: u16, height: u16) -> Metadata {
    Metadata {
        color_map: vec![('░', Color::Black), ('▓', Color::Magenta)],
        transparent: 'T',
        height,
        width,
        tag: None,
    }
}

#[test]
fn compiles_five_by_five_in_row_major_order() {
    let sprite = compile_sprite(SMILEY, smiley_metadata(5, 5)).unwrap();
    assert_eq!(sprite.pixels.len(), 25);
    assert_eq!(sprite.width, 5);
    assert_eq!(sprite.height, 5);
    assert_eq!(sprite.center, (2, 2));
    assert!(sprite.tag.is_none());
    for (i, p) in sprite.pixels.iter().enumerate() {
        assert_eq!(p.x, (i % 5) as i32);
        assert_eq!(p.y, (i / 5) as i32);
        assert!(p.isrendered);
    }
    // first row: ░░▓▓░
    assert_eq!(sprite.pixels[0].color, Color::Black);
    assert_eq!(sprite.pixels[1].color, Color::Black);
    assert_eq!(sprite.pixels[2].color, Color::Magenta);
    assert_eq!(sprite.pixels[3].color, Color::Magenta);
    assert_eq!(sprite.pixels[4].color, Color::Black);
    // second row starts with ▓
    assert_eq!(sprite.pixels[5].color, Color::Magenta);
    assert_eq!(sprite.pixels[5].x, 0);
    assert_eq!(sprite.pixels[5].y, 1);
}

#[test]
fn layout_characters_are_removed_before_the_size_check() {
    let source = "\n  ░▓\t\n  ▓░  \n";
    let sprite = compile_sprite(source, smiley_metadata(2, 2)).unwrap();
    let colors: Vec<Color> = sprite.pixels.iter().map(|p| p.color).collect();
    assert_eq!(colors, vec![Color::Black, Color::Magenta, Color::Magenta, Color::Black]);
}

#[test]
fn size_mismatch_reports_both_counts() {
    let r = compile_sprite(SMILEY, smiley_metadata(5, 4));
    let err = r.err().unwrap();
    assert_eq!(err, SpriteError::AspectMismatch { expected: 20, actual: 25 });
    let message = err.message();
    assert!(message.contains("expected 20"));
    assert!(message.contains("real 25"));
    assert!(message.contains("palette"));
}

#[test]
fn missing_palette_entry_gives_a_mismatch() {
    let metadata = Metadata {
        color_map: vec![('░', Color::Black)],
        transparent: 'T',
        height: 5,
        width: 5,
        tag: None,
    };
    let err = compile_sprite(SMILEY, metadata).err().unwrap();
    assert_eq!(err, SpriteError::AspectMismatch { expected: 25, actual: 15 });
}

#[test]
fn transparent_cells_are_not_rendered() {
    let metadata = Metadata {
        color_map: vec![('#', Color::Red)],
        transparent: '.',
        height: 1,
        width: 3,
        tag: None,
    };
    let sprite = compile_sprite("#.#", metadata).unwrap();
    assert!(sprite.pixels[0].isrendered);
    assert!(!sprite.pixels[1].isrendered);
    assert_eq!(sprite.pixels[1].color, Color::Black);
    assert_eq!(sprite.pixels[2].color, Color::Red);
}

#[test]
fn transparent_marker_wins_over_a_palette_entry() {
    let metadata = Metadata {
        color_map: vec![('.', Color::Green), ('#', Color::Red)],
        transparent: '.',
        height: 1,
        width: 2,
        tag: None,
    };
    let sprite = compile_sprite(".#", metadata).unwrap();
    assert!(!sprite.pixels[0].isrendered);
    assert_eq!(sprite.pixels[0].color, Color::Black);
}

#[test]
fn palette_keys_must_be_unique() {
    let metadata = Metadata {
        color_map: vec![('#', Color::Red), ('.', Color::Green), ('#', Color::Blue)],
        transparent: '.',
        height: 1,
        width: 1,
        tag: None,
    };
    assert!(!metadata.keys_unique());
    assert!(smiley_metadata(5, 5).keys_unique());
    let empty = Metadata { color_map: vec![], transparent: '.', height: 0, width: 0, tag: None };
    assert!(empty.keys_unique());
}

#[test]
fn the_tag_is_carried_over() {
    let metadata = Metadata {
        color_map: vec![('#', Color::Red)],
        transparent: '.',
        height: 1,
        width: 1,
        tag: Some(String::from("enemies")),
    };
    let sprite = compile_sprite("#", metadata).unwrap();
    assert_eq!(sprite.tag.as_deref(), Some("enemies"));
}

#[test]
fn pattern_characters_in_the_palette_are_taken_literally() {
    let metadata = Metadata {
        color_map: vec![(']', Color::Red), ('-', Color::Green), ('^', Color::Blue), ('\\', Color::Cyan)],
        transparent: '.',
        height: 1,
        width: 5,
        tag: None,
    };
    let sprite = compile_sprite("a]b-c^d\\e.f", metadata).unwrap();
    let colors: Vec<Color> = sprite.pixels.iter().map(|p| p.color).collect();
    assert_eq!(colors[0..4].to_vec(), vec![Color::Red, Color::Green, Color::Blue, Color::Cyan]);
    assert!(!sprite.pixels[4].isrendered);
}

#[test]
fn a_large_palette_is_accepted() {
    let mut color_map = Vec::new();
    for i in 0..256u32 {
        color_map.push((char::from_u32(0x4E00 + i).unwrap(), Color::AnsiValue(i as u8)));
    }
    let source: String = (0..256u32).map(|i| char::from_u32(0x4E00 + i).unwrap()).collect();
    let metadata = Metadata { color_map, transparent: '.', height: 16, width: 16, tag: None };
    let sprite = compile_sprite(&source, metadata).unwrap();
    assert_eq!(sprite.pixels.len(), 256);
    assert_eq!(sprite.pixels[255].color, Color::AnsiValue(255));
    assert_eq!(sprite.pixels[255].x, 15);
    assert_eq!(sprite.pixels[255].y, 15);
}

#[test]
fn compiling_twice_gives_the_same_sprite() {
    let a = compile_sprite(SMILEY, smiley_metadata(5, 5)).unwrap();
    let b = compile_sprite(SMILEY, smiley_metadata(5, 5)).unwrap();
    assert_eq!(a.pixels, b.pixels);
    assert_eq!(a.width, b.width);
    assert_eq!(a.height, b.height);
    assert_eq!(a.center, b.center);
}

#[test]
fn empty_grid_with_zero_size_compiles_to_nothing() {
    let sprite = compile_sprite("   ", smiley_metadata(0, 7)).unwrap();
    assert_eq!(sprite.pixels.len(), 0);
    assert_eq!(sprite.center, (0, 3));
}

#[test]
fn compile_grid_takes_a_sanitized_grid() {
    let grid = vec!['▓', '░', '░', '▓', 'T', '▓'];
    let sprite = compile_grid(&grid, &smiley_metadata(3, 2)).unwrap();
    assert_eq!(sprite.pixels.len(), 6);
    assert_eq!(sprite.pixels[3].x, 0);
    assert_eq!(sprite.pixels[3].y, 1);
    assert_eq!(sprite.pixels[3].color, Color::Magenta);
    assert!(!sprite.pixels[4].isrendered);
    assert_eq!(sprite.center, (1, 1));
    let err = compile_grid(&grid, &smiley_metadata(2, 2)).err().unwrap();
    assert_eq!(err, SpriteError::AspectMismatch { expected: 4, actual: 6 });
}

#[test]
fn palette_rejected_has_a_message() {
    let message = SpriteError::PaletteRejected.message();
    assert!(message.contains("palette"));
}
