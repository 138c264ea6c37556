use term_renderer::color::Color;
use term_renderer::sprite::{compile_sprite, Metadata, Sprite};
use term_renderer::stack::{LayerID, Layerstack};

fn block(width: u16, height: u16, c: Color) -> Sprite {
    let source: String = std::iter::repeat('#').take(width as usize * height as usize).collect();
    let metadata = Metadata { color_map: vec![('#', c)], transparent: '.', height, width, tag: None };
    compile_sprite(&source, metadata).unwrap()
}

fn rank(stack: &Layerstack, id: LayerID) -> u32 {
    stack.layer_fetch(&id).stack_pos
}

fn color_at(stack: &Layerstack, x: usize, y: usize) -> Color {
    let fb = stack.framebuffer();
    fb.buffer()[fb.width() as usize * y + x].color
}

fn assert_dense(stack: &Layerstack, ids: &[LayerID]) {
    let mut ranks: Vec<u32> = ids.iter().map(|id| rank(stack, *id)).collect();
    ranks.sort();
    let expected: Vec<u32> = (0..ids.len() as u32).collect();
    assert_eq!(ranks, expected);
    assert_eq!(stack.len(), ids.len());
}

#[test]
fn add_opens_a_slot() {
    let mut stack = Layerstack::new(4, 4, Color::White);
    stack.layer_add(10, 0);
    stack.layer_add(11, 1);
    stack.layer_add(12, 0);
    assert_eq!(rank(&stack, 12), 0);
    assert_eq!(rank(&stack, 10), 1);
    assert_eq!(rank(&stack, 11), 2);
    assert_dense(&stack, &[10, 11, 12]);
    let layer = stack.layer_fetch(&12);
    assert!(layer.is_rendered);
    assert!(layer.buffer.is_empty());
}

#[test]
fn adding_an_existing_id_changes_nothing() {
    let mut stack = Layerstack::new(4, 4, Color::White);
    stack.layer_add(1, 0);
    stack.layer_add(2, 1);
    stack.layer_add(1, 0);
    stack.layer_add(2, 9);
    assert_eq!(stack.len(), 2);
    assert_eq!(rank(&stack, 1), 0);
    assert_eq!(rank(&stack, 2), 1);
}

#[test]
fn move_down_puts_the_layer_at_the_new_rank() {
    let mut stack = Layerstack::new(4, 4, Color::White);
    stack.layer_add(1, 0);
    stack.layer_add(2, 1);
    stack.layer_add(3, 2);
    stack.layer_move(3, 0);
    assert_eq!(rank(&stack, 3), 0);
    assert_eq!(rank(&stack, 1), 1);
    assert_eq!(rank(&stack, 2), 2);
    assert_dense(&stack, &[1, 2, 3]);
}

#[test]
fn move_up_puts_the_layer_at_the_new_rank() {
    let mut stack = Layerstack::new(4, 4, Color::White);
    stack.layer_add(1, 0);
    stack.layer_add(2, 1);
    stack.layer_add(3, 2);
    stack.layer_move(1, 2);
    assert_eq!(rank(&stack, 2), 0);
    assert_eq!(rank(&stack, 3), 1);
    assert_eq!(rank(&stack, 1), 2);
    assert_dense(&stack, &[1, 2, 3]);
    stack.layer_move(2, 1);
    assert_eq!(rank(&stack, 3), 0);
    assert_eq!(rank(&stack, 2), 1);
    assert_eq!(rank(&stack, 1), 2);
}

#[test]
fn remove_closes_the_slot() {
    let mut stack = Layerstack::new(4, 4, Color::White);
    stack.layer_add(1, 0);
    stack.layer_add(2, 1);
    stack.layer_add(3, 2);
    stack.layer_remove(2);
    assert!(!stack.has_layer(2));
    assert_eq!(rank(&stack, 1), 0);
    assert_eq!(rank(&stack, 3), 1);
    assert_dense(&stack, &[1, 3]);
}

#[test]
fn ranks_stay_dense_over_many_operations() {
    let mut stack = Layerstack::new(2, 2, Color::White);
    let mut ids: Vec<LayerID> = Vec::new();
    for step in 0..40u16 {
        let n = ids.len() as u16;
        match step % 4 {
            0 | 1 => {
                stack.layer_add(step, (step * 7) % (n + 1));
                ids.push(step);
            }
            2 if n > 0 => {
                let id = ids[(step as usize * 3) % ids.len()];
                stack.layer_move(id, (step * 5) % n);
            }
            3 if n > 1 => {
                let id = ids.remove((step as usize) % ids.len());
                stack.layer_remove(id);
            }
            _ => {}
        }
        assert_dense(&stack, &ids);
    }
}

#[test]
fn higher_layer_is_painted_last() {
    let mut stack = Layerstack::new(10, 10, Color::White);
    stack.layer_add(0, 0);
    stack.layer_add(1, 1);
    stack.layer_write_sprite(2, 2, &block(3, 3, Color::Blue), 1);
    stack.layer_write_sprite(0, 0, &block(4, 4, Color::Red), 0);
    stack.layerstack_rasterize();
    assert_eq!(color_at(&stack, 3, 3), Color::Blue);
    assert_eq!(color_at(&stack, 0, 0), Color::Red);
    assert_eq!(color_at(&stack, 4, 4), Color::Blue);
    assert_eq!(color_at(&stack, 9, 9), Color::White);
}

#[test]
fn moving_a_layer_changes_who_wins() {
    let mut stack = Layerstack::new(10, 10, Color::White);
    stack.layer_add(0, 0);
    stack.layer_add(1, 1);
    stack.layer_move(1, 0);
    stack.layer_write_sprite(2, 2, &block(3, 3, Color::Blue), 1);
    stack.layer_write_sprite(0, 0, &block(4, 4, Color::Red), 0);
    stack.layerstack_rasterize();
    assert_eq!(color_at(&stack, 3, 3), Color::Red);
    assert_eq!(color_at(&stack, 4, 4), Color::Blue);
}

#[test]
fn hidden_layer_is_not_drawn() {
    let mut stack = Layerstack::new(5, 5, Color::White);
    stack.layer_add(7, 0);
    stack.layer_write_sprite(0, 0, &block(2, 2, Color::Green), 7);
    stack.layer_set_visibility(7, false);
    assert!(!stack.layer_fetch(&7).is_rendered);
    stack.layerstack_rasterize();
    assert_eq!(color_at(&stack, 0, 0), Color::White);
    stack.layer_set_visibility(7, true);
    stack.layerstack_rasterize();
    assert_eq!(color_at(&stack, 1, 1), Color::Green);
}

#[test]
fn direct_write_stages_one_pixel() {
    let mut stack = Layerstack::new(5, 5, Color::White);
    stack.layer_add(3, 0);
    stack.layer_direct_write(4, 1, Color::Cyan, 3);
    let layer = stack.layer_fetch(&3);
    assert_eq!(layer.buffer.len(), 1);
    assert_eq!(layer.buffer[0].len(), 1);
    assert_eq!((layer.buffer[0][0].x, layer.buffer[0][0].y), (4, 1));
    assert_eq!(color_at(&stack, 4, 1), Color::White);
    stack.layerstack_rasterize();
    assert_eq!(color_at(&stack, 4, 1), Color::Cyan);
}

#[test]
fn staged_sprite_is_clipped_to_the_buffer() {
    let mut stack = Layerstack::new(5, 5, Color::White);
    stack.layer_add(0, 0);
    stack.layer_write_sprite(4, 4, &block(3, 3, Color::Red), 0);
    assert_eq!(stack.layer_fetch(&0).buffer[0].len(), 1);
    stack.layer_write_sprite(9, 0, &block(3, 3, Color::Red), 0);
    assert_eq!(stack.layer_fetch(&0).buffer[1].len(), 0);
}

#[test]
fn wipe_buffers_resets_frame_and_layers() {
    let mut stack = Layerstack::new(6, 6, Color::DarkGrey);
    stack.layer_add(0, 0);
    stack.layer_add(1, 1);
    stack.layer_write_sprite(0, 0, &block(6, 6, Color::Red), 0);
    stack.layer_direct_write(1, 1, Color::Blue, 1);
    stack.layerstack_rasterize();
    assert_eq!(color_at(&stack, 1, 1), Color::Blue);
    stack.wipe_buffers();
    assert!(stack.framebuffer().buffer().iter().all(|p| p.color == Color::DarkGrey));
    assert!(stack.layer_fetch(&0).buffer.is_empty());
    assert!(stack.layer_fetch(&1).buffer.is_empty());
    assert_eq!(rank(&stack, 1), 1);
}

#[test]
fn smiley_scenario_on_a_white_buffer() {
    let source = "
        ░░▓▓░
        ▓░░░▓
        ░░░▓▓
        ▓░░░▓
        ░░▓▓░
    ";
    let metadata = Metadata {
        color_map: vec![('░', Color::Black), ('▓', Color::Magenta)],
        transparent: 'T',
        height: 5,
        width: 5,
        tag: None,
    };
    let sprite = compile_sprite(source, metadata).unwrap();
    let mut stack = Layerstack::new(10, 10, Color::White);
    stack.layer_add(0, 0);
    stack.layer_write_sprite(1, 1, &sprite, 0);
    stack.layerstack_rasterize();
    assert_eq!(color_at(&stack, 1, 1), sprite.pixels[0].color);
    assert_eq!(color_at(&stack, 1, 1), Color::Black);
    assert_eq!(color_at(&stack, 3, 1), Color::Magenta);
    assert_eq!(color_at(&stack, 0, 0), Color::White);
    assert_eq!(color_at(&stack, 5, 5), Color::Black);
    assert_eq!(color_at(&stack, 4, 5), Color::Magenta);
    assert_eq!(color_at(&stack, 6, 6), Color::White);
}
