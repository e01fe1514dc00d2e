use agent_spy::layout::{draw_centered, draw_label, paint_picture, Command, FontMetrics, FONTS};
use agent_spy::text::to_char2b;

fn font() -> FontMetrics {
    FontMetrics::new(9, 12, 3)
}

fn shapes(commands: &[Command]) -> Vec<(char, i32, i32, usize, usize)> {
    let shape = |command: &Command| match command {
        Command::Clear { x, y, width, height } => {
            ('c', i32::from(*x), i32::from(*y), usize::from(*width), usize::from(*height))
        }
        Command::Copy { picture, x, y, width, height } => {
            assert_eq!(*picture, 77);
            ('p', i32::from(*x), i32::from(*y), usize::from(*width), usize::from(*height))
        }
        Command::Text { x, y, chars } => ('t', i32::from(*x), i32::from(*y), chars.len(), 0),
    };
    commands.iter().map(shape).collect()
}

#[test]
fn the_last_font_is_always_there() {
    assert_eq!(FONTS, ["-misc-fixed-medium-r-normal--15-*-*-*-c-90-iso10646-1", "9x15", "fixed"]);
}

#[test]
fn width_of_text() {
    assert_eq!(font().width(&to_char2b("")), 0);
    assert_eq!(font().width(&to_char2b("hello")), 45);
    assert_eq!(FontMetrics::new(-2, 0, 0).width(&to_char2b("abc")), -6);
}

#[test]
fn usable_fonts() {
    assert!(font().is_usable());
    assert!(FontMetrics::new(8_421_247, i16::MAX, i16::MIN).is_usable());
    assert!(!FontMetrics::new(8_421_248, 0, 0).is_usable());
    assert!(!FontMetrics::new(i32::MIN, 0, 0).is_usable());
}

#[test]
fn text_in_the_middle() {
    // (1000 - 90) / 2 and (700 + 12 - 3) / 2.
    assert_eq!(shapes(&draw_centered(&Some(font()), (1000, 700), "0123456789")), [('t', 455, 354, 10, 0)]);
    // Text that is too wide starts at the margin.
    assert_eq!(shapes(&draw_centered(&Some(font()), (50, 700), "0123456789")), [('t', 8, 354, 10, 0)]);
    assert!(draw_centered(&None, (1000, 700), "0123456789").is_empty());
}

#[test]
fn halves_are_rounded_towards_zero() {
    let deep = FontMetrics::new(9, 0, 11);
    assert_eq!(shapes(&draw_centered(&Some(deep), (0, 0), "x")), [('t', 8, -5, 1, 0)]);
}

#[test]
fn text_in_the_corner() {
    assert_eq!(
        shapes(&draw_label(&Some(font()), "abcd")),
        [('c', 8, 8, 4 * 9 + 8, 12 + 3 + 8), ('t', 12, 24, 4, 0)]
    );
    assert!(draw_label(&None, "abcd").is_empty());
}

#[test]
fn labels_have_a_size() {
    let wide = FontMetrics::new(1000, 12, 3);
    assert_eq!(shapes(&draw_label(&Some(wide), &"x".repeat(100)))[0], ('c', 8, 8, 65535, 23));
    let flat = FontMetrics::new(-9, -20, 3);
    assert_eq!(shapes(&draw_label(&Some(flat), "abcd"))[0], ('c', 8, 8, 1, 1));
}

#[test]
fn pictures_are_centered_between_borders() {
    assert_eq!(
        shapes(&paint_picture((100, 50), 77, (60, 21))),
        [
            ('c', 0, 0, 100, 14),
            ('c', 0, 35, 100, 15),
            ('c', 0, 14, 20, 21),
            ('c', 80, 14, 20, 21),
            ('p', 20, 14, 60, 21),
        ]
    );
}

#[test]
fn empty_borders_are_not_cleared() {
    assert_eq!(shapes(&paint_picture((100, 50), 77, (100, 50))), [('p', 0, 0, 100, 50)]);
    assert_eq!(
        shapes(&paint_picture((100, 50), 77, (100, 49))),
        [('c', 0, 49, 100, 1), ('p', 0, 0, 100, 49)]
    );
    assert_eq!(shapes(&paint_picture((0, 0), 77, (1, 1))), [('p', 0, 0, 1, 1)]);
}

#[test]
fn borders_and_picture_tile_the_window() {
    for (width, height, w, h) in [(20, 15, 7, 4), (20, 15, 20, 4), (9, 9, 9, 9), (5, 8, 1, 8)] {
        let mut covered = vec![0; width * height];
        for (_, x, y, w, h) in shapes(&paint_picture((width as u16, height as u16), 77, (w, h))) {
            for row in y as usize..y as usize + h {
                for column in x as usize..x as usize + w {
                    covered[row * width + column] += 1;
                }
            }
        }
        assert!(covered.iter().all(|count| *count == 1));
    }
}

#[test]
fn far_coordinates_wrap() {
    assert_eq!(
        shapes(&paint_picture((65535, 10), 77, (1, 10))),
        [('c', 0, 0, 32767, 10), ('c', -32768, 0, 32767, 10), ('p', 32767, 0, 1, 10)]
    );
}
