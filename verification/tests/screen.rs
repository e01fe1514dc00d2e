use agent_spy::screen::{check_visual, window_size, Depth, Screen, VisualType};

const USUAL: VisualType =
    VisualType { visual_id: 33, class: 4, red_mask: 0xff0000, green_mask: 0xff00, blue_mask: 0xff };

fn screen(root_depth: u8, depths: Vec<Vec<VisualType>>) -> Screen {
    Screen {
        root_visual: 33,
        root_depth,
        width_in_pixels: 1920,
        height_in_pixels: 1080,
        allowed_depths: depths.into_iter().map(|visuals| Depth { visuals }).collect(),
    }
}

#[test]
fn the_usual_visual_is_supported() {
    let other = VisualType { visual_id: 32, class: 5, ..USUAL };
    assert!(check_visual(&screen(24, vec![vec![USUAL]])).is_ok());
    assert!(check_visual(&screen(24, vec![vec![], vec![other], vec![other, USUAL]])).is_ok());
}

#[test]
fn other_visuals_are_not() {
    let message = "unsupported X display: need a 24-bit TrueColor visual";
    let wrong = [
        screen(24, vec![]),
        screen(24, vec![vec![VisualType { visual_id: 34, ..USUAL }]]),
        screen(30, vec![vec![USUAL]]),
        screen(24, vec![vec![VisualType { class: 5, ..USUAL }]]),
        screen(24, vec![vec![VisualType { red_mask: 0xff, ..USUAL }]]),
        screen(24, vec![vec![VisualType { green_mask: 0xff, ..USUAL }]]),
        screen(24, vec![vec![VisualType { blue_mask: 0xff0000, ..USUAL }]]),
    ];
    for screen in wrong {
        assert_eq!(check_visual(&screen), Err(message.to_string()));
    }
}

#[test]
fn the_first_visual_of_the_number_counts() {
    let wrong = VisualType { class: 3, ..USUAL };
    assert!(check_visual(&screen(24, vec![vec![wrong], vec![USUAL]])).is_err());
    assert!(check_visual(&screen(24, vec![vec![USUAL], vec![wrong]])).is_ok());
}

#[test]
fn windows_fit_on_the_screen() {
    let mut screen = screen(24, vec![]);
    assert_eq!(window_size(&screen), (1024, 768));
    screen.width_in_pixels = 800;
    screen.height_in_pixels = 600;
    assert_eq!(window_size(&screen), (800, 600));
    screen.width_in_pixels = 1025;
    assert_eq!(window_size(&screen), (1024, 600));
}
