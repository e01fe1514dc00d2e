use agent_spy::clock::{Timestamp, FIRST_SECOND, LAST_SECOND};
use agent_spy::keys::Keymap;
use agent_spy::layout::{Command, FontMetrics};
use agent_spy::loader::Update;
use agent_spy::path::FilePath;
use agent_spy::pixels::RgbaImage;
use agent_spy::text::to_char2b;
use agent_spy::ui::{Atoms, Picture, Shown, Ui};

fn path(text: &str) -> FilePath {
    let names = text.split('/').filter(|name| !name.is_empty());
    FilePath { names: names.map(|name| name.as_bytes().to_vec()).collect() }
}

fn window(count: usize) -> Ui {
    window_with(Some(FontMetrics::new(9, 12, 3)), count)
}

fn window_with(font: Option<FontMetrics>, count: usize) -> Ui {
    let atoms = Atoms { wm_protocols: 1, wm_delete_window: 2 };
    let mut ui = Ui::new(atoms, font, Keymap::new(8, 1, Vec::new()), path("/tmp/plots"), (400, 300));
    ui.list_existing((0..count).map(|i| path(&format!("/tmp/plots/{i}.png"))).collect());
    ui
}

fn image() -> Result<RgbaImage, String> {
    Ok(RgbaImage { width: 2, height: 1, pixels: vec![0; 8] })
}

fn shown(text: &str, modified: Option<Timestamp>) -> Shown {
    Shown::new(path(text), image(), modified)
}

fn local(secs: i64) -> String {
    let time = chrono::DateTime::from_timestamp(secs, 0).unwrap();
    time.with_timezone(&chrono::Local).format("%H:%M:%S").to_string()
}

#[test]
fn labels_without_a_time() {
    let mut ui = window(3);
    assert_eq!(ui.label(&shown("/tmp/plots/2.png", None)), "3/3  2.png");
    ui.select(0);
    assert_eq!(ui.label(&shown("/tmp/plots/sub/0.png", None)), "1/3  sub/0.png");
    assert_eq!(ui.label(&shown("/elsewhere.png", None)), "1/3  /elsewhere.png");
}

#[test]
fn positions_are_padded_to_the_width_of_the_total() {
    let mut ui = window(120);
    assert_eq!(ui.label(&shown("/tmp/plots/x", None)), "120/120  x");
    ui.select(98);
    assert_eq!(ui.label(&shown("/tmp/plots/x", None)), " 99/120  x");
    ui.select(0);
    assert_eq!(ui.label(&shown("/tmp/plots/x", None)), "  1/120  x");
}

#[test]
fn labels_start_with_the_time() {
    let ui = window(1);
    for secs in [0, 1_700_000_000, -86_401, 12_345] {
        let time = Timestamp { secs, nanos: 999_999_999 };
        assert!(time.has_clock_time());
        let label = ui.label(&shown("/tmp/plots/a.png", Some(time)));
        assert_eq!(label, format!("{}  1/1  a.png", local(secs)));
        assert_eq!(label.len(), 8 + 2 + 3 + 2 + 5);
    }
    assert_eq!(ui.label_at(&shown("/tmp/plots/a.png", None), Some("12:34:56")), "12:34:56  1/1  a.png");
}

#[test]
fn each_label_has_the_time_of_its_own_file() {
    let mut ui = window(10);
    for (index, secs) in [(0, 60), (4, 3_661), (9, 1_700_000_000)] {
        ui.select(index);
        let label = ui.label(&shown("/tmp/plots/some.png", Some(Timestamp { secs, nanos: 5 })));
        assert_eq!(label[..8], local(secs));
        assert_eq!(label.len(), 2 * 2 + 13 + "some.png".len());
        assert_eq!(&label[2 * 2 + 13..], "some.png");
        let label = ui.label(&shown("/tmp/plots/some.png", None));
        assert_eq!(&label[2 * 2 + 3..], "some.png");
    }
    let label = |secs| ui.label(&shown("/tmp/plots/a.png", Some(Timestamp { secs, nanos: 0 })));
    assert_ne!(label(0), label(1));
}

#[test]
fn times_at_the_ends_of_the_calendar() {
    let ui = window(1);
    for (secs, beyond) in [(FIRST_SECOND, FIRST_SECOND - 1), (LAST_SECOND, LAST_SECOND + 1)] {
        let time = Timestamp { secs, nanos: 0 };
        assert!(time.has_clock_time());
        assert_eq!(ui.label(&shown("/tmp/plots/a.png", Some(time))).len(), 20);
        assert!(chrono::DateTime::from_timestamp(beyond, 0).is_none());
        assert!(!Timestamp { secs: beyond, nanos: 0 }.has_clock_time());
    }
    assert!(!Timestamp { secs: 0, nanos: 1_000_000_000 }.has_clock_time());
}

#[test]
fn titles() {
    let mut ui = window(0);
    assert_eq!(ui.update_title().unwrap(), "agent-spy — waiting for images in /tmp/plots");
    assert_eq!(ui.update_title(), None);
    ui.apply(Update::Loaded { path: path("/tmp/plots/a.png"), image: image().ok().unwrap() }, None);
    assert_eq!(ui.update_title().unwrap(), "[1/1] a.png — 2×1 — agent-spy");
    assert_eq!(ui.update_title(), None);
    ui.set_shown(Some(Shown::new(path("/tmp/plots/a.png"), Err("broken".to_string()), None)));
    assert_eq!(ui.update_title().unwrap(), "[1/1] a.png — cannot display — agent-spy");
}

fn cleared(command: &Command) -> bool {
    matches!(command, Command::Clear { x: 0, y: 0, width: 0, height: 0 })
}

fn text(command: &Command) -> &[agent_spy::text::Char2b] {
    match command {
        Command::Text { chars, .. } => chars,
        _ => panic!("no text"),
    }
}

#[test]
fn windows_wait_for_images() {
    let commands = window(0).paint();
    assert_eq!(commands.len(), 2);
    assert!(cleared(&commands[0]));
    assert_eq!(text(&commands[1]), to_char2b("Waiting for images in /tmp/plots"));
}

#[test]
fn windows_say_what_went_wrong() {
    let mut ui = window(1);
    ui.set_shown(Some(Shown::new(path("/tmp/plots/0.png"), Err("broken".to_string()), None)));
    let commands = ui.paint();
    assert_eq!(commands.len(), 4);
    assert!(cleared(&commands[0]));
    assert_eq!(text(&commands[1]), to_char2b("Cannot display: broken"));
    assert!(matches!(commands[2], Command::Clear { x: 8, y: 8, height: 23, .. }));
    assert_eq!(text(&commands[3]), to_char2b("1/1  0.png"));
}

#[test]
fn windows_show_pictures_with_a_label() {
    let mut ui = window(1);
    ui.set_shown(Some(shown("/tmp/plots/0.png", Some(Timestamp { secs: 77, nanos: 0 }))));
    ui.set_picture(Picture { id: 31, size: (400, 200) });
    let commands = ui.paint();
    assert_eq!(commands.len(), 5);
    assert!(matches!(commands[0], Command::Clear { x: 0, y: 0, width: 400, height: 50 }));
    assert!(matches!(commands[1], Command::Clear { x: 0, y: 250, width: 400, height: 50 }));
    assert!(matches!(commands[2], Command::Copy { picture: 31, x: 0, y: 50, width: 400, height: 200 }));
    assert!(matches!(commands[3], Command::Clear { x: 8, y: 8, .. }));
    assert_eq!(text(&commands[4]), to_char2b(&format!("{}  1/1  0.png", local(77))));
}

#[test]
fn windows_without_a_picture_are_cleared() {
    let mut ui = window(1);
    ui.set_shown(Some(shown("/tmp/plots/0.png", None)));
    let commands = ui.paint_with(None);
    assert_eq!(commands.len(), 1);
    assert!(cleared(&commands[0]));
    let mut ui = window_with(None, 1);
    ui.set_shown(Some(shown("/tmp/plots/0.png", None)));
    assert_eq!(ui.paint().len(), 1);
}
