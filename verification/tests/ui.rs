use agent_spy::clock::Timestamp;
use agent_spy::keys::Keymap;
use agent_spy::loader::{
    AccessKind, AccessMode, Attempt, EventKind, Loader, ModifyKind, Touched, Update, SETTLE,
};
use agent_spy::path::FilePath;
use agent_spy::pixels::RgbaImage;
use agent_spy::ui::{Atoms, Event, Next, Picture, Refresh, Shown, Ui};

const LEFT: u8 = 8;
const RIGHT: u8 = 9;
const HOME: u8 = 10;
const END: u8 = 11;
const ESCAPE: u8 = 12;
const Q: u8 = 13;
const OTHER: u8 = 14;

fn path(name: &str) -> FilePath {
    FilePath { names: vec![b"tmp".to_vec(), name.as_bytes().to_vec()] }
}

fn keymap() -> Keymap {
    Keymap::new(8, 1, vec![0xff51, 0xff53, 0xff50, 0xff57, 0xff1b, 0x71, 0x61])
}

fn window(names: &[&str]) -> Ui {
    let dir = FilePath { names: vec![b"tmp".to_vec()] };
    let mut ui = Ui::new(Atoms { wm_protocols: 100, wm_delete_window: 200 }, None, keymap(), dir, (400, 300));
    assert!(ui.take_dirty());
    ui.list_existing(names.iter().map(|name| path(name)).collect());
    ui
}

fn names(ui: &Ui) -> Vec<String> {
    let dir = FilePath { names: vec![b"tmp".to_vec()] };
    ui.entries().iter().map(|path| path.display_below(&dir)).collect()
}

fn press(ui: &mut Ui, keycode: u8) -> (usize, bool) {
    assert_eq!(ui.handle(Event::KeyPress { keycode }), Next::Continue);
    (ui.index(), ui.take_dirty())
}

fn image(width: u32, height: u32) -> RgbaImage {
    RgbaImage { width, height, pixels: [10, 20, 30, 255].repeat((width * height) as usize) }
}

fn loaded(name: &str) -> Update {
    Update::Loaded { path: path(name), image: image(2, 2) }
}

#[test]
fn the_last_existing_image_is_selected() {
    assert_eq!(window(&["a", "b", "c"]).index(), 2);
    assert_eq!(window(&[]).index(), 0);
    assert_eq!(names(&window(&["b", "a"])), ["b", "a"]);
}

#[test]
fn arrow_keys_step_and_stop_at_the_ends() {
    let mut ui = window(&["a", "b", "c"]);
    assert_eq!(press(&mut ui, RIGHT), (2, false));
    assert_eq!(press(&mut ui, LEFT), (1, true));
    assert_eq!(press(&mut ui, LEFT), (0, true));
    assert_eq!(press(&mut ui, LEFT), (0, false));
    assert_eq!(press(&mut ui, RIGHT), (1, true));
}

#[test]
fn home_and_end() {
    let mut ui = window(&["a", "b", "c"]);
    assert_eq!(press(&mut ui, HOME), (0, true));
    assert_eq!(press(&mut ui, HOME), (0, false));
    assert_eq!(press(&mut ui, END), (2, true));
    assert_eq!(press(&mut ui, OTHER), (2, false));
}

#[test]
fn keys_in_an_empty_list() {
    let mut ui = window(&[]);
    for key in [LEFT, RIGHT, HOME, END] {
        assert_eq!(press(&mut ui, key), (0, false));
    }
}

#[test]
fn keys_and_messages_that_close_the_window() {
    let mut ui = window(&["a"]);
    assert_eq!(ui.handle(Event::KeyPress { keycode: ESCAPE }), Next::Quit);
    assert_eq!(ui.handle(Event::KeyPress { keycode: Q }), Next::Quit);
    assert_eq!(ui.handle(Event::ClientMessage { type_: 100, data: 200 }), Next::Quit);
    assert_eq!(ui.handle(Event::ClientMessage { type_: 100, data: 201 }), Next::Continue);
    assert_eq!(ui.handle(Event::ClientMessage { type_: 101, data: 200 }), Next::Continue);
}

#[test]
fn keyboard_layouts_are_followed() {
    let mut ui = window(&["a", "b"]);
    assert_eq!(ui.handle(Event::MappingNotify { request: 1 }), Next::FetchKeymap);
    assert_eq!(ui.handle(Event::MappingNotify { request: 0 }), Next::Continue);
    ui.set_keymap(Keymap::new(50, 1, vec![0xff51]));
    assert_eq!(press(&mut ui, LEFT), (1, false));
    assert_eq!(press(&mut ui, 50), (0, true));
}

#[test]
fn exposure_and_size() {
    let mut ui = window(&[]);
    assert_eq!(ui.handle(Event::Expose { count: 1 }), Next::Continue);
    assert!(!ui.take_dirty());
    ui.handle(Event::Expose { count: 0 });
    assert!(ui.take_dirty());
    ui.handle(Event::Configure { width: 400, height: 300 });
    assert!(!ui.take_dirty());
    ui.handle(Event::Configure { width: 400, height: 301 });
    assert_eq!(ui.size(), (400, 301));
    assert!(ui.take_dirty());
    assert!(!ui.take_dirty());
}

#[test]
fn errors_are_reported() {
    let mut ui = window(&[]);
    assert_eq!(ui.handle(Event::Error), Next::ReportError);
    assert_eq!(ui.handle(Event::Other), Next::Continue);
    assert!(!ui.take_dirty());
}

#[test]
fn selection_beyond_the_end() {
    let mut ui = window(&["a", "b", "c"]);
    ui.select(1);
    assert_eq!((ui.index(), ui.take_dirty()), (1, true));
    ui.select(1);
    assert_eq!((ui.index(), ui.take_dirty()), (1, false));
    ui.select(17);
    assert_eq!((ui.index(), ui.take_dirty()), (2, true));
}

#[test]
fn new_images_come_last_and_are_selected() {
    let mut ui = window(&["a", "b"]);
    ui.select(0);
    ui.take_dirty();
    let time = Timestamp { secs: 5, nanos: 6 };
    assert_eq!(ui.apply(loaded("c"), Some(time)), None);
    assert_eq!(names(&ui), ["a", "b", "c"]);
    assert_eq!(ui.index(), 2);
    assert!(ui.take_dirty());
    let shown = ui.shown().unwrap();
    assert_eq!(shown.path.display(), "/tmp/c");
    assert_eq!(shown.modified, Some(time));
    assert_eq!(shown.image.as_ref().ok().unwrap().dimensions(), (2, 2));
}

#[test]
fn modified_images_move_to_the_end() {
    let mut ui = window(&["a", "b", "c"]);
    ui.set_picture(Picture { id: 9, size: (1, 1) });
    assert_eq!(ui.apply(loaded("a"), None), Some(9));
    assert_eq!(names(&ui), ["b", "c", "a"]);
    assert_eq!(ui.index(), 2);
    assert!(ui.picture().is_none());
}

#[test]
fn all_copies_of_a_modified_image_are_removed() {
    let mut ui = window(&["a", "b", "a"]);
    ui.apply(loaded("a"), None);
    assert_eq!(names(&ui), ["b", "a"]);
}

fn remove(ui: &mut Ui, name: &str) -> (usize, Vec<String>) {
    assert_eq!(ui.apply(Update::Removed(path(name)), None), None);
    assert!(ui.take_dirty());
    (ui.index(), names(ui))
}

#[test]
fn removal_before_and_after_the_selected_image() {
    let mut ui = window(&["a", "b", "c"]);
    ui.select(1);
    assert_eq!(remove(&mut ui, "c"), (1, vec!["a".to_string(), "b".to_string()]));
    assert_eq!(remove(&mut ui, "a"), (0, vec!["b".to_string()]));
}

#[test]
fn removal_of_the_selected_image() {
    let mut ui = window(&["a", "b", "c"]);
    ui.select(1);
    assert_eq!(remove(&mut ui, "b"), (1, vec!["a".to_string(), "c".to_string()]));
    assert_eq!(remove(&mut ui, "c"), (0, vec!["a".to_string()]));
    assert_eq!(remove(&mut ui, "a"), (0, Vec::new()));
}

#[test]
fn removal_of_an_unknown_image() {
    let mut ui = window(&["a", "b"]);
    assert_eq!(remove(&mut ui, "x"), (1, vec!["a".to_string(), "b".to_string()]));
}

#[test]
fn the_selected_image_is_loaded_if_another_is_shown() {
    let mut ui = window(&["a", "b"]);
    match ui.refresh() {
        Refresh::Load(path) => assert_eq!(path.display(), "/tmp/b"),
        _ => panic!("not loaded"),
    }
    ui.set_picture(Picture { id: 4, size: (1, 1) });
    assert_eq!(ui.set_shown(Some(Shown::new(path("b"), Ok(image(2, 2)), None))), Some(4));
    assert!(matches!(ui.refresh(), Refresh::Keep));
    ui.select(0);
    assert!(matches!(ui.refresh(), Refresh::Load(_)));
    remove(&mut ui, "a");
    assert!(matches!(ui.refresh(), Refresh::Keep));
    remove(&mut ui, "b");
    assert!(matches!(ui.refresh(), Refresh::Clear));
    assert_eq!(ui.set_shown(None), None);
    assert!(matches!(ui.refresh(), Refresh::Keep));
}

#[test]
fn pictures_are_replaced_when_their_size_changes() {
    let mut ui = window(&[]);
    let nothing = ui.replace_picture();
    assert!(nothing.unused.is_none() && nothing.upload.is_none());

    ui.apply(Update::Loaded { path: path("a"), image: image(800, 300) }, None);
    assert_eq!(ui.target_size(), Some((400, 150)));
    assert!(ui.is_scalable());
    let first = ui.replace_picture();
    assert_eq!(first.unused, None);
    let upload = first.upload.unwrap();
    assert_eq!(upload.size, (400, 150));
    assert_eq!(upload.data, [30, 20, 10, 0].repeat(400 * 150));
    ui.set_picture(Picture { id: 5, size: upload.size });

    let same = ui.replace_picture();
    assert!(same.unused.is_none() && same.upload.is_none());
    assert!(ui.picture().is_some());

    ui.handle(Event::Configure { width: 100, height: 300 });
    let smaller = ui.replace_picture();
    assert_eq!(smaller.unused, Some(5));
    assert_eq!(smaller.upload.unwrap().size, (100, 38));
    assert!(ui.picture().is_none());
}

#[test]
fn files_that_cannot_be_shown_have_no_picture() {
    let mut ui = window(&["a"]);
    ui.set_picture(Picture { id: 6, size: (1, 1) });
    let broken = Shown::new(path("a"), Err("broken".to_string()), None);
    assert_eq!(ui.set_shown(Some(broken)), Some(6));
    assert_eq!(ui.target_size(), None);
    ui.set_picture(Picture { id: 7, size: (1, 1) });
    let replacement = ui.replace_picture();
    assert_eq!(replacement.unused, Some(7));
    assert!(replacement.upload.is_none());
}

#[test]
fn pictures_can_be_dropped() {
    let mut ui = window(&["a"]);
    assert_eq!(ui.drop_picture(), None);
    ui.set_picture(Picture { id: 8, size: (3, 4) });
    assert_eq!(ui.picture().unwrap().size, (3, 4));
    assert_eq!(ui.drop_picture(), Some(8));
    assert!(ui.picture().is_none());
}

#[test]
fn images_that_shrink_too_much_are_told() {
    let mut ui = window(&[]);
    ui.handle(Event::Configure { width: 1, height: 1 });
    ui.apply(Update::Loaded { path: path("a"), image: image(4200, 4200) }, None);
    assert!(!ui.is_scalable());
    ui.handle(Event::Configure { width: 10, height: 10 });
    assert!(ui.is_scalable());
}

#[test]
fn created_and_modified_images_are_shown() {
    let written = EventKind::Modify(ModifyKind::Data);
    let closed = EventKind::Access(AccessKind::Close(AccessMode::Write));
    for (kinds, delay) in [
        (vec![EventKind::Create], SETTLE),
        (vec![written], SETTLE),
        (vec![EventKind::Modify(ModifyKind::Any)], SETTLE),
        (vec![EventKind::Modify(ModifyKind::Name)], 0),
        (vec![written, closed], 0),
    ] {
        let mut loader = Loader::new();
        let mut ui = window(&["b.png", "a.png"]);
        for kind in kinds {
            let touched = vec![Touched { path: path("b.png"), exists: true }];
            assert!(loader.on_fs_event(kind, touched, 1000).is_empty());
        }
        assert_eq!(loader.wait(1000), Some(delay));
        let due = loader.due(1000 + delay).pop().unwrap();
        match loader.attempted(due, Ok(image(2, 2)), 1000 + delay) {
            Attempt::Send(update) => ui.apply(update, None),
            _ => panic!("not sent"),
        };
        assert_eq!(names(&ui), ["a.png", "b.png"]);
        assert_eq!(ui.index(), 1);
        assert_eq!(ui.shown().unwrap().path.display(), "/tmp/b.png");
        assert!(ui.take_dirty());
        assert_eq!(loader.wait(1000 + delay), None);
    }
}
