use agent_spy::loader::{
    AccessKind, AccessMode, Attempt, EventKind, Loader, ModifyKind, Touched, Update, GIVE_UP, LATEST,
    RETRY, SETTLE,
};
use agent_spy::path::FilePath;
use agent_spy::pixels::RgbaImage;

const CREATED: EventKind = EventKind::Create;
const WRITTEN: EventKind = EventKind::Modify(ModifyKind::Data);
const RENAMED: EventKind = EventKind::Modify(ModifyKind::Name);
const CLOSED: EventKind = EventKind::Access(AccessKind::Close(AccessMode::Write));

fn path(name: &str) -> FilePath {
    FilePath { names: vec![b"tmp".to_vec(), name.as_bytes().to_vec()] }
}

fn names(paths: Vec<FilePath>) -> Vec<String> {
    paths.iter().map(|path| path.display()).collect()
}

fn event(loader: &mut Loader, kind: EventKind, name: &str, exists: bool, now: u64) -> Vec<String> {
    names(loader.on_fs_event(kind, vec![Touched { path: path(name), exists }], now))
}

fn image() -> RgbaImage {
    RgbaImage { width: 1, height: 1, pixels: vec![1, 2, 3, 4] }
}

fn fail(loader: &mut Loader, name: &str, now: u64) -> Attempt {
    loader.attempted(path(name), Err("broken".to_string()), now)
}

#[test]
fn delays() {
    assert_eq!((SETTLE, RETRY, GIVE_UP), (300_000_000, 500_000_000, 10_000_000_000));
    assert_eq!(LATEST, u64::MAX - GIVE_UP);
}

#[test]
fn new_files_settle_first() {
    let mut loader = Loader::new();
    assert_eq!(loader.wait(0), None);
    assert!(event(&mut loader, CREATED, "a.png", true, 1000).is_empty());
    assert_eq!(loader.wait(1000), Some(SETTLE));
    assert_eq!(loader.wait(1000 + SETTLE - 1), Some(1));
    assert_eq!(loader.wait(1000 + 2 * SETTLE), Some(0));
    assert!(loader.due(1000 + SETTLE - 1).is_empty());
    assert_eq!(names(loader.due(1000 + SETTLE)), ["/tmp/a.png"]);
}

#[test]
fn writes_start_the_wait_again() {
    for kind in [WRITTEN, EventKind::Modify(ModifyKind::Any), CREATED] {
        let mut loader = Loader::new();
        event(&mut loader, CREATED, "a.png", true, 0);
        event(&mut loader, kind, "a.png", true, 100);
        assert!(loader.due(SETTLE).is_empty());
        assert_eq!(loader.due(SETTLE + 100).len(), 1);
    }
}

#[test]
fn closing_after_writing_loads_at_once() {
    let mut loader = Loader::new();
    event(&mut loader, CREATED, "a.png", true, 0);
    event(&mut loader, CLOSED, "a.png", true, 50);
    assert_eq!(loader.wait(50), Some(0));
    assert_eq!(names(loader.due(50)), ["/tmp/a.png"]);
}

#[test]
fn closing_without_writing_does_not_count() {
    let mut loader = Loader::new();
    event(&mut loader, CLOSED, "a.png", true, 50);
    assert_eq!(loader.wait(50), None);
    event(&mut loader, CREATED, "b.png", true, 50);
    event(&mut loader, EventKind::Access(AccessKind::Close(AccessMode::Read)), "b.png", true, 60);
    assert!(loader.due(60).is_empty());
}

#[test]
fn files_moved_into_place_load_at_once() {
    let mut loader = Loader::new();
    assert!(event(&mut loader, RENAMED, "a.png", true, 7).is_empty());
    assert_eq!(names(loader.due(7)), ["/tmp/a.png"]);
}

#[test]
fn files_that_are_gone_are_reported() {
    let mut loader = Loader::new();
    event(&mut loader, CREATED, "a.png", true, 0);
    assert_eq!(event(&mut loader, EventKind::Remove, "a.png", false, 1), ["/tmp/a.png"]);
    assert_eq!(loader.wait(1), None);
    event(&mut loader, CREATED, "b.png", true, 0);
    assert_eq!(event(&mut loader, RENAMED, "b.png", false, 1), ["/tmp/b.png"]);
    assert_eq!(loader.wait(1), None);
    // Also if they were not going to be loaded.
    assert_eq!(event(&mut loader, EventKind::Remove, "c.png", true, 1), ["/tmp/c.png"]);
}

#[test]
fn other_files_and_events_are_ignored() {
    let mut loader = Loader::new();
    event(&mut loader, CREATED, "notes.txt", true, 0);
    assert!(event(&mut loader, EventKind::Remove, "notes.txt", false, 0).is_empty());
    for kind in [
        EventKind::Any,
        EventKind::Other,
        EventKind::Modify(ModifyKind::Metadata),
        EventKind::Modify(ModifyKind::Other),
        EventKind::Access(AccessKind::Any),
        EventKind::Access(AccessKind::Read),
        EventKind::Access(AccessKind::Other),
        EventKind::Access(AccessKind::Open(AccessMode::Write)),
        EventKind::Access(AccessKind::Close(AccessMode::Any)),
    ] {
        assert!(event(&mut loader, kind, "a.png", true, 0).is_empty());
    }
    assert_eq!(loader.wait(0), None);
}

#[test]
fn events_can_be_about_several_files() {
    let mut loader = Loader::new();
    let touched = vec![
        Touched { path: path("old.png"), exists: false },
        Touched { path: path("new.png"), exists: true },
        Touched { path: path("x.txt"), exists: true },
    ];
    assert_eq!(names(loader.on_fs_event(RENAMED, touched, 5)), ["/tmp/old.png"]);
    assert_eq!(names(loader.due(5)), ["/tmp/new.png"]);
}

#[test]
fn the_first_file_that_is_due_ends_the_wait() {
    let mut loader = Loader::new();
    event(&mut loader, CREATED, "a.png", true, 100);
    event(&mut loader, CREATED, "b.png", true, 50);
    event(&mut loader, CREATED, "c.png", true, 70);
    assert_eq!(loader.wait(60), Some(SETTLE - 10));
    assert_eq!(names(loader.due(SETTLE + 70)), ["/tmp/b.png", "/tmp/c.png"]);
}

#[test]
fn loaded_files_are_sent() {
    let mut loader = Loader::new();
    event(&mut loader, RENAMED, "a.png", true, 0);
    match loader.attempted(path("a.png"), Ok(image()), 0) {
        Attempt::Send(Update::Loaded { path, image }) => {
            assert_eq!(path.display(), "/tmp/a.png");
            assert_eq!(image.pixels, [1, 2, 3, 4]);
        }
        _ => panic!("not sent"),
    }
    assert_eq!(loader.wait(0), None);
}

#[test]
fn failed_files_are_tried_again() {
    let mut loader = Loader::new();
    event(&mut loader, CREATED, "a.png", true, 0);
    assert!(matches!(fail(&mut loader, "a.png", SETTLE), Attempt::Retry));
    assert!(loader.due(SETTLE).is_empty());
    assert_eq!(loader.wait(SETTLE), Some(RETRY));
    assert_eq!(loader.due(SETTLE + RETRY).len(), 1);
}

#[test]
fn quiet_files_are_given_up() {
    let mut loader = Loader::new();
    event(&mut loader, RENAMED, "a.png", true, 0);
    let mut now = 0;
    let mut attempts = 0;
    loop {
        attempts += 1;
        match fail(&mut loader, "a.png", now) {
            Attempt::Retry => now += loader.wait(now).unwrap(),
            Attempt::Skip { path, reason } => {
                assert_eq!(path.display(), "/tmp/a.png");
                assert_eq!(reason, "broken");
                break;
            }
            Attempt::Send(_) => panic!("sent"),
        }
    }
    assert_eq!(now, GIVE_UP);
    assert_eq!(attempts, 21);
    assert_eq!(loader.wait(now), None);
}

#[test]
fn activity_gives_files_more_time() {
    let mut loader = Loader::new();
    event(&mut loader, CREATED, "a.png", true, 0);
    event(&mut loader, WRITTEN, "a.png", true, GIVE_UP);
    assert!(matches!(fail(&mut loader, "a.png", GIVE_UP + SETTLE), Attempt::Retry));
    assert!(matches!(fail(&mut loader, "a.png", 2 * GIVE_UP), Attempt::Skip { .. }));
}

#[test]
fn images_are_loaded_once_for_each_event() {
    let mut loader = Loader::new();
    let sent = |loader: &mut Loader, now: u64| -> Vec<String> {
        let mut sent = Vec::new();
        for path in loader.due(now) {
            if let Attempt::Send(Update::Loaded { path, .. }) = loader.attempted(path, Ok(image()), now) {
                sent.push(path.display());
            }
        }
        sent
    };
    event(&mut loader, RENAMED, "a.png", true, 0);
    event(&mut loader, CREATED, "notes.txt", true, 0);
    assert_eq!(sent(&mut loader, 0), ["/tmp/a.png"]);
    assert!(sent(&mut loader, 10 * SETTLE).is_empty());
    event(&mut loader, WRITTEN, "a.png", true, 10 * SETTLE);
    event(&mut loader, CLOSED, "a.png", true, 10 * SETTLE);
    assert_eq!(sent(&mut loader, 10 * SETTLE), ["/tmp/a.png"]);
    assert!(sent(&mut loader, 20 * SETTLE).is_empty());
    event(&mut loader, WRITTEN, "a.png", true, 20 * SETTLE);
    event(&mut loader, EventKind::Remove, "a.png", false, 20 * SETTLE);
    assert!(sent(&mut loader, 30 * SETTLE).is_empty());
}
