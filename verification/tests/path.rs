use agent_spy::path::FilePath;

fn path(text: &str) -> FilePath {
    let names = text.split('/').filter(|name| !name.is_empty());
    FilePath { names: names.map(|name| name.as_bytes().to_vec()).collect() }
}

#[test]
fn paths_are_compared_by_their_names() {
    assert!(path("/a/b").same(&path("/a/b")));
    assert!(!path("/a/b").same(&path("/a/c")));
    assert!(!path("/a/b").same(&path("/a")));
    assert!(!path("/ab").same(&path("/a/b")));
    assert!(path("/").same(&path("/")));
    assert!(path("/a/b").copy().same(&path("/a/b")));
}

#[test]
fn paths_in_full() {
    assert_eq!(path("/home/me/plot.png").display(), "/home/me/plot.png");
    assert_eq!(path("/").display(), "/");
    assert_eq!(path("/tmp").display(), "/tmp");
}

#[test]
fn paths_below_a_directory() {
    let dir = path("/home/me");
    assert_eq!(path("/home/me/plot.png").display_below(&dir), "plot.png");
    assert_eq!(path("/home/me/sub/plot.png").display_below(&dir), "sub/plot.png");
    assert_eq!(path("/home/me").display_below(&dir), "");
    assert_eq!(path("/home/mewhat/plot.png").display_below(&dir), "/home/mewhat/plot.png");
    assert_eq!(path("/home").display_below(&dir), "/home");
    assert_eq!(path("/home/me").display_below(&path("/")), "home/me");
}

#[test]
fn names_that_are_not_utf8() {
    let odd = FilePath { names: vec![b"tmp".to_vec(), b"a\xffb.png".to_vec()] };
    assert_eq!(odd.display(), "/tmp/a\u{fffd}b.png");
    assert_eq!(odd.display_below(&path("/tmp")), "a\u{fffd}b.png");
    let umlaut = FilePath { names: vec!["ü.png".as_bytes().to_vec()] };
    assert_eq!(umlaut.display(), "/ü.png");
}
