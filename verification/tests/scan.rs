use agent_spy::clock::Timestamp;
use agent_spy::path::FilePath;
use agent_spy::scan::{existing_images, Found, Listed, Scan};

fn path(text: &str) -> FilePath {
    let names = text.split('/').filter(|name| !name.is_empty());
    FilePath { names: names.map(|name| name.as_bytes().to_vec()).collect() }
}

fn at(secs: i64, nanos: u32) -> Timestamp {
    Timestamp { secs, nanos }
}

fn sorted(found: &[(i64, u32, &str)]) -> Vec<String> {
    let found = found.iter().map(|&(secs, nanos, name)| Found { modified: at(secs, nanos), path: path(name) });
    existing_images(found.collect()).iter().map(|path| path.display()).collect()
}

#[test]
fn least_recently_modified_first() {
    let found = [(30, 0, "/c.png"), (10, 5, "/a.png"), (20, 0, "/b.png"), (10, 4, "/d.png"), (-1, 9, "/old.png")];
    assert_eq!(sorted(&found), ["/old.png", "/d.png", "/a.png", "/b.png", "/c.png"]);
    assert!(sorted(&[]).is_empty());
}

#[test]
fn equally_old_files_are_ordered_name_by_name() {
    let found = [(1, 0, "/a-b/x.png"), (1, 0, "/a/y.png"), (1, 0, "/a/x.png"), (1, 0, "/a.png"), (1, 0, "/a/x.png/z.png")];
    assert_eq!(sorted(&found), ["/a/x.png", "/a/x.png/z.png", "/a/y.png", "/a-b/x.png", "/a.png"]);
}

#[test]
fn order_of_paths_is_that_of_std() {
    let names = ["/b/a", "/a/b", "/a", "/ab", "/a/b/c", "/B", "/a b", "/a.b/c", "/z/0", "/a/10", "/a/9"];
    let mut expected: Vec<std::path::PathBuf> = names.iter().map(std::path::PathBuf::from).collect();
    expected.sort();
    let found: Vec<(i64, u32, &str)> = names.iter().map(|name| (7, 7, *name)).collect();
    let expected: Vec<String> = expected.iter().map(|path| path.display().to_string()).collect();
    assert_eq!(sorted(&found), expected);
}

#[test]
fn many_files_are_sorted() {
    let mut found = Vec::new();
    for i in 0..500i64 {
        found.push(Found { modified: at(i * 7919 % 500, 0), path: path(&format!("/{i}.png")) });
    }
    let names: Vec<String> = existing_images(found).iter().map(|path| path.display()).collect();
    assert_eq!(names.len(), 500);
    let ages: Vec<i64> = names.iter().map(|n| n[1..n.len() - 4].parse::<i64>().unwrap() * 7919 % 500).collect();
    assert!(ages.windows(2).all(|pair| pair[0] < pair[1]));
}

fn listed(name: &str, is_dir: bool, modified: Option<Timestamp>) -> Listed {
    Listed { path: path(name), is_dir, modified }
}

fn scan(recursive: bool) -> Vec<String> {
    let mut scan = Scan::new(&path("/top"), recursive);
    while let Some(dir) = scan.next_dir() {
        match dir.display().as_str() {
            "/top" => {
                scan.add(listed("/top/new.png", false, Some(at(9, 0))));
                scan.add(listed("/top/notes.txt", false, Some(at(1, 0))));
                scan.add(listed("/top/sub", true, Some(at(5, 0))));
                scan.add(listed("/top/dir.png", true, Some(at(5, 0))));
                scan.add(listed("/top/unknown.gif", false, None));
            }
            "/top/sub" => scan.add(listed("/top/sub/deep.jpg", false, Some(at(4, 0)))),
            "/top/dir.png" => {}
            other => panic!("{other}"),
        }
    }
    scan.finish().iter().map(|path| path.display()).collect()
}

#[test]
fn directories_are_read_only_if_asked() {
    assert_eq!(scan(false), ["/top/unknown.gif", "/top/new.png"]);
    assert_eq!(scan(true), ["/top/unknown.gif", "/top/sub/deep.jpg", "/top/new.png"]);
}

/// Directories in directories, `depth` deep, each with two images and a file that is none.
fn fill(scan: &mut Scan, dir: &str, depth: usize) {
    let level = dir.split('/').count() - 2;
    for name in ["a.png", "b.gif", "c.txt"] {
        scan.add(listed(&format!("{dir}/{name}"), false, Some(at(level as i64, 0))));
    }
    if level < depth {
        for name in ["x", "y.png"] {
            scan.add(listed(&format!("{dir}/{name}"), true, None));
        }
    }
}

#[test]
fn every_image_is_found_once() {
    for (recursive, dirs) in [(false, 1), (true, 1 + 2 + 4 + 8)] {
        let mut scan = Scan::new(&path("/top"), recursive);
        let mut read = 0;
        while let Some(dir) = scan.next_dir() {
            fill(&mut scan, &dir.display(), 3);
            read += 1;
        }
        assert_eq!(read, dirs);
        let mut found: Vec<String> = scan.finish().iter().map(|path| path.display()).collect();
        assert_eq!(found[..2], ["/top/a.png", "/top/b.gif"]);
        assert!(found.iter().all(|name| name.ends_with("/a.png") || name.ends_with("/b.gif")));
        assert_eq!(found.len(), 2 * dirs);
        found.sort();
        found.dedup();
        assert_eq!(found.len(), 2 * dirs);
        assert_eq!(found.contains(&"/top/y.png/x/y.png/b.gif".to_string()), recursive);
    }
}
