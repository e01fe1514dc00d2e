//! The images that are in a directory before anything happens in it.
use vstd::prelude::*;

use crate::clock::Timestamp;
use crate::images::{image_path, is_image};
use crate::loader::paths_of;
use crate::path::FilePath;

verus! {

/// `a` does not come after `b` in the order of a dictionary.
pub open spec fn bytes_le(a: Seq<u8>, b: Seq<u8>) -> bool
    decreases a.len(),
{
    a.len() == 0 || (b.len() > 0 && (a[0] < b[0] || (a[0] == b[0] && bytes_le(a.skip(1), b.skip(1)))))
}

/// `a` does not come after `b`: paths are ordered name by name.
pub open spec fn path_le(a: Seq<Seq<u8>>, b: Seq<Seq<u8>>) -> bool
    decreases a.len(),
{
    a.len() == 0 || (b.len() > 0 && if a[0] == b[0] {
        path_le(a.skip(1), b.skip(1))
    } else {
        bytes_le(a[0], b[0])
    })
}

proof fn lemma_bytes_le_total(a: Seq<u8>, b: Seq<u8>)
    ensures
        bytes_le(a, b) || bytes_le(b, a),
        bytes_le(a, b) && bytes_le(b, a) ==> a == b,
        bytes_le(a, a),
    decreases a.len(),
{
    if a.len() > 0 {
        lemma_bytes_le_total(a.skip(1), a.skip(1));
        if b.len() > 0 {
            lemma_bytes_le_total(a.skip(1), b.skip(1));
            if a[0] == b[0] && a.skip(1) == b.skip(1) {
                assert(a =~= seq![a[0]] + a.skip(1));
                assert(b =~= seq![b[0]] + b.skip(1));
            }
        }
    } else if b.len() == 0 {
        assert(a =~= b);
    }
}

proof fn lemma_bytes_le_transitive(a: Seq<u8>, b: Seq<u8>, c: Seq<u8>)
    requires
        bytes_le(a, b),
        bytes_le(b, c),
    ensures
        bytes_le(a, c),
    decreases a.len(),
{
    if a.len() > 0 && a[0] == b[0] && b[0] == c[0] {
        lemma_bytes_le_transitive(a.skip(1), b.skip(1), c.skip(1));
    }
}

proof fn lemma_path_le_total(a: Seq<Seq<u8>>, b: Seq<Seq<u8>>)
    ensures
        path_le(a, b) || path_le(b, a),
        path_le(a, b) && path_le(b, a) ==> a == b,
        path_le(a, a),
    decreases a.len(),
{
    if a.len() > 0 {
        lemma_path_le_total(a.skip(1), a.skip(1));
        if b.len() > 0 {
            lemma_path_le_total(a.skip(1), b.skip(1));
            lemma_bytes_le_total(a[0], b[0]);
            if a[0] == b[0] && a.skip(1) == b.skip(1) {
                assert(a =~= seq![a[0]] + a.skip(1));
                assert(b =~= seq![b[0]] + b.skip(1));
            }
        }
    } else if b.len() == 0 {
        assert(a =~= b);
    }
}

proof fn lemma_path_le_transitive(a: Seq<Seq<u8>>, b: Seq<Seq<u8>>, c: Seq<Seq<u8>>)
    requires
        path_le(a, b),
        path_le(b, c),
    ensures
        path_le(a, c),
    decreases a.len(),
{
    if a.len() > 0 {
        if a[0] == b[0] && b[0] == c[0] {
            lemma_path_le_transitive(a.skip(1), b.skip(1), c.skip(1));
        } else if a[0] != b[0] && b[0] != c[0] {
            lemma_bytes_le_transitive(a[0], b[0], c[0]);
            lemma_bytes_le_total(a[0], b[0]);
            lemma_bytes_le_total(b[0], c[0]);
        }
    }
}

/// An image file that was found: when it was last modified, and where it is.
pub ghost struct Entry {
    pub modified: Timestamp,
    pub path: Seq<Seq<u8>>,
}

/// `a` does not come after `b`: files are ordered by their age, and by their paths if they are
/// equally old.
pub open spec fn not_newer(a: Entry, b: Entry) -> bool {
    if a.modified == b.modified {
        path_le(a.path, b.path)
    } else {
        a.modified.le(b.modified)
    }
}

pub open spec fn age_order() -> spec_fn(Entry, Entry) -> bool {
    |a: Entry, b: Entry| not_newer(a, b)
}

/// `entries`, the least recently modified first.
pub open spec fn by_age(entries: Seq<Entry>) -> Seq<Entry> {
    entries.sort_by(age_order())
}

proof fn lemma_not_newer_is_total()
    ensures
        vstd::relations::total_ordering(age_order()),
{
    let leq = age_order();
    assert forall|x: Entry| #[trigger] leq(x, x) by {
        lemma_path_le_total(x.path, x.path);
    }
    assert forall|x: Entry, y: Entry| #[trigger] leq(x, y) && #[trigger] leq(y, x) implies x
        == y by {
        lemma_path_le_total(x.path, y.path);
    }
    assert forall|x: Entry, y: Entry| #[trigger] leq(x, y) || #[trigger] leq(y, x) by {
        lemma_path_le_total(x.path, y.path);
    }
    assert forall|x: Entry, y: Entry, z: Entry| #[trigger] leq(x, y) && #[trigger] leq(
        y,
        z,
    ) implies leq(x, z) by {
        if x.modified == y.modified && y.modified == z.modified {
            lemma_path_le_transitive(x.path, y.path, z.path);
        }
    }
}

fn bytes_not_after(a: &Vec<u8>, b: &Vec<u8>) -> (r: bool)
    ensures
        r == bytes_le(a@, b@),
{
    let mut i: usize = 0;
    assert(a@.skip(0) =~= a@ && b@.skip(0) =~= b@);
    while i < a.len() && i < b.len() && a[i] == b[i]
        invariant
            i <= a@.len(),
            i <= b@.len(),
            bytes_le(a@, b@) == bytes_le(a@.skip(i as int), b@.skip(i as int)),
        decreases a@.len() - i,
    {
        assert(a@.skip(i as int).skip(1) =~= a@.skip(i + 1));
        assert(b@.skip(i as int).skip(1) =~= b@.skip(i + 1));
        i = i + 1;
    }
    i >= a.len() || (i < b.len() && a[i] < b[i])
}

fn path_not_after(a: &FilePath, b: &FilePath) -> (r: bool)
    ensures
        r == path_le(a@, b@),
{
    let mut i: usize = 0;
    assert(a@.skip(0) =~= a@ && b@.skip(0) =~= b@);
    loop
        invariant
            i <= a@.len(),
            i <= b@.len(),
            path_le(a@, b@) == path_le(a@.skip(i as int), b@.skip(i as int)),
        decreases a@.len() - i,
    {
        if i >= a.names.len() {
            return true;
        }
        if i >= b.names.len() {
            return false;
        }
        assert(a@.skip(i as int)[0] == a.names@[i as int]@);
        assert(b@.skip(i as int)[0] == b.names@[i as int]@);
        let before: bool = bytes_not_after(&a.names[i], &b.names[i]);
        let after: bool = bytes_not_after(&b.names[i], &a.names[i]);
        proof {
            lemma_bytes_le_total(a.names@[i as int]@, b.names@[i as int]@);
        }
        if !(before && after) {
            return before;
        }
        assert(a@.skip(i as int).skip(1) =~= a@.skip(i + 1));
        assert(b@.skip(i as int).skip(1) =~= b@.skip(i + 1));
        i = i + 1;
    }
}

/// An image file that was found: when it was last modified, and where it is.
pub struct Found {
    pub modified: Timestamp,
    pub path: FilePath,
}

impl View for Found {
    type V = Entry;

    open spec fn view(&self) -> Entry {
        Entry { modified: self.modified, path: self.path@ }
    }
}

pub open spec fn entries_of(found: Seq<Found>) -> Seq<Entry> {
    Seq::new(found.len(), |i: int| found[i]@)
}

fn is_not_newer(a: &Found, b: &Found) -> (r: bool)
    ensures
        r == not_newer(a@, b@),
{
    if a.modified.secs == b.modified.secs && a.modified.nanos == b.modified.nanos {
        path_not_after(&a.path, &b.path)
    } else {
        a.modified.secs < b.modified.secs || (a.modified.secs == b.modified.secs && a.modified.nanos
            <= b.modified.nanos)
    }
}

/// Inserts `file` into `sorted`, behind all files that are not newer.
fn insert_by_age(sorted: &mut Vec<Found>, file: Found)
    requires
        vstd::relations::sorted_by(entries_of(old(sorted)@), age_order()),
    ensures
        vstd::relations::sorted_by(entries_of(final(sorted)@), age_order()),
        entries_of(final(sorted)@).to_multiset() == entries_of(old(sorted)@).to_multiset().insert(
            file@,
        ),
{
    let ghost leq = age_order();
    let ghost entries = entries_of(sorted@);
    proof {
        lemma_not_newer_is_total();
    }
    let mut low: usize = 0;
    let mut high: usize = sorted.len();
    while low < high
        invariant
            leq == age_order(),
            vstd::relations::total_ordering(leq),
            vstd::relations::sorted_by(entries, leq),
            entries == entries_of(sorted@),
            low <= high <= sorted@.len(),
            forall|j: int| 0 <= j < low ==> leq(#[trigger] entries[j], file@),
            forall|j: int| high <= j < entries.len() ==> leq(file@, #[trigger] entries[j]),
        decreases high - low,
    {
        let middle: usize = low + (high - low) / 2;
        assert(entries[middle as int] == sorted@[middle as int]@);
        if is_not_newer(&sorted[middle], &file) {
            assert(leq(entries[middle as int], file@));
            assert forall|j: int| 0 <= j < middle + 1 implies leq(#[trigger] entries[j], file@) by {
                if j < middle {
                    assert(leq(entries[j], entries[middle as int]));
                }
            }
            low = middle + 1;
        } else {
            assert(!leq(entries[middle as int], file@));
            assert(leq(file@, entries[middle as int]));
            assert forall|j: int| middle <= j < entries.len() implies leq(
                file@,
                #[trigger] entries[j],
            ) by {
                if j > middle {
                    assert(leq(entries[middle as int], entries[j]));
                }
            }
            high = middle;
        }
    }
    let ghost entry = file@;
    sorted.insert(low, file);
    proof {
        let after = entries_of(sorted@);
        assert(after =~= entries.insert(low as int, entry));
        vstd::seq_lib::to_multiset_insert(entries, low as int, entry);
        assert forall|i: int, j: int| 0 <= i < j < after.len() implies #[trigger] leq(
            after[i],
            after[j],
        ) by {
            let p: int = if i < low {
                i
            } else {
                i - 1
            };
            let q: int = if j < low {
                j
            } else {
                j - 1
            };
            if i != low && j != low {
                assert(leq(entries[p], entries[q]));
            }
        }
    }
}

/// The images that were found, least recently modified first.
pub fn existing_images(found: Vec<Found>) -> (paths: Vec<FilePath>)
    ensures
        paths@.len() == found@.len(),
        forall|i: int|
            0 <= i < paths@.len() ==> #[trigger] paths@[i]@ == by_age(entries_of(found@))[i].path,
{
    let ghost leq = age_order();
    let ghost all = entries_of(found@);
    let mut rest = found;
    let mut sorted: Vec<Found> = Vec::new();
    proof {
        assert(entries_of(rest@) =~= all.take(all.len() as int));
        assert(entries_of(sorted@) =~= Seq::empty());
        assert(all.skip(all.len() as int) =~= Seq::empty());
    }
    while rest.len() > 0
        invariant
            leq == age_order(),
            rest@.len() <= all.len(),
            entries_of(rest@) == all.take(rest@.len() as int),
            vstd::relations::sorted_by(entries_of(sorted@), leq),
            entries_of(sorted@).to_multiset() == all.skip(rest@.len() as int).to_multiset(),
        decreases rest@.len(),
    {
        let ghost n: int = rest@.len() as int;
        let ghost before = entries_of(rest@);
        if let Some(file) = rest.pop() {
            assert(file@ == before[n - 1]);
            assert(file@ == all[n - 1]);
            insert_by_age(&mut sorted, file);
            proof {
                assert(entries_of(rest@) =~= all.take(n - 1));
                assert(all.skip(n - 1) =~= all.skip(n).insert(0, all[n - 1]));
                vstd::seq_lib::to_multiset_insert(all.skip(n), 0, all[n - 1]);
            }
        }
    }
    proof {
        assert(all.skip(0) =~= all);
        lemma_not_newer_is_total();
        all.lemma_sort_by_ensures(leq);
        vstd::seq_lib::lemma_sorted_unique(entries_of(sorted@), by_age(all), leq);
        broadcast use vstd::seq_lib::group_to_multiset_ensures;

        assert(by_age(all).to_multiset().len() == all.to_multiset().len());
        assert(entries_of(sorted@).len() == all.len());
    }
    let mut paths: Vec<FilePath> = Vec::with_capacity(sorted.len());
    let mut i: usize = 0;
    while i < sorted.len()
        invariant
            i <= sorted@.len(),
            paths@.len() == i,
            forall|j: int| 0 <= j < i ==> #[trigger] paths@[j]@ == sorted@[j].path@,
        decreases sorted@.len() - i,
    {
        paths.push(sorted[i].path.copy());
        i = i + 1;
    }
    assert forall|i: int| 0 <= i < paths@.len() implies #[trigger] paths@[i]@ == by_age(
        all,
    )[i].path by {
        assert(entries_of(sorted@)[i].path == sorted@[i].path@);
    }
    paths
}

/// Listing the existing images loses none and invents none, and it orders them by their age.
pub proof fn by_age_is_sorted(entries: Seq<Entry>)
    ensures
        by_age(entries).to_multiset() == entries.to_multiset(),
        by_age(entries).len() == entries.len(),
        forall|i: int, j: int|
            0 <= i < j < entries.len() ==> not_newer(
                #[trigger] by_age(entries)[i],
                #[trigger] by_age(entries)[j],
            ),
{
    broadcast use vstd::seq_lib::group_to_multiset_ensures;

    lemma_not_newer_is_total();
    entries.lemma_sort_by_ensures(age_order());
    let sorted = by_age(entries);
    assert(sorted.to_multiset().len() == entries.to_multiset().len());
    assert forall|i: int, j: int| 0 <= i < j < entries.len() implies not_newer(
        #[trigger] sorted[i],
        #[trigger] sorted[j],
    ) by {
        assert(age_order()(sorted[i], sorted[j]));
    }
}

/// What a directory holds under one name.
pub struct Listed {
    pub path: FilePath,
    pub is_dir: bool,
    pub modified: Option<Timestamp>,
}

/// What a directory holds under one name.
pub ghost struct Item {
    pub path: Seq<Seq<u8>>,
    pub is_dir: bool,
    pub modified: Option<Timestamp>,
}

impl View for Listed {
    type V = Item;

    open spec fn view(&self) -> Item {
        Item { path: self.path@, is_dir: self.is_dir, modified: self.modified }
    }
}

impl Item {
    /// It is an image file.
    pub open spec fn is_image_file(self) -> bool {
        !self.is_dir && image_path(self.path)
    }

    /// The file as it is found. One without a known time counts as modified at the start of 1970.
    pub open spec fn entry(self) -> Entry {
        Entry {
            modified: match self.modified {
                Some(time) => time,
                None => Timestamp::epoch(),
            },
            path: self.path,
        }
    }
}

/// A search for the images in a directory: what was found, and the directories that have still to be
/// read.
pub struct Scan {
    recursive: bool,
    dirs: Vec<FilePath>,
    found: Vec<Found>,
}

/// A search for the images in a directory: what was found, and the directories that have still to be
/// read, of which the last one comes first.
#[verifier::ext_equal]
pub ghost struct Search {
    pub recursive: bool,
    pub to_read: Seq<Seq<Seq<u8>>>,
    pub found: Seq<Entry>,
}

impl View for Scan {
    type V = Search;

    closed spec fn view(&self) -> Search {
        Search {
            recursive: self.recursive,
            to_read: paths_of(self.dirs@),
            found: entries_of(self.found@),
        }
    }
}

impl Search {
    /// A search in `dir`, and below it if it is to be `recursive`.
    pub open spec fn start(dir: Seq<Seq<u8>>, recursive: bool) -> Search {
        Search { recursive, to_read: seq![dir], found: Seq::empty() }
    }

    /// The search without the directory that is read next.
    pub open spec fn rest(self) -> Search {
        Search { to_read: self.to_read.drop_last(), ..self }
    }

    /// After a directory was seen to hold `item`: images are found, and directories are to be read if
    /// the search is recursive.
    pub open spec fn add(self, item: Item) -> Search {
        if item.is_dir {
            if self.recursive {
                Search { to_read: self.to_read.push(item.path), ..self }
            } else {
                self
            }
        } else if image_path(item.path) {
            Search { found: self.found.push(item.entry()), ..self }
        } else {
            self
        }
    }

    /// After a directory was seen to hold all of `items`.
    pub open spec fn add_all(self, items: Seq<Item>) -> Search
        decreases items.len(),
    {
        if items.len() == 0 {
            self
        } else {
            self.add_all(items.drop_last()).add(items.last())
        }
    }
}

impl Scan {
    /// A search in `dir`, and below it if it is to be `recursive`.
    pub fn new(dir: &FilePath, recursive: bool) -> (r: Scan)
        ensures
            r@ == Search::start(dir@, recursive),
    {
        let mut dirs: Vec<FilePath> = Vec::new();
        dirs.push(dir.copy());
        let r = Scan { recursive, dirs, found: Vec::new() };
        assert(r@ =~= Search::start(dir@, recursive));
        r
    }

    /// A directory to read next, until there is none.
    pub fn next_dir(&mut self) -> (r: Option<FilePath>)
        ensures
            match r {
                Some(dir) => old(self)@.to_read.len() > 0 && dir@ == old(self)@.to_read.last()
                    && final(self)@ == old(self)@.rest(),
                None => old(self)@.to_read.len() == 0 && final(self)@ == old(self)@,
            },
    {
        let r = self.dirs.pop();
        proof {
            if r is Some {
                assert(self@ =~= old(self)@.rest());
            }
        }
        r
    }

    /// Takes note of what a directory holds: images are found, and directories are to be read if the
    /// search is recursive.
    pub fn add(&mut self, listed: Listed)
        requires
            listed.path.wf(),
        ensures
            final(self)@ == old(self)@.add(listed@),
    {
        let ghost item = listed@;
        if listed.is_dir {
            if self.recursive {
                self.dirs.push(listed.path);
            }
        } else if is_image(&listed.path) {
            let modified = match listed.modified {
                Some(time) => time,
                None => Timestamp { secs: 0, nanos: 0 },
            };
            self.found.push(Found { modified, path: listed.path });
        }
        assert(self@ =~= old(self)@.add(item));
    }

    /// The images that were found, least recently modified first.
    pub fn finish(self) -> (paths: Vec<FilePath>)
        ensures
            paths@.len() == self@.found.len(),
            forall|i: int|
                0 <= i < paths@.len() ==> #[trigger] paths@[i]@ == by_age(self@.found)[i].path,
    {
        existing_images(self.found)
    }
}

/// Directories and what they hold. One that cannot be read is not there.
pub ghost struct Tree {
    pub dirs: Map<Seq<Seq<u8>>, Seq<Item>>,
}

/// No two of `items` have the same path.
pub open spec fn distinct_items(items: Seq<Item>) -> bool {
    forall|i: int, j: int|
        0 <= i < j < items.len() ==> (#[trigger] items[i]).path != (#[trigger] items[j]).path
}

/// No two of `found` have the same path.
pub open spec fn distinct_entries(found: Seq<Entry>) -> bool {
    forall|i: int, j: int|
        0 <= i < j < found.len() ==> (#[trigger] found[i]).path != (#[trigger] found[j]).path
}

impl Tree {
    /// What the directory `dir` holds.
    pub open spec fn listing(self, dir: Seq<Seq<u8>>) -> Seq<Item> {
        if self.dirs.contains_key(dir) {
            self.dirs[dir]
        } else {
            Seq::empty()
        }
    }

    /// A directory holds each of its files under a name of its own.
    pub open spec fn wf(self) -> bool {
        &&& forall|dir: Seq<Seq<u8>>, i: int|
            0 <= i < self.listing(dir).len() ==> is_child((#[trigger] self.listing(dir)[i]).path, dir)
        &&& forall|dir: Seq<Seq<u8>>| distinct_items(#[trigger] self.listing(dir))
    }

    /// `dir` is a directory that one that it lies in is seen to hold.
    pub open spec fn lists_dir(self, dir: Seq<Seq<u8>>) -> bool {
        exists|i: int|
            0 <= i < self.listing(dir.drop_last()).len() && {
                let item = #[trigger] self.listing(dir.drop_last())[i];
                item.is_dir && item.path == dir
            }
    }

    /// A search in `root` reads `dir`: it is that directory or, if the search is recursive, one below
    /// it.
    pub open spec fn is_searched(
        self,
        root: Seq<Seq<u8>>,
        recursive: bool,
        dir: Seq<Seq<u8>>,
    ) -> bool
        decreases dir.len(),
    {
        dir == root || (recursive && dir.len() > root.len() && self.lists_dir(dir)
            && self.is_searched(root, recursive, dir.drop_last()))
    }

    /// The directory that `entry` lies in holds it, and it is an image file.
    pub open spec fn lists_image(self, entry: Entry) -> bool {
        exists|i: int|
            0 <= i < self.listing(entry.path.drop_last()).len() && {
                let item = #[trigger] self.listing(entry.path.drop_last())[i];
                item.is_image_file() && item.entry() == entry
            }
    }

    /// A search in `root` after it has read `n` directories, or all that there are.
    pub open spec fn search(self, root: Seq<Seq<u8>>, recursive: bool, n: nat) -> Search
        decreases n,
    {
        if n == 0 {
            Search::start(root, recursive)
        } else {
            let before = self.search(root, recursive, (n - 1) as nat);
            if before.to_read.len() == 0 {
                before
            } else {
                before.rest().add_all(self.listing(before.to_read.last()))
            }
        }
    }

    /// The directories that a search in `root` has read after `n` of them.
    spec fn read(self, root: Seq<Seq<u8>>, recursive: bool, n: nat) -> Seq<Seq<Seq<u8>>>
        decreases n,
    {
        if n == 0 {
            Seq::empty()
        } else {
            let before = self.search(root, recursive, (n - 1) as nat);
            let done = self.read(root, recursive, (n - 1) as nat);
            if before.to_read.len() == 0 {
                done
            } else {
                done.push(before.to_read.last())
            }
        }
    }
}

/// `path` is that of something that lies directly in `dir`.
pub open spec fn is_child(path: Seq<Seq<u8>>, dir: Seq<Seq<u8>>) -> bool {
    path.len() > 0 && path.drop_last() == dir
}

/// The paths of the directories among `items`.
spec fn dirs_in(items: Seq<Item>) -> Seq<Seq<Seq<u8>>>
    decreases items.len(),
{
    if items.len() == 0 {
        Seq::empty()
    } else if items.last().is_dir {
        dirs_in(items.drop_last()).push(items.last().path)
    } else {
        dirs_in(items.drop_last())
    }
}

/// The image files among `items`.
spec fn images_in(items: Seq<Item>) -> Seq<Entry>
    decreases items.len(),
{
    if items.len() == 0 {
        Seq::empty()
    } else if items.last().is_image_file() {
        images_in(items.drop_last()).push(items.last().entry())
    } else {
        images_in(items.drop_last())
    }
}

proof fn lemma_add_all(search: Search, items: Seq<Item>)
    ensures
        search.add_all(items) == (Search {
            recursive: search.recursive,
            to_read: if search.recursive {
                search.to_read + dirs_in(items)
            } else {
                search.to_read
            },
            found: search.found + images_in(items),
        }),
    decreases items.len(),
{
    if items.len() > 0 {
        lemma_add_all(search, items.drop_last());
    }
    let after = search.add_all(items);
    assert(after.found =~= search.found + images_in(items));
    if search.recursive {
        assert(after.to_read =~= search.to_read + dirs_in(items));
    }
}

proof fn lemma_dirs_in(items: Seq<Item>)
    ensures
        forall|path: Seq<Seq<u8>>| #[trigger]
            dirs_in(items).contains(path) <==> exists|i: int|
                0 <= i < items.len() && (#[trigger] items[i]).is_dir && items[i].path == path,
        distinct_items(items) ==> dirs_in(items).no_duplicates(),
    decreases items.len(),
{
    if items.len() > 0 {
        let init = items.drop_last();
        let last = items.last();
        let some = dirs_in(init);
        let all = dirs_in(items);
        lemma_dirs_in(init);
        assert forall|path: Seq<Seq<u8>>| #[trigger] all.contains(path) <==> exists|i: int|
            0 <= i < items.len() && (#[trigger] items[i]).is_dir && items[i].path == path by {
            if all.contains(path) {
                let i: int = choose|i: int| 0 <= i < all.len() && all[i] == path;
                if i < some.len() {
                    assert(some[i] == path);
                    assert(some.contains(path));
                    let j: int = choose|j: int|
                        0 <= j < init.len() && (#[trigger] init[j]).is_dir && init[j].path == path;
                    assert(items[j].is_dir && items[j].path == path);
                } else {
                    assert(items[items.len() - 1].is_dir && items[items.len() - 1].path == path);
                }
            }
            if exists|i: int|
                0 <= i < items.len() && (#[trigger] items[i]).is_dir && items[i].path == path {
                let i: int = choose|i: int|
                    0 <= i < items.len() && (#[trigger] items[i]).is_dir && items[i].path == path;
                if i < init.len() {
                    assert(init[i].is_dir && init[i].path == path);
                    assert(some.contains(path));
                    let j: int = choose|j: int| 0 <= j < some.len() && some[j] == path;
                    assert(all[j] == path);
                } else {
                    assert(all[some.len() as int] == path);
                }
            }
        }
        if distinct_items(items) {
            assert(distinct_items(init)) by {
                assert forall|i: int, j: int| 0 <= i < j < init.len() implies (
                #[trigger] init[i]).path != (#[trigger] init[j]).path by {
                    assert(items[i].path != items[j].path);
                }
            }
            if last.is_dir {
                assert(!some.contains(last.path)) by {
                    if some.contains(last.path) {
                        let i: int = choose|i: int|
                            0 <= i < init.len() && (#[trigger] init[i]).is_dir && init[i].path
                                == last.path;
                        assert(items[i].path != items[items.len() - 1].path);
                    }
                }
                lemma_push_distinct(some, last.path);
            }
        }
    }
}

proof fn lemma_push_distinct(paths: Seq<Seq<Seq<u8>>>, path: Seq<Seq<u8>>)
    requires
        paths.no_duplicates(),
        !paths.contains(path),
    ensures
        paths.push(path).no_duplicates(),
{
    let all = paths.push(path);
    assert forall|i: int, j: int| 0 <= i < all.len() && 0 <= j < all.len() && i != j implies all[i]
        != all[j] by {
        if i < paths.len() && j < paths.len() {
            assert(paths[i] != paths[j]);
        } else if i < paths.len() {
            assert(paths.contains(paths[i]));
        } else {
            assert(paths.contains(paths[j]));
        }
    }
}

proof fn lemma_images_in(items: Seq<Item>)
    ensures
        forall|entry: Entry| #[trigger]
            images_in(items).contains(entry) <==> exists|i: int|
                0 <= i < items.len() && (#[trigger] items[i]).is_image_file() && items[i].entry()
                    == entry,
        distinct_items(items) ==> distinct_entries(images_in(items)),
    decreases items.len(),
{
    if items.len() > 0 {
        let init = items.drop_last();
        let last = items.last();
        let some = images_in(init);
        let all = images_in(items);
        lemma_images_in(init);
        assert forall|entry: Entry| #[trigger] all.contains(entry) <==> exists|i: int|
            0 <= i < items.len() && (#[trigger] items[i]).is_image_file() && items[i].entry()
                == entry by {
            if all.contains(entry) {
                let i: int = choose|i: int| 0 <= i < all.len() && all[i] == entry;
                if i < some.len() {
                    assert(some[i] == entry);
                    assert(some.contains(entry));
                    let j: int = choose|j: int|
                        0 <= j < init.len() && (#[trigger] init[j]).is_image_file()
                            && init[j].entry() == entry;
                    assert(items[j].is_image_file() && items[j].entry() == entry);
                } else {
                    let n: int = items.len() - 1;
                    assert(items[n].is_image_file() && items[n].entry() == entry);
                }
            }
            if exists|i: int|
                0 <= i < items.len() && (#[trigger] items[i]).is_image_file() && items[i].entry()
                    == entry {
                let i: int = choose|i: int|
                    0 <= i < items.len() && (#[trigger] items[i]).is_image_file()
                        && items[i].entry() == entry;
                if i < init.len() {
                    assert(init[i].is_image_file() && init[i].entry() == entry);
                    assert(some.contains(entry));
                    let j: int = choose|j: int| 0 <= j < some.len() && some[j] == entry;
                    assert(all[j] == entry);
                } else {
                    assert(all[some.len() as int] == entry);
                }
            }
        }
        if distinct_items(items) {
            assert(distinct_items(init)) by {
                assert forall|i: int, j: int| 0 <= i < j < init.len() implies (
                #[trigger] init[i]).path != (#[trigger] init[j]).path by {
                    assert(items[i].path != items[j].path);
                }
            }
            assert forall|i: int, j: int| 0 <= i < j < all.len() implies (#[trigger] all[i]).path
                != (#[trigger] all[j]).path by {
                assert(some[i] == all[i]);
                assert(some.contains(some[i]));
                if j < some.len() {
                    assert(some[i].path != some[j].path);
                } else {
                    let k: int = choose|k: int|
                        0 <= k < init.len() && (#[trigger] init[k]).is_image_file()
                            && init[k].entry() == some[i];
                    assert(items[k].path != items[items.len() - 1].path);
                }
            }
        }
    }
}

/// `dir` has been read, or is to be read.
spec fn known(search: Search, done: Seq<Seq<Seq<u8>>>, dir: Seq<Seq<u8>>) -> bool {
    search.to_read.contains(dir) || done.contains(dir)
}

/// What holds all along a search in `root` that has read `done`.
#[verifier::opaque]
spec fn well_searched(
    tree: Tree,
    root: Seq<Seq<u8>>,
    recursive: bool,
    search: Search,
    done: Seq<Seq<Seq<u8>>>,
) -> bool {
    &&& search.recursive == recursive
    &&& search.to_read.no_duplicates()
    &&& done.no_duplicates()
    &&& forall|dir: Seq<Seq<u8>>| #[trigger] done.contains(dir) ==> !search.to_read.contains(dir)
    &&& known(search, done, root)
    &&& forall|dir: Seq<Seq<u8>>| #[trigger]
        known(search, done, dir) ==> tree.is_searched(root, recursive, dir) && root.len() <= dir.len()
            && (dir == root || done.contains(dir.drop_last()))
    &&& forall|dir: Seq<Seq<u8>>|
        recursive && done.contains(dir.drop_last()) && dir.len() > 0 && #[trigger] tree.lists_dir(dir)
            ==> known(search, done, dir)
    &&& distinct_entries(search.found)
    &&& forall|entry: Entry| #[trigger]
        search.found.contains(entry) <==> entry.path.len() > 0 && done.contains(
            entry.path.drop_last(),
        ) && tree.lists_image(entry)
}

proof fn lemma_concat_contains<A>(a: Seq<A>, b: Seq<A>)
    ensures
        forall|x: A| #[trigger] (a + b).contains(x) <==> a.contains(x) || b.contains(x),
{
    assert forall|x: A| #[trigger] (a + b).contains(x) <==> a.contains(x) || b.contains(x) by {
        let all = a + b;
        if all.contains(x) {
            let i: int = choose|i: int| 0 <= i < all.len() && all[i] == x;
            if i < a.len() {
                assert(a[i] == x);
            } else {
                assert(b[i - a.len()] == x);
            }
        }
        if a.contains(x) {
            let i: int = choose|i: int| 0 <= i < a.len() && a[i] == x;
            assert(all[i] == x);
        }
        if b.contains(x) {
            let i: int = choose|i: int| 0 <= i < b.len() && b[i] == x;
            assert(all[a.len() + i] == x);
        }
    }
}

proof fn lemma_concat_distinct(a: Seq<Seq<Seq<u8>>>, b: Seq<Seq<Seq<u8>>>)
    requires
        a.no_duplicates(),
        b.no_duplicates(),
        forall|path: Seq<Seq<u8>>| #[trigger] b.contains(path) ==> !a.contains(path),
    ensures
        (a + b).no_duplicates(),
{
    let all = a + b;
    assert forall|i: int, j: int| 0 <= i < all.len() && 0 <= j < all.len() && i != j implies all[i]
        != all[j] by {
        if i < a.len() && j < a.len() {
            assert(a[i] != a[j]);
        } else if i >= a.len() && j >= a.len() {
            assert(b[i - a.len()] != b[j - a.len()]);
        } else {
            let (p, q): (int, int) = if i < a.len() {
                (i, j - a.len())
            } else {
                (j, i - a.len())
            };
            assert(a.contains(a[p]));
            assert(b.contains(b[q]));
        }
    }
}

/// The directories that are to be read after another one was.
proof fn lemma_read_dirs(
    tree: Tree,
    root: Seq<Seq<u8>>,
    recursive: bool,
    search: Search,
    done: Seq<Seq<Seq<u8>>>,
)
    requires
        tree.wf(),
        well_searched(tree, root, recursive, search, done),
        search.to_read.len() > 0,
    ensures
        ({
            let dir = search.to_read.last();
            let after = search.rest().add_all(tree.listing(dir));
            let read = done.push(dir);
            &&& after.recursive == recursive
            &&& after.to_read.no_duplicates()
            &&& read.no_duplicates()
            &&& forall|d: Seq<Seq<u8>>| #[trigger] read.contains(d) ==> !after.to_read.contains(d)
            &&& known(after, read, root)
            &&& forall|d: Seq<Seq<u8>>| #[trigger]
                known(after, read, d) ==> tree.is_searched(root, recursive, d) && root.len()
                    <= d.len() && (d == root || read.contains(d.drop_last()))
            &&& forall|d: Seq<Seq<u8>>|
                recursive && read.contains(d.drop_last()) && d.len() > 0 && #[trigger] tree.lists_dir(d)
                    ==> known(after, read, d)
        }),
{
    reveal(well_searched);
    let dir = search.to_read.last();
    let items = tree.listing(dir);
    let below = if recursive {
        dirs_in(items)
    } else {
        Seq::empty()
    };
    let rest = search.rest().to_read;
    let after = search.rest().add_all(items);
    let read = done.push(dir);
    lemma_add_all(search.rest(), items);
    lemma_dirs_in(items);
    assert(distinct_items(items));
    assert(after.to_read =~= rest + below);
    assert(search.to_read =~= rest + seq![dir]);
    assert(read =~= done + seq![dir]);
    lemma_concat_contains(rest, seq![dir]);
    lemma_concat_contains(done, seq![dir]);
    lemma_concat_contains(rest, below);
    assert(seq![dir][0] == dir);
    assert(seq![dir].contains(dir));
    assert(known(search, done, dir));
    assert(!rest.contains(dir)) by {
        if rest.contains(dir) {
            let i: int = choose|i: int| 0 <= i < rest.len() && rest[i] == dir;
            assert(search.to_read[i] == search.to_read[search.to_read.len() - 1]);
        }
    }
    assert forall|d: Seq<Seq<u8>>| #[trigger] below.contains(d) implies is_child(d, dir)
        && tree.lists_dir(d) && !known(search, done, d) && recursive by {
        let i: int = choose|i: int|
            0 <= i < items.len() && (#[trigger] items[i]).is_dir && items[i].path == d;
        assert(is_child(tree.listing(dir)[i].path, dir));
        assert(tree.listing(d.drop_last())[i].is_dir);
    }
    assert(rest.no_duplicates()) by {
        assert forall|i: int, j: int| 0 <= i < rest.len() && 0 <= j < rest.len() && i != j implies
            rest[i] != rest[j] by {
            assert(search.to_read[i] != search.to_read[j]);
        }
    }
    assert forall|d: Seq<Seq<u8>>| #[trigger] below.contains(d) implies !rest.contains(d) by {
        assert(!known(search, done, d));
    }
    lemma_concat_distinct(rest, below);
    lemma_push_distinct(done, dir);
    assert forall|d: Seq<Seq<u8>>| #[trigger] read.contains(d) implies !after.to_read.contains(d) by {
        assert(known(search, done, d));
        if below.contains(d) {
            assert(!known(search, done, d));
        }
    }
    assert(known(search, done, root));
    assert(known(after, read, root));
    assert forall|d: Seq<Seq<u8>>| #[trigger] known(after, read, d) implies tree.is_searched(
        root,
        recursive,
        d,
    ) && root.len() <= d.len() && (d == root || read.contains(d.drop_last())) by {
        if below.contains(d) {
            assert(is_child(d, dir));
        } else {
            assert(known(search, done, d));
        }
    }
    assert forall|d: Seq<Seq<u8>>|
        recursive && read.contains(d.drop_last()) && d.len() > 0 && #[trigger] tree.lists_dir(d) implies
        known(after, read, d) by {
        if done.contains(d.drop_last()) {
            assert(known(search, done, d));
        } else {
            assert(d.drop_last() == dir);
            let i: int = choose|i: int|
                0 <= i < tree.listing(d.drop_last()).len() && {
                    let item = #[trigger] tree.listing(d.drop_last())[i];
                    item.is_dir && item.path == d
                };
            assert(items[i].is_dir && items[i].path == d);
            assert(below.contains(d));
        }
    }
}

/// The images that are found after another directory was read.
proof fn lemma_read_images(
    tree: Tree,
    root: Seq<Seq<u8>>,
    recursive: bool,
    search: Search,
    done: Seq<Seq<Seq<u8>>>,
)
    requires
        tree.wf(),
        well_searched(tree, root, recursive, search, done),
        search.to_read.len() > 0,
    ensures
        ({
            let dir = search.to_read.last();
            let found = search.rest().add_all(tree.listing(dir)).found;
            &&& distinct_entries(found)
            &&& forall|entry: Entry| #[trigger]
                found.contains(entry) <==> entry.path.len() > 0 && done.push(dir).contains(
                    entry.path.drop_last(),
                ) && tree.lists_image(entry)
        }),
{
    reveal(well_searched);
    let dir = search.to_read.last();
    let items = tree.listing(dir);
    let new = images_in(items);
    let found = search.rest().add_all(items).found;
    let read = done.push(dir);
    lemma_add_all(search.rest(), items);
    lemma_images_in(items);
    assert(distinct_items(items));
    assert(found =~= search.found + new);
    assert(read =~= done + seq![dir]);
    lemma_concat_contains(search.found, new);
    lemma_concat_contains(done, seq![dir]);
    assert(seq![dir][0] == dir);
    assert(seq![dir].contains(dir));
    assert(!done.contains(dir)) by {
        assert(search.to_read[search.to_read.len() - 1] == dir);
        assert(search.to_read.contains(dir));
    }
    assert forall|entry: Entry| #[trigger] new.contains(entry) implies is_child(entry.path, dir)
        && tree.lists_image(entry) by {
        let i: int = choose|i: int|
            0 <= i < items.len() && (#[trigger] items[i]).is_image_file() && items[i].entry()
                == entry;
        assert(is_child(tree.listing(dir)[i].path, dir));
        assert(tree.listing(entry.path.drop_last())[i].is_image_file());
    }
    assert forall|entry: Entry| #[trigger] found.contains(entry) <==> entry.path.len() > 0
        && read.contains(entry.path.drop_last()) && tree.lists_image(entry) by {
        if read.contains(entry.path.drop_last()) && tree.lists_image(entry) && !done.contains(
            entry.path.drop_last(),
        ) {
            assert(entry.path.drop_last() == dir);
            let i: int = choose|i: int|
                0 <= i < tree.listing(entry.path.drop_last()).len() && {
                    let item = #[trigger] tree.listing(entry.path.drop_last())[i];
                    item.is_image_file() && item.entry() == entry
                };
            assert(items[i].is_image_file() && items[i].entry() == entry);
            assert(new.contains(entry));
        }
    }
    assert forall|i: int, j: int| 0 <= i < j < found.len() implies (#[trigger] found[i]).path != (
    #[trigger] found[j]).path by {
        let n: int = search.found.len() as int;
        if j < n {
            assert(search.found[i].path != search.found[j].path);
        } else if i >= n {
            assert(new[i - n].path != new[j - n].path);
        } else {
            assert(search.found.contains(search.found[i]));
            assert(new.contains(new[j - n]));
        }
    }
}

proof fn lemma_well_searched(tree: Tree, root: Seq<Seq<u8>>, recursive: bool, n: nat)
    requires
        tree.wf(),
    ensures
        well_searched(
            tree,
            root,
            recursive,
            tree.search(root, recursive, n),
            tree.read(root, recursive, n),
        ),
    decreases n,
{
    if n == 0 {
        reveal(well_searched);
        let search = Search::start(root, recursive);
        assert(search.to_read[0] == root);
    } else {
        let before = tree.search(root, recursive, (n - 1) as nat);
        let done = tree.read(root, recursive, (n - 1) as nat);
        lemma_well_searched(tree, root, recursive, (n - 1) as nat);
        if before.to_read.len() > 0 {
            lemma_read_dirs(tree, root, recursive, before, done);
            lemma_read_images(tree, root, recursive, before, done);
            reveal(well_searched);
        }
    }
}

/// A directory that is searched has been read when there is none left to read.
proof fn lemma_all_read(
    tree: Tree,
    root: Seq<Seq<u8>>,
    recursive: bool,
    search: Search,
    done: Seq<Seq<Seq<u8>>>,
    dir: Seq<Seq<u8>>,
)
    requires
        well_searched(tree, root, recursive, search, done),
        search.to_read.len() == 0,
        tree.is_searched(root, recursive, dir),
    ensures
        done.contains(dir),
    decreases dir.len(),
{
    reveal(well_searched);
    if dir != root {
        lemma_all_read(tree, root, recursive, search, done, dir.drop_last());
    }
    assert(known(search, done, dir));
}

/// A search that has come to its end has found every image in `root` once and, if and only if it is
/// recursive, every image below: the images that the directories hold which are searched, and nothing
/// else.
pub proof fn searches_find_every_image(tree: Tree, root: Seq<Seq<u8>>, recursive: bool, n: nat)
    requires
        tree.wf(),
        tree.search(root, recursive, n).to_read.len() == 0,
    ensures
        distinct_entries(tree.search(root, recursive, n).found),
        forall|entry: Entry| #[trigger]
            tree.search(root, recursive, n).found.contains(entry) <==> entry.path.len() > 0
                && tree.lists_image(entry) && tree.is_searched(
                root,
                recursive,
                entry.path.drop_last(),
            ),
{
    let search = tree.search(root, recursive, n);
    let done = tree.read(root, recursive, n);
    lemma_well_searched(tree, root, recursive, n);
    reveal(well_searched);
    assert forall|entry: Entry| #[trigger] search.found.contains(entry) <==> entry.path.len() > 0
        && tree.lists_image(entry) && tree.is_searched(
        root,
        recursive,
        entry.path.drop_last(),
    ) by {
        let dir = entry.path.drop_last();
        if done.contains(dir) {
            assert(known(search, done, dir));
        }
        if tree.is_searched(root, recursive, dir) {
            lemma_all_read(tree, root, recursive, search, done, dir);
        }
    }
}

/// A search that is not recursive looks into one directory only. One that is looks into every
/// directory that is held by one that it looks into.
pub proof fn recursive_searches_go_below(tree: Tree, root: Seq<Seq<u8>>, dir: Seq<Seq<u8>>)
    ensures
        tree.is_searched(root, false, dir) <==> dir == root,
        tree.is_searched(root, true, root),
        tree.is_searched(root, true, dir.drop_last()) && tree.lists_dir(dir) && root.len()
            < dir.len() ==> tree.is_searched(root, true, dir),
{
}

/// A search comes to its end: it reads no directory twice. `dirs` are the directories that there are.
pub proof fn searches_come_to_an_end(
    tree: Tree,
    root: Seq<Seq<u8>>,
    recursive: bool,
    dirs: Set<Seq<Seq<u8>>>,
)
    requires
        tree.wf(),
        dirs.finite(),
        forall|dir: Seq<Seq<u8>>| #[trigger]
            tree.is_searched(root, recursive, dir) ==> dirs.contains(dir),
    ensures
        tree.search(root, recursive, dirs.len() + 1).to_read.len() == 0,
{
    let n: nat = dirs.len() + 1;
    if tree.search(root, recursive, n).to_read.len() > 0 {
        let done = tree.read(root, recursive, n);
        lemma_read_count(tree, root, recursive, n);
        lemma_well_searched(tree, root, recursive, n);
        reveal(well_searched);
        done.unique_seq_to_set();
        assert forall|dir: Seq<Seq<u8>>| #[trigger] done.to_set().contains(dir) implies dirs.contains(
            dir,
        ) by {
            assert(done.contains(dir));
            assert(known(tree.search(root, recursive, n), done, dir));
        }
        vstd::set_lib::lemma_len_subset(done.to_set(), dirs);
    }
}

proof fn lemma_read_count(tree: Tree, root: Seq<Seq<u8>>, recursive: bool, n: nat)
    requires
        tree.search(root, recursive, n).to_read.len() > 0,
    ensures
        tree.read(root, recursive, n).len() == n,
    decreases n,
{
    if n > 0 {
        lemma_read_count(tree, root, recursive, (n - 1) as nat);
    }
}

/// When a file was last modified, as its directory says: seconds and nanoseconds. The start of 1970 if
/// it does not say.
pub open spec fn listed_time(item: Item) -> (int, int) {
    match item.modified {
        Some(time) => (time.secs as int, time.nanos as int),
        None => (0, 0),
    }
}

/// The point in time `a` comes before `b`.
pub open spec fn earlier(a: (int, int), b: (int, int)) -> bool {
    a.0 < b.0 || (a.0 == b.0 && a.1 < b.1)
}

/// A directory that the search reads holds an image under number `i`.
pub open spec fn is_there(
    tree: Tree,
    root: Seq<Seq<u8>>,
    recursive: bool,
    dir: Seq<Seq<u8>>,
    i: int,
) -> bool {
    &&& tree.is_searched(root, recursive, dir)
    &&& 0 <= i < tree.listing(dir).len()
    &&& !tree.listing(dir)[i].is_dir
    &&& image_path(tree.listing(dir)[i].path)
}

/// A search that has come to its end has found every image that is there, with its path and the time
/// that its directory says.
pub proof fn images_are_found_with_their_times(
    tree: Tree,
    root: Seq<Seq<u8>>,
    recursive: bool,
    n: nat,
    dir: Seq<Seq<u8>>,
    i: int,
)
    requires
        tree.wf(),
        tree.search(root, recursive, n).to_read.len() == 0,
        is_there(tree, root, recursive, dir, i),
    ensures
        exists|k: int|
            {
                &&& 0 <= k < tree.search(root, recursive, n).found.len()
                &&& (#[trigger] tree.search(root, recursive, n).found[k]).path
                    == tree.listing(dir)[i].path
                &&& tree.search(root, recursive, n).found[k].modified.secs == listed_time(
                    tree.listing(dir)[i],
                ).0
                &&& tree.search(root, recursive, n).found[k].modified.nanos == listed_time(
                    tree.listing(dir)[i],
                ).1
            },
{
    let found = tree.search(root, recursive, n).found;
    let entry = lemma_is_found(tree, root, recursive, n, dir, i);
    let k: int = choose|k: int| 0 <= k < found.len() && found[k] == entry;
    assert(found[k].path == tree.listing(dir)[i].path);
}

proof fn lemma_is_found(
    tree: Tree,
    root: Seq<Seq<u8>>,
    recursive: bool,
    n: nat,
    dir: Seq<Seq<u8>>,
    i: int,
) -> (entry: Entry)
    requires
        tree.wf(),
        tree.search(root, recursive, n).to_read.len() == 0,
        is_there(tree, root, recursive, dir, i),
    ensures
        tree.search(root, recursive, n).found.contains(entry),
        entry.path == tree.listing(dir)[i].path,
        entry.modified.secs == listed_time(tree.listing(dir)[i]).0,
        entry.modified.nanos == listed_time(tree.listing(dir)[i]).1,
{
    let item = tree.listing(dir)[i];
    let entry = item.entry();
    searches_find_every_image(tree, root, recursive, n);
    assert(is_child(item.path, dir));
    assert(tree.listing(entry.path.drop_last())[i].is_image_file());
    assert(tree.lists_image(entry));
    entry
}

/// Whatever a search has found is an image that is there, with its path and the time that its directory
/// says.
pub proof fn found_images_are_there(
    tree: Tree,
    root: Seq<Seq<u8>>,
    recursive: bool,
    n: nat,
    k: int,
)
    requires
        tree.wf(),
        tree.search(root, recursive, n).to_read.len() == 0,
        0 <= k < tree.search(root, recursive, n).found.len(),
    ensures
        ({
            let entry = tree.search(root, recursive, n).found[k];
            let dir = entry.path.drop_last();
            exists|i: int| #[trigger]
                is_there(tree, root, recursive, dir, i) && tree.listing(dir)[i].path == entry.path
                    && listed_time(tree.listing(dir)[i]) == (
                    entry.modified.secs as int,
                    entry.modified.nanos as int,
                )
        }),
{
    let found = tree.search(root, recursive, n).found;
    let entry = found[k];
    let dir = entry.path.drop_last();
    searches_find_every_image(tree, root, recursive, n);
    assert(found.contains(entry));
    assert(tree.lists_image(entry));
    let i: int = choose|i: int|
        0 <= i < tree.listing(entry.path.drop_last()).len() && {
            let item = #[trigger] tree.listing(entry.path.drop_last())[i];
            item.is_image_file() && item.entry() == entry
        };
    assert(is_there(tree, root, recursive, dir, i));
}

/// Of two images that are there, the one whose directory says that it was modified earlier comes first
/// in the list.
pub proof fn earlier_images_come_first(
    tree: Tree,
    root: Seq<Seq<u8>>,
    recursive: bool,
    n: nat,
    dir: Seq<Seq<u8>>,
    i: int,
    other_dir: Seq<Seq<u8>>,
    j: int,
)
    requires
        tree.wf(),
        tree.search(root, recursive, n).to_read.len() == 0,
        is_there(tree, root, recursive, dir, i),
        is_there(tree, root, recursive, other_dir, j),
        earlier(listed_time(tree.listing(dir)[i]), listed_time(tree.listing(other_dir)[j])),
    ensures
        exists|p: int, q: int|
            {
                &&& 0 <= p < q < by_age(tree.search(root, recursive, n).found).len()
                &&& (#[trigger] by_age(tree.search(root, recursive, n).found)[p]).path
                    == tree.listing(dir)[i].path
                &&& (#[trigger] by_age(tree.search(root, recursive, n).found)[q]).path
                    == tree.listing(other_dir)[j].path
            },
{
    let found = tree.search(root, recursive, n).found;
    let a = lemma_is_found(tree, root, recursive, n, dir, i);
    let b = lemma_is_found(tree, root, recursive, n, other_dir, j);
    earlier_entries_come_first(found, a, b);
    let sorted = by_age(found);
    let (p, q): (int, int) = choose|p: int, q: int|
        0 <= p < q < sorted.len() && #[trigger] sorted[p] == a && #[trigger] sorted[q] == b;
    assert(sorted[p].path == tree.listing(dir)[i].path);
    assert(sorted[q].path == tree.listing(other_dir)[j].path);
}

/// Of two files that were found, the one that was modified earlier comes first in the list.
pub proof fn earlier_entries_come_first(entries: Seq<Entry>, a: Entry, b: Entry)
    requires
        entries.contains(a),
        entries.contains(b),
        a.modified.secs < b.modified.secs || (a.modified.secs == b.modified.secs && a.modified.nanos
            < b.modified.nanos),
    ensures
        exists|p: int, q: int|
            0 <= p < q < by_age(entries).len() && #[trigger] by_age(entries)[p] == a
                && #[trigger] by_age(entries)[q] == b,
{
    broadcast use vstd::seq_lib::group_to_multiset_ensures;

    by_age_is_sorted(entries);
    let sorted = by_age(entries);
    assert(sorted.to_multiset().count(a) > 0 && sorted.to_multiset().count(b) > 0);
    assert(sorted.contains(a) && sorted.contains(b));
    let p: int = choose|p: int| 0 <= p < sorted.len() && sorted[p] == a;
    let q: int = choose|q: int| 0 <= q < sorted.len() && sorted[q] == b;
    if q < p {
        assert(not_newer(sorted[q], sorted[p]));
    }
    assert(p < q);
}

/// The list of existing images is in the order of time, and of files that are equally old in the order
/// of paths. It holds each as often as it was found.
pub proof fn lists_are_in_order(entries: Seq<Entry>, p: int, q: int)
    requires
        0 <= p < q < entries.len(),
    ensures
        ({
            let a = by_age(entries)[p];
            let b = by_age(entries)[q];
            &&& a.modified.secs <= b.modified.secs
            &&& a.modified.secs == b.modified.secs ==> a.modified.nanos <= b.modified.nanos
            &&& a.modified.secs == b.modified.secs && a.modified.nanos == b.modified.nanos
                ==> path_le(a.path, b.path)
        }),
        by_age(entries).to_multiset() == entries.to_multiset(),
        by_age(entries).len() == entries.len(),
{
    by_age_is_sorted(entries);
    assert(not_newer(by_age(entries)[p], by_age(entries)[q]));
}

/// Names are ordered by the first byte in which they differ. One that another one starts with comes
/// before that one.
pub proof fn names_are_in_dictionary_order(
    start: Seq<u8>,
    a: Seq<u8>,
    b: Seq<u8>,
)
    requires
        a.len() > 0 && b.len() > 0 ==> a[0] != b[0],
    ensures
        a.len() == 0 ==> bytes_le(start + a, start + b),
        a.len() > 0 && b.len() == 0 ==> !bytes_le(start + a, start + b),
        a.len() > 0 && b.len() > 0 ==> (bytes_le(start + a, start + b) <==> a[0] < b[0]),
    decreases start.len(),
{
    if start.len() == 0 {
        assert(start + a =~= a);
        assert(start + b =~= b);
    } else {
        let rest = start.skip(1);
        names_are_in_dictionary_order(rest, a, b);
        assert((start + a).skip(1) =~= rest + a);
        assert((start + b).skip(1) =~= rest + b);
    }
}

/// Paths are ordered by the first name in which they differ. A directory comes before what lies in it.
pub proof fn paths_are_in_order(start: Seq<Seq<u8>>, a: Seq<Seq<u8>>, b: Seq<Seq<u8>>)
    requires
        a.len() > 0 && b.len() > 0 ==> a[0] != b[0],
    ensures
        a.len() == 0 ==> path_le(start + a, start + b),
        a.len() > 0 && b.len() == 0 ==> !path_le(start + a, start + b),
        a.len() > 0 && b.len() > 0 ==> (path_le(start + a, start + b) <==> bytes_le(a[0], b[0])),
    decreases start.len(),
{
    if start.len() == 0 {
        assert(start + a =~= a);
        assert(start + b =~= b);
    } else {
        let rest = start.skip(1);
        paths_are_in_order(rest, a, b);
        assert((start + a).skip(1) =~= rest + a);
        assert((start + b).skip(1) =~= rest + b);
    }
}

/// A search starts with nothing found and one directory to read. What is read next is not to be read
/// any more, and that is all.
pub proof fn searches_go_on(dir: Seq<Seq<u8>>, recursive: bool, search: Search)
    ensures
        Search::start(dir, recursive).found.len() == 0,
        Search::start(dir, recursive).to_read.len() == 1,
        Search::start(dir, recursive).to_read[0] == dir,
        Search::start(dir, recursive).recursive == recursive,
        search.rest().found == search.found,
        search.rest().recursive == search.recursive,
        search.to_read.len() > 0 ==> search.rest().to_read.push(search.to_read.last())
            == search.to_read,
{
    if search.to_read.len() > 0 {
        assert(search.rest().to_read.push(search.to_read.last()) =~= search.to_read);
    }
}

/// What a search makes of something in a directory. An image file is found, with its path and its
/// time. A directory, whatever it is called, is to be read if and only if the search is recursive.
/// Anything else does not matter.
pub proof fn searches_take_images_and_directories(search: Search, item: Item)
    ensures
        ({
            let after = search.add(item);
            let is_image = !item.is_dir && image_path(item.path);
            &&& after.recursive == search.recursive
            &&& item.is_dir && search.recursive ==> after.to_read == search.to_read.push(item.path)
            &&& !item.is_dir || !search.recursive ==> after.to_read == search.to_read
            &&& !is_image ==> after.found == search.found
            &&& is_image ==> {
                let entry = after.found.last();
                &&& after.found.len() == search.found.len() + 1
                &&& after.found.drop_last() == search.found
                &&& entry.path == item.path
                &&& entry.modified.secs == listed_time(item).0
                &&& entry.modified.nanos == listed_time(item).1
            }
        }),
{
    let after = search.add(item);
    if !item.is_dir && image_path(item.path) {
        assert(after.found.drop_last() =~= search.found);
    }
}

/// A file's entry and path are what its directory lists.
pub proof fn listings_are_taken_as_they_are(listed: Listed)
    ensures
        listed@.path == listed.path@,
        listed@.is_dir == listed.is_dir,
        listed@.modified == listed.modified,
{
}

/// Files that were found stand for their paths and times, in the same order.
pub proof fn found_files_stand_for_entries(found: Seq<Found>)
    ensures
        entries_of(found).len() == found.len(),
        forall|i: int|
            0 <= i < found.len() ==> (#[trigger] entries_of(found)[i]).path == found[i].path@,
        forall|i: int|
            0 <= i < found.len() ==> (#[trigger] entries_of(found)[i]).modified == found[i].modified,
{
}

} // verus!
