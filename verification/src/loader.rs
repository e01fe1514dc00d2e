//! Turning file system events into images, waiting until files are completely written.
use vstd::prelude::*;

use crate::images::{image_path, is_image, Outcome};
use crate::path::FilePath;
use crate::pixels::RgbaImage;

verus! {

/// How long a new file must go without writes before it is loaded, in nanoseconds. Usually the
/// writer closing the file triggers the load sooner.
pub const SETTLE: u64 = 300_000_000;

/// Delay between attempts to decode a file that isn't completely written yet, in nanoseconds.
pub const RETRY: u64 = 500_000_000;

/// A file that fails to decode is given up once it has been quiet this long, in nanoseconds.
pub const GIVE_UP: u64 = 10_000_000_000;

/// The latest moment, in nanoseconds since the program started, that the delays can be added to.
pub const LATEST: u64 = 18_446_744_063_709_551_615;

/// How a file was opened.
#[derive(Clone, Copy, Debug, PartialEq, Eq, Structural)]
pub enum AccessMode {
    Any,
    Execute,
    Read,
    Write,
    Other,
}

/// What was done with a file without changing it.
#[derive(Clone, Copy, Debug, PartialEq, Eq, Structural)]
pub enum AccessKind {
    Any,
    Read,
    Open(AccessMode),
    Close(AccessMode),
    Other,
}

/// What about a file was changed.
#[derive(Clone, Copy, Debug, PartialEq, Eq, Structural)]
pub enum ModifyKind {
    Any,
    Data,
    Metadata,
    Name,
    Other,
}

/// What happened in the file system.
#[derive(Clone, Copy, Debug, PartialEq, Eq, Structural)]
pub enum EventKind {
    Any,
    Access(AccessKind),
    Create,
    Modify(ModifyKind),
    Remove,
    Other,
}

/// A file that something happened to. Whether it exists matters only if it was renamed.
pub struct Touched {
    pub path: FilePath,
    pub exists: bool,
}

/// News for the window.
pub enum Update {
    /// A file was created or modified, finished writing, and decoded successfully.
    Loaded { path: FilePath, image: RgbaImage },
    /// A file is gone.
    Removed(FilePath),
}

/// A file with activity, which is going to be loaded.
pub struct Pending {
    pub path: FilePath,
    pub last_activity: u64,
    pub next_attempt: u64,
}

/// When something last happened to a file, and when it will be loaded.
pub ghost struct Times {
    pub last_activity: u64,
    pub next_attempt: u64,
}

pub type PendingMap = Map<Seq<Seq<u8>>, Times>;

impl Pending {
    pub open spec fn times(self) -> Times {
        Times { last_activity: self.last_activity, next_attempt: self.next_attempt }
    }
}

/// The files in `pending` by their paths.
pub open spec fn by_path(pending: Seq<Pending>) -> PendingMap
    decreases pending.len(),
{
    if pending.len() == 0 {
        Map::empty()
    } else {
        by_path(pending.drop_last()).insert(pending.last().path@, pending.last().times())
    }
}

/// No two files in `pending` have the same path.
pub open spec fn distinct(pending: Seq<Pending>) -> bool {
    forall|i: int, j: int|
        0 <= i < j < pending.len() ==> (#[trigger] pending[i]).path@ != (
        #[trigger] pending[j]).path@
}

proof fn lemma_by_path(pending: Seq<Pending>)
    ensures
        forall|path: Seq<Seq<u8>>| #[trigger]
            by_path(pending).contains_key(path) <==> exists|i: int|
                0 <= i < pending.len() && (#[trigger] pending[i]).path@ == path,
        distinct(pending) ==> forall|i: int|
            0 <= i < pending.len() ==> by_path(pending)[(#[trigger] pending[i]).path@]
                == pending[i].times(),
    decreases pending.len(),
{
    if pending.len() > 0 {
        let init = pending.drop_last();
        lemma_by_path(init);
        assert forall|path: Seq<Seq<u8>>| #[trigger]
            by_path(pending).contains_key(path) implies exists|i: int|
            0 <= i < pending.len() && (#[trigger] pending[i]).path@ == path by {
            if path == pending.last().path@ {
                assert(pending[pending.len() - 1].path@ == path);
            } else {
                assert(by_path(init).contains_key(path));
                let i: int = choose|i: int|
                    0 <= i < init.len() && (#[trigger] init[i]).path@ == path;
                assert(pending[i].path@ == path);
            }
        }
        assert forall|path: Seq<Seq<u8>>|
            (exists|i: int| 0 <= i < pending.len() && (#[trigger] pending[i]).path@ == path) implies
            #[trigger] by_path(pending).contains_key(path) by {
            let i: int = choose|i: int|
                0 <= i < pending.len() && (#[trigger] pending[i]).path@ == path;
            if i < init.len() {
                assert(init[i].path@ == path);
                assert(by_path(init).contains_key(path));
            }
        }
        if distinct(pending) {
            assert(distinct(init)) by {
                assert forall|i: int, j: int| 0 <= i < j < init.len() implies (
                #[trigger] init[i]).path@ != (#[trigger] init[j]).path@ by {
                    assert(pending[i].path@ != pending[j].path@);
                }
            }
            assert forall|i: int| 0 <= i < pending.len() implies by_path(pending)[(
            #[trigger] pending[i]).path@] == pending[i].times() by {
                if i < init.len() {
                    assert(init[i] == pending[i]);
                    assert(pending[i].path@ != pending[pending.len() - 1].path@);
                }
            }
        }
    }
}

/// What an event means for an image.
#[derive(Clone, Copy, Debug, PartialEq, Eq, Structural)]
pub enum Reaction {
    /// Try to load the file after this delay.
    LoadAfter(u64),
    /// The file is gone.
    Drop,
    /// Nothing.
    Ignore,
}

/// What an event of this kind means for an image that exists or not, and that is already going to be
/// loaded or not.
pub open spec fn reaction_to(kind: EventKind, exists: bool, pending: bool) -> Reaction {
    match kind {
        EventKind::Create => Reaction::LoadAfter(SETTLE),
        EventKind::Modify(ModifyKind::Data) => Reaction::LoadAfter(SETTLE),
        EventKind::Modify(ModifyKind::Any) => Reaction::LoadAfter(SETTLE),
        EventKind::Modify(ModifyKind::Name) => if exists {
            Reaction::LoadAfter(0)
        } else {
            Reaction::Drop
        },
        EventKind::Remove => Reaction::Drop,
        EventKind::Access(AccessKind::Close(AccessMode::Write)) => if pending {
            Reaction::LoadAfter(0)
        } else {
            Reaction::Ignore
        },
        _ => Reaction::Ignore,
    }
}

fn react(kind: EventKind, exists: bool, pending: bool) -> (r: Reaction)
    ensures
        r == reaction_to(kind, exists, pending),
{
    match kind {
        EventKind::Create => Reaction::LoadAfter(SETTLE),
        EventKind::Modify(ModifyKind::Data) => Reaction::LoadAfter(SETTLE),
        EventKind::Modify(ModifyKind::Any) => Reaction::LoadAfter(SETTLE),
        // A file that exists was moved into place, so it is already complete.
        EventKind::Modify(ModifyKind::Name) => if exists {
            Reaction::LoadAfter(0)
        } else {
            Reaction::Drop
        },
        EventKind::Remove => Reaction::Drop,
        // The writer is done. Closing without writing anything, as `touch` does, doesn't count.
        EventKind::Access(AccessKind::Close(AccessMode::Write)) => if pending {
            Reaction::LoadAfter(0)
        } else {
            Reaction::Ignore
        },
        _ => Reaction::Ignore,
    }
}

/// The files going to be loaded, and those that are gone, after an event of this kind at `path`.
pub open spec fn after_touch(
    pending: PendingMap,
    gone: Seq<Seq<Seq<u8>>>,
    kind: EventKind,
    path: Seq<Seq<u8>>,
    exists: bool,
    now: u64,
) -> (PendingMap, Seq<Seq<Seq<u8>>>) {
    if !image_path(path) {
        (pending, gone)
    } else {
        match reaction_to(kind, exists, pending.contains_key(path)) {
            Reaction::LoadAfter(delay) => (
                pending.insert(
                    path,
                    Times { last_activity: now, next_attempt: (now + delay) as u64 },
                ),
                gone,
            ),
            Reaction::Drop => (pending.remove(path), gone.push(path)),
            Reaction::Ignore => (pending, gone),
        }
    }
}

/// The files going to be loaded, and those that are gone, after an event of this kind at all of
/// `touched`, one after another.
pub open spec fn after_event(
    pending: PendingMap,
    kind: EventKind,
    touched: Seq<Touched>,
    now: u64,
) -> (PendingMap, Seq<Seq<Seq<u8>>>)
    decreases touched.len(),
{
    if touched.len() == 0 {
        (pending, Seq::empty())
    } else {
        let (map, gone) = after_event(pending, kind, touched.drop_last(), now);
        after_touch(map, gone, kind, touched.last().path@, touched.last().exists, now)
    }
}

pub open spec fn paths_of(paths: Seq<FilePath>) -> Seq<Seq<Seq<u8>>> {
    Seq::new(paths.len(), |i: int| paths[i]@)
}

/// The files that are going to be loaded.
pub struct Loader {
    pending: Vec<Pending>,
}

impl View for Loader {
    type V = PendingMap;

    closed spec fn view(&self) -> PendingMap {
        by_path(self.pending@)
    }
}

impl Loader {
    /// No file is listed twice or loaded before its last activity, and no time is too late to add a
    /// delay to.
    pub closed spec fn wf(self) -> bool {
        &&& distinct(self.pending@)
        &&& forall|i: int|
            0 <= i < self.pending@.len() ==> (#[trigger] self.pending@[i]).last_activity <= LATEST
        &&& forall|i: int|
            0 <= i < self.pending@.len() ==> (#[trigger] self.pending@[i]).last_activity
                <= self.pending@[i].next_attempt
    }

    /// No file is going to be loaded yet.
    pub fn new() -> (r: Loader)
        ensures
            r.wf(),
            r@ == Map::<Seq<Seq<u8>>, Times>::empty(),
    {
        Loader { pending: Vec::new() }
    }

    fn position(&self, path: &FilePath) -> (r: Option<usize>)
        ensures
            match r {
                Some(i) => i < self.pending@.len() && self.pending@[i as int].path@ == path@
                    && self@.contains_key(path@),
                None => !self@.contains_key(path@) && forall|i: int|
                    0 <= i < self.pending@.len() ==> (#[trigger] self.pending@[i]).path@ != path@,
            },
    {
        proof {
            lemma_by_path(self.pending@);
        }
        let mut i: usize = 0;
        while i < self.pending.len()
            invariant
                i <= self.pending@.len(),
                forall|j: int| 0 <= j < i ==> (#[trigger] self.pending@[j]).path@ != path@,
            decreases self.pending@.len() - i,
        {
            if self.pending[i].path.same(path) {
                proof {
                    lemma_by_path(self.pending@);
                }
                return Some(i);
            }
            i = i + 1;
        }
        None
    }

    /// Replaces the times of the file at `path`, which may be new.
    fn insert(&mut self, path: FilePath, last_activity: u64, next_attempt: u64)
        requires
            old(self).wf(),
            last_activity <= LATEST,
            last_activity <= next_attempt,
        ensures
            final(self).wf(),
            final(self)@ == old(self)@.insert(path@, Times { last_activity, next_attempt }),
    {
        let ghost before = self.pending@;
        let ghost key = path@;
        let ghost times = Times { last_activity, next_attempt };
        proof {
            lemma_by_path(before);
        }
        match self.position(&path) {
            Some(i) => {
                self.pending.set(i, Pending { path, last_activity, next_attempt });
                proof {
                    let after = self.pending@;
                    assert forall|j: int, k: int| 0 <= j < k < after.len() implies (
                    #[trigger] after[j]).path@ != (#[trigger] after[k]).path@ by {
                        assert(before[j].path@ != before[k].path@);
                    }
                    lemma_by_path(after);
                    assert forall|p: Seq<Seq<u8>>| #[trigger]
                        by_path(after).contains_key(p) == by_path(before).insert(
                            key,
                            times,
                        ).contains_key(p) by {
                        if by_path(after).contains_key(p) {
                            let j: int = choose|j: int|
                                0 <= j < after.len() && (#[trigger] after[j]).path@ == p;
                            assert(before[j].path@ == p);
                        }
                        if by_path(before).contains_key(p) {
                            let j: int = choose|j: int|
                                0 <= j < before.len() && (#[trigger] before[j]).path@ == p;
                            assert(after[j].path@ == p);
                        }
                    }
                    assert forall|p: Seq<Seq<u8>>| #[trigger]
                        by_path(after).contains_key(p) implies by_path(after)[p] == by_path(
                        before,
                    ).insert(key, times)[p] by {
                        let j: int = choose|j: int|
                            0 <= j < after.len() && (#[trigger] after[j]).path@ == p;
                        assert(before[j].path@ == p);
                        if j == i {
                            assert(after[j].times() == times);
                        } else {
                            assert(after[j] == before[j]);
                        }
                    }
                    assert(by_path(after) =~= by_path(before).insert(key, times));
                }
            },
            None => {
                self.pending.push(Pending { path, last_activity, next_attempt });
                assert(self.pending@.drop_last() =~= before);
            },
        }
    }

    /// Forgets the file number `i`.
    fn remove_at(&mut self, i: usize) -> (r: Pending)
        requires
            old(self).wf(),
            i < old(self).pending@.len(),
        ensures
            final(self).wf(),
            r == old(self).pending@[i as int],
            final(self)@ == old(self)@.remove(r.path@),
    {
        let ghost before = self.pending@;
        let r = self.pending.remove(i);
        proof {
            let after = self.pending@;
            lemma_by_path(before);
            assert forall|j: int, k: int| 0 <= j < k < after.len() implies (
            #[trigger] after[j]).path@ != (#[trigger] after[k]).path@ by {
                let p: int = if j < i {
                    j
                } else {
                    j + 1
                };
                let q: int = if k < i {
                    k
                } else {
                    k + 1
                };
                assert(before[p].path@ != before[q].path@);
            }
            assert forall|j: int| 0 <= j < after.len() implies (
            #[trigger] after[j]).last_activity <= LATEST && after[j].last_activity
                <= after[j].next_attempt by {
                let p: int = if j < i {
                    j
                } else {
                    j + 1
                };
                assert(before[p].last_activity <= LATEST);
            }
            lemma_by_path(after);
            assert forall|p: Seq<Seq<u8>>|
                #![trigger by_path(after).contains_key(p)]
                #![trigger by_path(after)[p]]
                {
                    &&& by_path(after).contains_key(p) == by_path(before).remove(
                        r.path@,
                    ).contains_key(p)
                    &&& by_path(after).contains_key(p) ==> by_path(after)[p] == by_path(before)[p]
                } by {
                if by_path(after).contains_key(p) {
                    let j: int = choose|j: int|
                        0 <= j < after.len() && (#[trigger] after[j]).path@ == p;
                    let k: int = if j < i {
                        j
                    } else {
                        j + 1
                    };
                    assert(before[k] == after[j]);
                    assert(before[k].path@ != before[i as int].path@);
                }
                if by_path(before).contains_key(p) && p != r.path@ {
                    let j: int = choose|j: int|
                        0 <= j < before.len() && (#[trigger] before[j]).path@ == p;
                    let k: int = if j < i {
                        j
                    } else {
                        j - 1
                    };
                    assert(after[k] == before[j]);
                }
            }
            assert(by_path(after) =~= by_path(before).remove(r.path@));
        }
        r
    }
}

/// What came of an attempt to load a file.
pub enum Attempt {
    /// It was loaded; tell the window.
    Send(Update),
    /// It was most likely still being written; it will be tried again.
    Retry,
    /// It has been quiet for too long to be tried again.
    Skip { path: FilePath, reason: String },
}

impl Loader {
    /// Takes note of an event at all of `touched`. The result is the images that are gone.
    pub fn on_fs_event(&mut self, kind: EventKind, touched: Vec<Touched>, now: u64) -> (gone: Vec<
        FilePath,
    >)
        requires
            old(self).wf(),
            now <= LATEST,
            forall|i: int| 0 <= i < touched@.len() ==> (#[trigger] touched@[i]).path.wf(),
        ensures
            final(self).wf(),
            (final(self)@, paths_of(gone@)) == after_event(old(self)@, kind, touched@, now),
    {
        let mut gone: Vec<FilePath> = Vec::new();
        let mut i: usize = 0;
        assert(paths_of(gone@) =~= Seq::empty());
        assert(touched@.take(0) =~= Seq::empty());
        while i < touched.len()
            invariant
                self.wf(),
                now <= LATEST,
                i <= touched@.len(),
                forall|i: int| 0 <= i < touched@.len() ==> (#[trigger] touched@[i]).path.wf(),
                (self@, paths_of(gone@)) == after_event(
                    old(self)@,
                    kind,
                    touched@.take(i as int),
                    now,
                ),
            decreases touched@.len() - i,
        {
            proof {
                assert(touched@.take(i + 1).drop_last() =~= touched@.take(i as int));
                assert(touched@.take(i + 1).last() == touched@[i as int]);
            }
            let file = &touched[i];
            if is_image(&file.path) {
                let place = self.position(&file.path);
                match react(kind, file.exists, place.is_some()) {
                    Reaction::LoadAfter(delay) => {
                        self.insert(file.path.copy(), now, now + delay);
                    },
                    Reaction::Drop => {
                        let ghost before = paths_of(gone@);
                        if let Some(j) = place {
                            self.remove_at(j);
                        } else {
                            assert(self@.remove(file.path@) =~= self@);
                        }
                        gone.push(file.path.copy());
                        assert(paths_of(gone@) =~= before.push(file.path@));
                    },
                    Reaction::Ignore => {},
                }
            }
            i = i + 1;
        }
        assert(touched@.take(i as int) =~= touched@);
        gone
    }

    /// How long to wait for events before a file has to be loaded: as long as it takes if there is
    /// none.
    pub fn wait(&self, now: u64) -> (r: Option<u64>)
        requires
            self.wf(),
        ensures
            match r {
                None => self@ == Map::<Seq<Seq<u8>>, Times>::empty(),
                Some(delay) => is_wait(self@, now, delay),
            },
    {
        proof {
            lemma_by_path(self.pending@);
        }
        if self.pending.len() == 0 {
            return None;
        }
        let mut earliest: u64 = self.pending[0].next_attempt;
        let mut i: usize = 1;
        let ghost mut at: int = 0;
        while i < self.pending.len()
            invariant
                1 <= i <= self.pending@.len(),
                0 <= at < i,
                self.pending@[at].next_attempt == earliest,
                forall|j: int| 0 <= j < i ==> earliest <= (#[trigger] self.pending@[j]).next_attempt,
            decreases self.pending@.len() - i,
        {
            if self.pending[i].next_attempt < earliest {
                earliest = self.pending[i].next_attempt;
                proof {
                    at = i as int;
                }
            }
            i = i + 1;
        }
        proof {
            let first = self.pending@[at].path@;
            assert(self@.contains_key(first) && self@[first].next_attempt == earliest);
            assert forall|path: Seq<Seq<u8>>| #[trigger]
                self@.contains_key(path) implies earliest <= self@[path].next_attempt by {
                let j: int = choose|j: int|
                    0 <= j < self.pending@.len() && (#[trigger] self.pending@[j]).path@ == path;
            }
        }
        if earliest > now {
            Some(earliest - now)
        } else {
            Some(0)
        }
    }

    /// The files that are to be loaded now.
    pub fn due(&self, now: u64) -> (r: Vec<FilePath>)
        requires
            self.wf(),
        ensures
            paths_of(r@).no_duplicates(),
            forall|path: Seq<Seq<u8>>| #[trigger]
                paths_of(r@).contains(path) <==> is_due(self@, path, now),
    {
        proof {
            lemma_by_path(self.pending@);
        }
        let mut r: Vec<FilePath> = Vec::new();
        let mut i: usize = 0;
        while i < self.pending.len()
            invariant
                self.wf(),
                i <= self.pending@.len(),
                paths_of(r@).no_duplicates(),
                forall|path: Seq<Seq<u8>>| #[trigger]
                    paths_of(r@).contains(path) <==> exists|j: int|
                        0 <= j < i && (#[trigger] self.pending@[j]).path@ == path
                            && self.pending@[j].next_attempt <= now,
            decreases self.pending@.len() - i,
        {
            let ghost before = paths_of(r@);
            let ghost path = self.pending@[i as int].path@;
            if self.pending[i].next_attempt <= now {
                r.push(self.pending[i].path.copy());
                proof {
                    let after = paths_of(r@);
                    assert(after =~= before.push(path));
                    assert(!before.contains(path)) by {
                        if before.contains(path) {
                            let j: int = choose|j: int|
                                0 <= j < i && (#[trigger] self.pending@[j]).path@ == path
                                    && self.pending@[j].next_attempt <= now;
                            assert(self.pending@[j].path@ != self.pending@[i as int].path@);
                        }
                    }
                    assert forall|p: Seq<Seq<u8>>| #[trigger] after.contains(p) <==> (
                    before.contains(p) || p == path) by {
                        if before.contains(p) {
                            let j: int = choose|j: int| 0 <= j < before.len() && before[j] == p;
                            assert(after[j] == p);
                        }
                        if p == path {
                            assert(after[before.len() as int] == p);
                        }
                    }
                }
            }
            proof {
                let after = paths_of(r@);
                assert forall|p: Seq<Seq<u8>>| #[trigger] after.contains(p) <==> exists|j: int|
                    0 <= j < i + 1 && (#[trigger] self.pending@[j]).path@ == p
                        && self.pending@[j].next_attempt <= now by {
                    if after.contains(p) {
                        if before.contains(p) {
                            let j: int = choose|j: int|
                                0 <= j < i && (#[trigger] self.pending@[j]).path@ == p
                                    && self.pending@[j].next_attempt <= now;
                            assert(self.pending@[j].path@ == p);
                        } else {
                            assert(self.pending@[i as int].path@ == p);
                        }
                    }
                    if exists|j: int|
                        0 <= j < i + 1 && (#[trigger] self.pending@[j]).path@ == p
                            && self.pending@[j].next_attempt <= now {
                        let j: int = choose|j: int|
                            0 <= j < i + 1 && (#[trigger] self.pending@[j]).path@ == p
                                && self.pending@[j].next_attempt <= now;
                        if j < i {
                            assert(before.contains(p));
                        }
                    }
                }
            }
            i = i + 1;
        }
        proof {
            assert forall|path: Seq<Seq<u8>>| #[trigger]
                paths_of(r@).contains(path) <==> is_due(self@, path, now) by {
                if self@.contains_key(path) {
                    let j: int = choose|j: int|
                        0 <= j < self.pending@.len() && (#[trigger] self.pending@[j]).path@ == path;
                    assert(self@[path] == self.pending@[j].times());
                }
                if paths_of(r@).contains(path) {
                    let j: int = choose|j: int|
                        0 <= j < i && (#[trigger] self.pending@[j]).path@ == path
                            && self.pending@[j].next_attempt <= now;
                    assert(self@[path] == self.pending@[j].times());
                }
            }
        }
        r
    }

    /// Takes note of what came of loading the file at `path` now.
    pub fn attempted(&mut self, path: FilePath, outcome: Result<RgbaImage, String>, now: u64) -> (r:
        Attempt)
        requires
            old(self).wf(),
            is_due(old(self)@, path@, now),
            now <= LATEST,
        ensures
            final(self).wf(),
            final(self)@ == after_attempt(old(self)@, path@, outcome is Ok, now),
            r is Retry <==> final(self)@.contains_key(path@),
            r is Send <==> outcome is Ok,
            match outcome {
                Ok(loaded) => r matches Attempt::Send(Update::Loaded { path: p, image }) && p@ == path@
                    && image == loaded,
                Err(e) => if now < old(self)@[path@].last_activity + GIVE_UP {
                    r is Retry
                } else {
                    r matches Attempt::Skip { path: p, reason } && p@ == path@ && reason == e
                },
            },
    {
        proof {
            lemma_by_path(self.pending@);
        }
        let i: usize = match self.position(&path) {
            Some(i) => i,
            None => 0,
        };
        assert(self@[path@] == self.pending@[i as int].times());
        match outcome {
            Ok(image) => {
                self.remove_at(i);
                Attempt::Send(Update::Loaded { path, image })
            },
            Err(reason) => {
                let last_activity: u64 = self.pending[i].last_activity;
                if now < last_activity + GIVE_UP {
                    self.insert(path, last_activity, now + RETRY);
                    Attempt::Retry
                } else {
                    self.remove_at(i);
                    Attempt::Skip { path, reason }
                }
            },
        }
    }
}

/// The file at `path` is to be loaded now.
pub open spec fn is_due(pending: PendingMap, path: Seq<Seq<u8>>, now: u64) -> bool {
    pending.contains_key(path) && pending[path].next_attempt <= now
}

/// `delay` is how long it takes until the first of the `pending` files is to be loaded.
pub open spec fn is_wait(pending: PendingMap, now: u64, delay: u64) -> bool {
    exists|first: Seq<Seq<u8>>|
        {
            &&& #[trigger] pending.contains_key(first)
            &&& forall|path: Seq<Seq<u8>>| #[trigger]
                pending.contains_key(path) ==> pending[first].next_attempt
                    <= pending[path].next_attempt
            &&& delay == if pending[first].next_attempt > now {
                pending[first].next_attempt - now
            } else {
                0
            }
        }
}

/// The files going to be loaded after an attempt to load the one at `path`.
pub open spec fn after_attempt(
    pending: PendingMap,
    path: Seq<Seq<u8>>,
    loaded: bool,
    now: u64,
) -> PendingMap {
    if !loaded && now < pending[path].last_activity + GIVE_UP {
        pending.insert(path, Times { next_attempt: (now + RETRY) as u64, ..pending[path] })
    } else {
        pending.remove(path)
    }
}

/// A file that was created or written to is loaded once it has gone without writes for `SETTLE`, and
/// not before.
pub proof fn writes_postpone_loading(
    pending: PendingMap,
    kind: EventKind,
    path: Seq<Seq<u8>>,
    exists: bool,
    now: u64,
    later: u64,
)
    requires
        kind == EventKind::Create || kind == EventKind::Modify(ModifyKind::Data) || kind
            == EventKind::Modify(ModifyKind::Any),
        image_path(path),
        now <= LATEST,
    ensures
        is_due(after_touch(pending, Seq::empty(), kind, path, exists, now).0, path, later) <==> later
            >= now + SETTLE,
{
}

/// A file that was written to is loaded at once when its writer closes it. Closing a file that was
/// not written to, as `touch` does, changes nothing.
pub proof fn closing_ends_writing(
    pending: PendingMap,
    path: Seq<Seq<u8>>,
    exists: bool,
    now: u64,
)
    requires
        image_path(path),
    ensures
        ({
            let kind = EventKind::Access(AccessKind::Close(AccessMode::Write));
            let after = after_touch(pending, Seq::empty(), kind, path, exists, now).0;
            if pending.contains_key(path) {
                is_due(after, path, now)
            } else {
                after == pending
            }
        }),
{
}

/// A file that was moved into place is complete and loaded at once.
pub proof fn moved_files_are_complete(pending: PendingMap, path: Seq<Seq<u8>>, now: u64)
    requires
        image_path(path),
    ensures
        is_due(
            after_touch(
                pending,
                Seq::empty(),
                EventKind::Modify(ModifyKind::Name),
                path,
                true,
                now,
            ).0,
            path,
            now,
        ),
{
}

/// A file that was removed, or moved away, is not loaded any more, and the window is told.
pub proof fn removed_files_are_forgotten(
    pending: PendingMap,
    gone: Seq<Seq<Seq<u8>>>,
    kind: EventKind,
    path: Seq<Seq<u8>>,
    exists: bool,
    now: u64,
)
    requires
        kind == EventKind::Remove || (kind == EventKind::Modify(ModifyKind::Name) && !exists),
        image_path(path),
    ensures
        after_touch(pending, gone, kind, path, exists, now) == (
            pending.remove(path),
            gone.push(path),
        ),
{
}

/// An event leaves all files as they are that it is not about.
pub proof fn events_leave_other_files_alone(
    pending: PendingMap,
    kind: EventKind,
    touched: Seq<Touched>,
    other: Seq<Seq<u8>>,
    now: u64,
)
    requires
        forall|i: int| 0 <= i < touched.len() ==> (#[trigger] touched[i]).path@ != other,
    ensures
        ({
            let (after, gone) = after_event(pending, kind, touched, now);
            &&& after.contains_key(other) == pending.contains_key(other)
            &&& pending.contains_key(other) ==> after[other] == pending[other]
            &&& !gone.contains(other)
        }),
    decreases touched.len(),
{
    if touched.len() > 0 {
        let init = touched.drop_last();
        assert forall|i: int| 0 <= i < init.len() implies (#[trigger] init[i]).path@ != other by {
            assert(touched[i].path@ != other);
        }
        events_leave_other_files_alone(pending, kind, init, other, now);
        let (_, before) = after_event(pending, kind, init, now);
        let (_, gone) = after_event(pending, kind, touched, now);
        if gone.contains(other) {
            let i: int = choose|i: int| 0 <= i < gone.len() && gone[i] == other;
            if i < before.len() {
                assert(before[i] == other);
            }
        }
    }
}

/// Nothing but images is ever loaded, or reported to be gone.
pub proof fn only_images_count(
    pending: PendingMap,
    kind: EventKind,
    touched: Seq<Touched>,
    path: Seq<Seq<u8>>,
    now: u64,
)
    requires
        !image_path(path),
        !pending.contains_key(path),
    ensures
        ({
            let (after, gone) = after_event(pending, kind, touched, now);
            !after.contains_key(path) && !gone.contains(path)
        }),
    decreases touched.len(),
{
    if touched.len() > 0 {
        let init = touched.drop_last();
        only_images_count(pending, kind, init, path, now);
        let (_, before) = after_event(pending, kind, init, now);
        let (_, gone) = after_event(pending, kind, touched, now);
        if gone.contains(path) {
            let i: int = choose|i: int| 0 <= i < gone.len() && gone[i] == path;
            if i < before.len() {
                assert(before[i] == path);
            }
        }
    }
}

/// A file that could not be loaded is not due again in the same round, and the others stay as they
/// are, so that a round tries every file once.
pub proof fn a_round_tries_files_once(
    pending: PendingMap,
    path: Seq<Seq<u8>>,
    loaded: bool,
    other: Seq<Seq<u8>>,
    now: u64,
)
    requires
        now <= LATEST,
    ensures
        !is_due(after_attempt(pending, path, loaded, now), path, now),
        other != path ==> is_due(after_attempt(pending, path, loaded, now), other, now) == is_due(
            pending,
            other,
            now,
        ),
{
}

/// The file at `path` is still going to be loaded after attempts at all of `times` have failed, each
/// when it was due.
pub open spec fn survives(pending: PendingMap, path: Seq<Seq<u8>>, times: Seq<u64>) -> bool
    decreases times.len(),
{
    if times.len() == 0 {
        pending.contains_key(path)
    } else {
        &&& is_due(pending, path, times[0])
        &&& times[0] <= LATEST
        &&& survives(after_attempt(pending, path, false, times[0]), path, times.skip(1))
    }
}

/// A file that is not an image after all, and that nothing happens to, is given up: it is tried again
/// no more than `GIVE_UP / RETRY` times.
pub proof fn attempts_come_to_an_end(pending: PendingMap, path: Seq<Seq<u8>>, times: Seq<u64>)
    requires
        pending[path].last_activity <= pending[path].next_attempt,
        survives(pending, path, times),
    ensures
        times.len() <= GIVE_UP / RETRY,
{
    lemma_attempts(pending, path, times, 0);
}

proof fn lemma_attempts(pending: PendingMap, path: Seq<Seq<u8>>, times: Seq<u64>, done: int)
    requires
        0 <= done <= 20,
        pending[path].last_activity + done * RETRY <= pending[path].next_attempt,
        survives(pending, path, times),
    ensures
        times.len() <= 20 - done,
    decreases times.len(),
{
    if times.len() > 0 {
        let after = after_attempt(pending, path, false, times[0]);
        if times[0] < pending[path].last_activity + GIVE_UP {
            lemma_attempts(after, path, times.skip(1), done + 1);
        } else {
            assert(!after.contains_key(path));
            assert(!survives(after, path, times.skip(1)));
        }
    }
}

/// One thing that happens while files are watched.
pub ghost enum Step {
    /// An event of this kind names the file at `path`.
    Touch { kind: EventKind, path: Seq<Seq<u8>>, exists: bool, now: u64 },
    /// An attempt to load the file at `path` has this outcome.
    Attempt { path: Seq<Seq<u8>>, outcome: Outcome, now: u64 },
}

/// What the window is told.
pub ghost enum News {
    /// A file was loaded: the size and pixels of its image.
    Loaded { path: Seq<Seq<u8>>, image: (u32, u32, Seq<u8>) },
    /// A file is gone.
    Removed(Seq<Seq<u8>>),
}

impl News {
    /// The file that the news are about.
    pub open spec fn path(self) -> Seq<Seq<u8>> {
        match self {
            News::Loaded { path, .. } => path,
            News::Removed(path) => path,
        }
    }
}

impl Step {
    /// Files are loaded only when they are due.
    pub open spec fn can_follow(self, pending: PendingMap) -> bool {
        self matches Step::Attempt { path, now, .. } ==> is_due(pending, path, now)
    }

    /// The files going to be loaded after this step.
    pub open spec fn after(self, pending: PendingMap) -> PendingMap {
        match self {
            Step::Touch { kind, path, exists, now } => after_touch(
                pending,
                Seq::empty(),
                kind,
                path,
                exists,
                now,
            ).0,
            Step::Attempt { path, outcome, now } => after_attempt(pending, path, outcome is Ok, now),
        }
    }

    /// What the window is told in this step.
    pub open spec fn news(self, pending: PendingMap) -> Option<News> {
        match self {
            Step::Touch { kind, path, exists, now } => if after_touch(
                pending,
                Seq::empty(),
                kind,
                path,
                exists,
                now,
            ).1.contains(path) {
                Some(News::Removed(path))
            } else {
                None
            },
            Step::Attempt { path, outcome, .. } => match outcome {
                Ok(image) => Some(News::Loaded { path, image }),
                Err(_) => None,
            },
        }
    }

    /// An event names the file at `path`.
    pub open spec fn touches(self, path: Seq<Seq<u8>>) -> bool {
        self matches Step::Touch { path: p, .. } && p == path
    }
}

/// The files going to be loaded after all of `steps`, if there are none to begin with.
pub open spec fn after_steps(steps: Seq<Step>) -> PendingMap
    decreases steps.len(),
{
    if steps.len() == 0 {
        Map::empty()
    } else {
        steps.last().after(after_steps(steps.drop_last()))
    }
}

/// What the window is told in step `i`.
pub open spec fn news_at(steps: Seq<Step>, i: int) -> Option<News> {
    steps[i].news(after_steps(steps.take(i)))
}

/// Step `i` tells the window something about the file at `path`.
pub open spec fn tells_of(steps: Seq<Step>, i: int, path: Seq<Seq<u8>>) -> bool {
    news_at(steps, i) matches Some(news) && news.path() == path
}

/// All that the window is told, in order.
pub open spec fn all_news(steps: Seq<Step>) -> Seq<News>
    decreases steps.len(),
{
    if steps.len() == 0 {
        Seq::empty()
    } else {
        let before = all_news(steps.drop_last());
        match steps.last().news(after_steps(steps.drop_last())) {
            Some(news) => before.push(news),
            None => before,
        }
    }
}

/// Step `i` can follow those before it.
pub open spec fn can_happen(steps: Seq<Step>, i: int) -> bool {
    steps[i].can_follow(after_steps(steps.take(i)))
}

/// The steps can follow one another.
pub open spec fn is_run(steps: Seq<Step>) -> bool {
    forall|i: int| 0 <= i < steps.len() ==> #[trigger] can_happen(steps, i)
}

/// An event names the file at `path` in step `j`, and from there on, up to step `n`, the window is
/// told nothing about it.
pub open spec fn named_since(steps: Seq<Step>, j: int, n: int, path: Seq<Seq<u8>>) -> bool {
    &&& 0 <= j < n
    &&& steps[j].touches(path)
    &&& forall|k: int| j <= k < n ==> !#[trigger] tells_of(steps, k, path)
}

/// The steps that an event at all of `touched` is made of.
pub open spec fn touches_of(kind: EventKind, touched: Seq<Touched>, now: u64) -> Seq<Step> {
    Seq::new(
        touched.len(),
        |i: int| Step::Touch { kind, path: touched[i].path@, exists: touched[i].exists, now },
    )
}

/// An event has the effect of the steps that it is made of, and the images that are gone are what the
/// window is told.
pub proof fn events_are_made_of_touches(
    before: Seq<Step>,
    kind: EventKind,
    touched: Seq<Touched>,
    now: u64,
)
    ensures
        ({
            let steps = before + touches_of(kind, touched, now);
            let (pending, gone) = after_event(after_steps(before), kind, touched, now);
            &&& after_steps(steps) == pending
            &&& all_news(steps) == all_news(before) + Seq::new(
                gone.len(),
                |i: int| News::Removed(gone[i]),
            )
            &&& is_run(before) ==> is_run(steps)
        }),
    decreases touched.len(),
{
    let steps = before + touches_of(kind, touched, now);
    let (pending, gone) = after_event(after_steps(before), kind, touched, now);
    if touched.len() == 0 {
        assert(steps =~= before);
        assert(Seq::new(gone.len(), |i: int| News::Removed(gone[i])) =~= Seq::empty());
        assert(all_news(before) + Seq::<News>::empty() =~= all_news(before));
    } else {
        let init = touched.drop_last();
        let last = touched.last();
        let fewer = before + touches_of(kind, init, now);
        let (map, some) = after_event(after_steps(before), kind, init, now);
        events_are_made_of_touches(before, kind, init, now);
        assert(steps.drop_last() =~= fewer);
        let step = Step::Touch { kind, path: last.path@, exists: last.exists, now };
        assert(steps.last() == step);
        let alone = after_touch(map, Seq::empty(), kind, last.path@, last.exists, now).1;
        let told = Seq::new(gone.len(), |i: int| News::Removed(gone[i]));
        let less = Seq::new(some.len(), |i: int| News::Removed(some[i]));
        if gone.len() > some.len() {
            assert(alone[0] == last.path@);
            assert(told =~= less.push(News::Removed(last.path@)));
            assert(all_news(before) + told =~= (all_news(before) + less).push(
                News::Removed(last.path@),
            ));
        } else {
            assert(alone =~= Seq::empty());
            assert(told =~= less);
        }
        if is_run(before) {
            lemma_run_grows(fewer, step);
            assert(steps =~= fewer.push(step));
        }
    }
}

/// An attempt to load a file that is due is a step of its own. The window is told about the image if
/// there is one.
pub proof fn attempts_are_steps(
    before: Seq<Step>,
    path: Seq<Seq<u8>>,
    outcome: Outcome,
    now: u64,
)
    requires
        is_run(before),
        is_due(after_steps(before), path, now),
    ensures
        ({
            let steps = before.push(Step::Attempt { path, outcome, now });
            &&& after_steps(steps) == after_attempt(after_steps(before), path, outcome is Ok, now)
            &&& all_news(steps) == match outcome {
                Ok(image) => all_news(before).push(News::Loaded { path, image }),
                Err(_) => all_news(before),
            }
            &&& is_run(steps)
        }),
{
    let step = Step::Attempt { path, outcome, now };
    assert(before.push(step).drop_last() =~= before);
    lemma_run_grows(before, step);
}

proof fn lemma_run_grows(before: Seq<Step>, step: Step)
    requires
        is_run(before),
        step.can_follow(after_steps(before)),
    ensures
        is_run(before.push(step)),
{
    let steps = before.push(step);
    assert forall|i: int| 0 <= i < steps.len() implies #[trigger] can_happen(steps, i) by {
        if i < before.len() {
            assert(can_happen(before, i));
            assert(steps.take(i) =~= before.take(i));
        } else {
            assert(steps.take(i) =~= before);
        }
    }
}

/// The window is told of an image only when an attempt has just loaded it, and only if it is one by
/// its name. An event named the file before, and since then the window was told neither that the file
/// was loaded nor that it was gone.
pub proof fn images_are_loaded_after_events(
    steps: Seq<Step>,
    i: int,
    path: Seq<Seq<u8>>,
    image: (u32, u32, Seq<u8>),
)
    requires
        is_run(steps),
        0 <= i < steps.len(),
        news_at(steps, i) == Some(News::Loaded { path, image }),
    ensures
        image_path(path),
        steps[i] matches Step::Attempt { path: p, outcome, .. } && p == path && outcome == Ok::<
            _,
            Seq<char>,
        >(image),
        exists|j: int| #[trigger] named_since(steps, j, i, path),
{
    assert(can_happen(steps, i));
    lemma_pending_was_touched(steps, i, path);
}

/// Between two times that the window is told about a file, of which the later one is that it was
/// loaded, an event names the file: it is loaded at most once for each event, and not again once it is
/// gone.
pub proof fn loading_again_takes_an_event(
    steps: Seq<Step>,
    earlier: int,
    i: int,
    path: Seq<Seq<u8>>,
    image: (u32, u32, Seq<u8>),
)
    requires
        is_run(steps),
        0 <= earlier < i < steps.len(),
        tells_of(steps, earlier, path),
        news_at(steps, i) == Some(News::Loaded { path, image }),
    ensures
        exists|j: int| earlier < j < i && #[trigger] steps[j].touches(path),
{
    images_are_loaded_after_events(steps, i, path, image);
    let j: int = choose|j: int| #[trigger] named_since(steps, j, i, path);
    assert(earlier < j && steps[j].touches(path));
}

/// A file that is going to be loaded after a step was so before, or the step is an event that names
/// it. The window is not told about it.
proof fn lemma_step(step: Step, pending: PendingMap, path: Seq<Seq<u8>>)
    requires
        step.can_follow(pending),
        step.after(pending).contains_key(path),
    ensures
        pending.contains_key(path) || (step.touches(path) && image_path(path)),
        step.news(pending) matches Some(news) ==> news.path() != path,
{
    if let Step::Touch { kind, path: p, exists, now } = step {
        let gone = after_touch(pending, Seq::empty(), kind, p, exists, now).1;
        assert(Seq::<Seq<Seq<u8>>>::empty().push(p)[0] == p);
        assert(gone.len() == 0 || gone == Seq::<Seq<Seq<u8>>>::empty().push(p));
    }
}

/// A file that is going to be loaded is an image by its name, and an event has named it since the
/// window was last told about it.
proof fn lemma_pending_was_touched(steps: Seq<Step>, n: int, path: Seq<Seq<u8>>)
    requires
        is_run(steps),
        0 <= n <= steps.len(),
        after_steps(steps.take(n)).contains_key(path),
    ensures
        image_path(path),
        exists|j: int| #[trigger] named_since(steps, j, n, path),
    decreases n,
{
    if n > 0 {
        let before = after_steps(steps.take(n - 1));
        let step = steps[n - 1];
        assert(steps.take(n).drop_last() =~= steps.take(n - 1));
        assert(steps.take(n).last() == step);
        assert(can_happen(steps, n - 1));
        lemma_step(step, before, path);
        assert(!tells_of(steps, n - 1, path));
        if before.contains_key(path) {
            lemma_pending_was_touched(steps, n - 1, path);
            let j: int = choose|j: int| #[trigger] named_since(steps, j, n - 1, path);
            assert(named_since(steps, j, n, path));
        } else {
            assert(named_since(steps, n - 1, n, path));
        }
    }
}

/// An event of this kind can say that a file was created, written to, renamed, removed, or closed after
/// writing. All others are about reading, about something else than files' contents, or about nothing
/// in particular.
pub open spec fn can_matter(kind: EventKind) -> bool {
    match kind {
        EventKind::Create | EventKind::Remove => true,
        EventKind::Modify(what) => what is Data || what is Any || what is Name,
        EventKind::Access(AccessKind::Close(mode)) => mode is Write,
        _ => false,
    }
}

/// An event that says nothing about the content or the place of files, such as that one was opened or
/// read, changes nothing: no file is going to be loaded or forgotten, and none is gone.
pub proof fn other_events_change_nothing(
    pending: PendingMap,
    kind: EventKind,
    touched: Seq<Touched>,
    now: u64,
)
    requires
        !can_matter(kind),
    ensures
        after_event(pending, kind, touched, now).0 == pending,
        after_event(pending, kind, touched, now).1.len() == 0,
    decreases touched.len(),
{
    if touched.len() > 0 {
        other_events_change_nothing(pending, kind, touched.drop_last(), now);
    }
}

/// An event about a file that is no image changes nothing.
pub proof fn other_files_change_nothing(
    pending: PendingMap,
    gone: Seq<Seq<Seq<u8>>>,
    kind: EventKind,
    path: Seq<Seq<u8>>,
    exists: bool,
    now: u64,
)
    requires
        !image_path(path),
    ensures
        after_touch(pending, gone, kind, path, exists, now) == (pending, gone),
{
}

/// What an event makes of an image. A file that was created or written to waits for a while without
/// writes, one that was moved into place is loaded at once, and so is one that was written to and then
/// closed. In each of these cases it counts as active from now on, and it is not gone. A file that was
/// removed or moved away is not loaded any more, and gone. Closing a file that was not written to does
/// nothing.
pub proof fn events_set_the_times(
    pending: PendingMap,
    gone: Seq<Seq<Seq<u8>>>,
    kind: EventKind,
    path: Seq<Seq<u8>>,
    exists: bool,
    now: u64,
)
    requires
        image_path(path),
        now <= LATEST,
    ensures
        ({
            let (after, told) = after_touch(pending, gone, kind, path, exists, now);
            let written = kind is Create || (kind matches EventKind::Modify(what) && (what is Data
                || what is Any));
            let renamed = kind matches EventKind::Modify(what) && what is Name;
            let closed = kind matches EventKind::Access(AccessKind::Close(mode)) && mode is Write;
            let at_once = (renamed && exists) || (closed && pending.contains_key(path));
            let removed = kind is Remove || (renamed && !exists);
            &&& written ==> after.contains_key(path) && after[path].last_activity == now
                && after[path].next_attempt == now + 300_000_000 && told == gone
            &&& at_once ==> after.contains_key(path) && after[path].last_activity == now
                && after[path].next_attempt == now && told == gone
            &&& removed ==> !after.contains_key(path) && told == gone.push(path)
            &&& !written && !at_once && !removed ==> after == pending && told == gone
            &&& forall|other: Seq<Seq<u8>>|
                other != path ==> (#[trigger] after.contains_key(other) <==> pending.contains_key(other))
            &&& forall|other: Seq<Seq<u8>>|
                other != path && pending.contains_key(other) ==> #[trigger] after[other]
                    == pending[other]
        }),
{
}

/// A file is due from its time on, and only if it is going to be loaded.
pub proof fn files_are_due_from_their_time_on(
    pending: PendingMap,
    path: Seq<Seq<u8>>,
    now: u64,
)
    ensures
        pending.contains_key(path) && now >= pending[path].next_attempt ==> is_due(pending, path, now),
        pending.contains_key(path) && now < pending[path].next_attempt ==> !is_due(pending, path, now),
        !pending.contains_key(path) ==> !is_due(pending, path, now),
{
}

/// The wait is as long as it takes for a file to be due: until then there is none, unless there is no
/// wait, and then there is one.
pub proof fn waiting_ends_when_a_file_is_due(pending: PendingMap, now: u64, delay: u64)
    requires
        is_wait(pending, now, delay),
    ensures
        forall|path: Seq<Seq<u8>>, time: u64|
            now <= time < now + delay ==> !#[trigger] is_due(pending, path, time),
        now + delay <= u64::MAX ==> exists|path: Seq<Seq<u8>>| #[trigger]
            is_due(pending, path, (now + delay) as u64),
{
    let first = choose|first: Seq<Seq<u8>>|
        {
            &&& #[trigger] pending.contains_key(first)
            &&& forall|path: Seq<Seq<u8>>| #[trigger]
                pending.contains_key(path) ==> pending[first].next_attempt
                    <= pending[path].next_attempt
            &&& delay == if pending[first].next_attempt > now {
                pending[first].next_attempt - now
            } else {
                0
            }
        };
    if now + delay <= u64::MAX {
        assert(is_due(pending, first, (now + delay) as u64));
    }
}

/// What an attempt makes of a file. One that was loaded is done with. One that was not is tried again
/// half a second later, unless it has been quiet for ten seconds: then it is given up. That does not
/// count as activity, and other files stay as they are.
pub proof fn attempts_set_the_times(
    pending: PendingMap,
    path: Seq<Seq<u8>>,
    loaded: bool,
    now: u64,
)
    requires
        pending.contains_key(path),
        now <= LATEST,
    ensures
        ({
            let after = after_attempt(pending, path, loaded, now);
            let quiet = now - pending[path].last_activity;
            &&& after.contains_key(path) <==> !loaded && quiet < 10_000_000_000
            &&& after.contains_key(path) ==> after[path].next_attempt == now + 500_000_000
                && after[path].last_activity == pending[path].last_activity
            &&& forall|other: Seq<Seq<u8>>|
                other != path ==> (#[trigger] after.contains_key(other) <==> pending.contains_key(other))
            &&& forall|other: Seq<Seq<u8>>|
                other != path && pending.contains_key(other) ==> #[trigger] after[other]
                    == pending[other]
        }),
{
}

/// A file that something keeps happening to is not given up: an attempt within ten seconds of the last
/// event leaves it to be tried again.
pub proof fn active_files_are_not_given_up(
    pending: PendingMap,
    kind: EventKind,
    path: Seq<Seq<u8>>,
    exists: bool,
    now: u64,
    later: u64,
)
    requires
        image_path(path),
        kind is Create || kind == EventKind::Modify(ModifyKind::Data) || kind == EventKind::Modify(
            ModifyKind::Any,
        ),
        now <= later < now + 10_000_000_000,
        later <= LATEST,
    ensures
        ({
            let active = after_touch(pending, Seq::empty(), kind, path, exists, now).0;
            after_attempt(active, path, false, later).contains_key(path)
        }),
{
}

/// Every file that an event is about is treated the same way, one after the other: what comes of an
/// event is what comes of it without its last file, and then of that file alone.
pub proof fn events_go_file_by_file(
    pending: PendingMap,
    kind: EventKind,
    touched: Seq<Touched>,
    last: Touched,
    now: u64,
)
    ensures
        ({
            let (map, gone) = after_event(pending, kind, touched, now);
            after_event(pending, kind, touched.push(last), now) == after_touch(
                map,
                gone,
                kind,
                last.path@,
                last.exists,
                now,
            )
        }),
        after_event(pending, kind, Seq::empty(), now).0 == pending,
        after_event(pending, kind, Seq::empty(), now).1.len() == 0,
{
    assert(touched.push(last).drop_last() =~= touched);
}

/// Lists of paths stand for the paths in them, and what is known of a file for its times.
pub proof fn lists_stand_for_what_they_hold(paths: Seq<FilePath>, file: Pending)
    ensures
        paths_of(paths).len() == paths.len(),
        forall|i: int| 0 <= i < paths.len() ==> #[trigger] paths_of(paths)[i] == paths[i]@,
        file.times().last_activity == file.last_activity,
        file.times().next_attempt == file.next_attempt,
{
}

} // verus!
