//! What the window shows, and how that changes.
use vstd::prelude::*;

use crate::clock::Timestamp;
use crate::images::{image_path, loadable, outcome_of, Outcome};
use crate::keys::{Keymap, XK_END, XK_ESCAPE, XK_HOME, XK_LEFT, XK_Q, XK_RIGHT};
use crate::layout::FontMetrics;
use crate::loader::{
    after_attempt, after_touch, is_due, paths_of, AccessKind, AccessMode, EventKind, ModifyKind,
    PendingMap, Update, LATEST, SETTLE,
};
use crate::path::FilePath;
use crate::pixels::{
    can_show, image_data, image_data_shows_pixels, pixels_at, shows_at, shows_pixels, thumbnail_of,
    upload_data, RgbaImage, BACKGROUND,
};
use crate::scale::{fit, fit_fits, fit_never_enlarges, fitted};

verus! {

/// The image currently selected in the window.
pub struct Shown {
    pub path: FilePath,
    pub image: Result<RgbaImage, String>,
    pub modified: Option<Timestamp>,
}

/// An image uploaded to the X server.
#[derive(Clone, Copy, Debug)]
pub struct Picture {
    pub id: u32,
    pub size: (u16, u16),
}

/// The numbers by which the X server calls the messages that close the window.
#[derive(Clone, Copy, Debug, PartialEq, Eq, Structural)]
pub struct Atoms {
    pub wm_protocols: u32,
    pub wm_delete_window: u32,
}

/// The state of the window.
pub struct Ui {
    pub(crate) atoms: Atoms,
    pub(crate) font: Option<FontMetrics>,
    pub(crate) keymap: Keymap,
    pub(crate) dir: FilePath,
    /// Images, least recently created or modified first.
    pub(crate) entries: Vec<FilePath>,
    /// The selected entry.
    pub(crate) index: usize,
    /// The selected entry, decoded.
    pub(crate) shown: Option<Shown>,
    /// `shown`, scaled to fit the window, on the X server.
    pub(crate) picture: Option<Picture>,
    pub(crate) size: (u16, u16),
    pub(crate) title: String,
    pub(crate) dirty: bool,
}

/// What an image file looks like, or why it cannot be shown, and when it was last modified.
pub ghost struct Sight {
    pub path: Seq<Seq<u8>>,
    pub image: Outcome,
    pub modified: Option<Timestamp>,
}

impl View for Shown {
    type V = Sight;

    open spec fn view(&self) -> Sight {
        Sight { path: self.path@, image: outcome_of(self.image), modified: self.modified }
    }
}

impl Shown {
    /// An image has pixels.
    pub open spec fn wf(self) -> bool {
        self.image matches Ok(image) ==> loadable(image)
    }

    /// What is shown of the file at `path`.
    pub fn new(path: FilePath, image: Result<RgbaImage, String>, modified: Option<Timestamp>) -> (r:
        Shown)
        requires
            image matches Ok(i) ==> loadable(i),
        ensures
            r.wf(),
            r@ == (Sight { path: path@, image: outcome_of(image), modified }),
    {
        Shown { path, image, modified }
    }
}

/// The state of the window.
#[verifier::ext_equal]
pub ghost struct State {
    pub atoms: Atoms,
    pub font: Option<FontMetrics>,
    pub keymap: Keymap,
    pub dir: Seq<Seq<u8>>,
    pub entries: Seq<Seq<Seq<u8>>>,
    pub index: nat,
    pub shown: Option<Sight>,
    pub picture: Option<Picture>,
    pub size: (u16, u16),
    pub title: Seq<char>,
    pub dirty: bool,
}

impl View for Ui {
    type V = State;

    open(crate) spec fn view(&self) -> State {
        State {
            atoms: self.atoms,
            font: self.font,
            keymap: self.keymap,
            dir: self.dir@,
            entries: paths_of(self.entries@),
            index: self.index as nat,
            shown: match self.shown {
                Some(shown) => Some(shown@),
                None => None,
            },
            picture: self.picture,
            size: self.size,
            title: self.title@,
            dirty: self.dirty,
        }
    }
}

impl Ui {
    /// An entry is selected if there is one, and a decoded image has pixels.
    pub open(crate) spec fn wf(self) -> bool {
        &&& self@.has_selection()
        &&& self.shown matches Some(shown) ==> shown.wf()
    }
}

impl State {
    /// The selected entry is one of the list, unless the list is empty.
    pub open spec fn has_selection(self) -> bool {
        self.index < self.entries.len() || (self.index == 0 && self.entries.len() == 0)
    }

    /// The path of the selected entry.
    pub open spec fn selected(self) -> Option<Seq<Seq<u8>>> {
        if self.index < self.entries.len() {
            Some(self.entries[self.index as int])
        } else {
            None
        }
    }

    /// The number of the last entry, or zero if there is none.
    pub open spec fn last_index(self) -> nat {
        if self.entries.len() == 0 {
            0
        } else {
            (self.entries.len() - 1) as nat
        }
    }

    /// After images were listed that are already there: the last of them is selected.
    pub open spec fn list(self, entries: Seq<Seq<Seq<u8>>>) -> State {
        let listed = State { entries, ..self };
        State { index: listed.last_index(), ..listed }
    }

    /// After selecting entry `index`, or the last one if there are fewer. A new selection has to be
    /// drawn.
    pub open spec fn select(self, index: nat) -> State {
        let index = if index < self.last_index() {
            index
        } else {
            self.last_index()
        };
        if index == self.index {
            self
        } else {
            State { index, dirty: true, ..self }
        }
    }
}

impl Ui {
    /// A window that shows nothing yet.
    pub fn new(
        atoms: Atoms,
        font: Option<FontMetrics>,
        keymap: Keymap,
        dir: FilePath,
        size: (u16, u16),
    ) -> (r: Ui)
        ensures
            r.wf(),
            r@ == (State {
                atoms,
                font,
                keymap,
                dir: dir@,
                entries: Seq::empty(),
                index: 0,
                shown: None,
                picture: None,
                size,
                title: Seq::empty(),
                dirty: true,
            }),
    {
        let r = Ui {
            atoms,
            font,
            keymap,
            dir,
            entries: Vec::new(),
            index: 0,
            shown: None,
            picture: None,
            size,
            title: String::new(),
            dirty: true,
        };
        assert(paths_of(r.entries@) =~= Seq::empty());
        r
    }

    /// Lists images that are already there, and selects the last of them.
    pub fn list_existing(&mut self, entries: Vec<FilePath>)
        requires
            old(self).wf(),
        ensures
            final(self).wf(),
            final(self)@ == (State {
                entries: paths_of(entries@),
                index: (State { entries: paths_of(entries@), ..old(self)@ }).last_index(),
                ..old(self)@
            }),
            final(self)@ == old(self)@.list(paths_of(entries@)),
    {
        self.index = entries.len().saturating_sub(1);
        self.entries = entries;
    }

    /// Selects entry `index`, or the last one if there are fewer.
    pub fn select(&mut self, index: usize)
        requires
            old(self).wf(),
        ensures
            final(self).wf(),
            final(self)@ == old(self)@.select(index as nat),
    {
        let last: usize = self.entries.len().saturating_sub(1);
        let index: usize = if index < last {
            index
        } else {
            last
        };
        if index != self.index {
            self.index = index;
            self.dirty = true;
        }
    }

    /// The images, least recently created or modified first.
    pub fn entries(&self) -> (r: &Vec<FilePath>)
        ensures
            paths_of(r@) == self@.entries,
    {
        &self.entries
    }

    /// The number of the selected image.
    pub fn index(&self) -> (r: usize)
        ensures
            r == self@.index,
    {
        self.index
    }

    /// What is shown.
    pub fn shown(&self) -> (r: Option<&Shown>)
        ensures
            self@.shown == (match r {
                Some(shown) => Some(shown@),
                None => None,
            }),
    {
        self.shown.as_ref()
    }

    /// The picture on the X server.
    pub fn picture(&self) -> (r: Option<Picture>)
        ensures
            r == self@.picture,
    {
        self.picture
    }

    /// The size of the window.
    pub fn size(&self) -> (r: (u16, u16))
        ensures
            r == self@.size,
    {
        self.size
    }

    /// Whether the window has to be drawn, which is then up to the caller.
    pub fn take_dirty(&mut self) -> (r: bool)
        requires
            old(self).wf(),
        ensures
            final(self).wf(),
            r == old(self)@.dirty,
            final(self)@ == (State { dirty: false, ..old(self)@ }),
    {
        let r = self.dirty;
        self.dirty = false;
        r
    }

    /// Follows a new keyboard layout.
    pub fn set_keymap(&mut self, keymap: Keymap)
        requires
            old(self).wf(),
        ensures
            final(self).wf(),
            final(self)@ == (State { keymap, ..old(self)@ }),
    {
        self.keymap = keymap;
    }
}

/// What the X server tells.
#[derive(Clone, Copy, Debug)]
pub enum Event {
    /// A part of the window has to be drawn; `count` more such events follow.
    Expose { count: u16 },
    /// The window has this size.
    Configure { width: u16, height: u16 },
    /// A key was pressed.
    KeyPress { keycode: u8 },
    /// The keyboard, or something else, was given a new layout.
    MappingNotify { request: u8 },
    /// A message of this type, which starts with `data`.
    ClientMessage { type_: u32, data: u32 },
    /// A request failed.
    Error,
    /// Something else.
    Other,
}

/// What to do about an event, besides what the window remembers.
#[derive(Clone, Copy, Debug, PartialEq, Eq, Structural)]
pub enum Next {
    /// Go on.
    Continue,
    /// Ask for the keyboard layout and go on.
    FetchKeymap,
    /// Report the error and go on.
    ReportError,
    /// Close the window.
    Quit,
}

/// The layout of the keyboard, rather than that of the mouse or of the modifiers, is new.
pub const MAPPING_KEYBOARD: u8 = 1;

impl State {
    /// After the key with this keysym was pressed.
    pub open spec fn key(self, keysym: u32) -> (State, Next) {
        if keysym == XK_LEFT {
            (
                self.select(
                    if self.index == 0 {
                        0
                    } else {
                        (self.index - 1) as nat
                    },
                ),
                Next::Continue,
            )
        } else if keysym == XK_RIGHT {
            (self.select(self.index + 1), Next::Continue)
        } else if keysym == XK_HOME {
            (self.select(0), Next::Continue)
        } else if keysym == XK_END {
            (self.select(self.last_index()), Next::Continue)
        } else if keysym == XK_ESCAPE || keysym == XK_Q {
            (self, Next::Quit)
        } else {
            (self, Next::Continue)
        }
    }

    /// After `event`.
    pub open spec fn handle(self, event: Event) -> (State, Next) {
        match event {
            Event::Expose { count } => (
                State { dirty: self.dirty || count == 0, ..self },
                Next::Continue,
            ),
            Event::Configure { width, height } => if (width, height) == self.size {
                (self, Next::Continue)
            } else {
                (State { size: (width, height), dirty: true, ..self }, Next::Continue)
            },
            Event::KeyPress { keycode } => self.key(self.keymap.keysym_of(keycode)),
            Event::MappingNotify { request } => if request == MAPPING_KEYBOARD {
                (self, Next::FetchKeymap)
            } else {
                (self, Next::Continue)
            },
            Event::ClientMessage { type_, data } => if type_ == self.atoms.wm_protocols && data
                == self.atoms.wm_delete_window {
                (self, Next::Quit)
            } else {
                (self, Next::Continue)
            },
            Event::Error => (self, Next::ReportError),
            Event::Other => (self, Next::Continue),
        }
    }
}

impl Ui {
    /// Takes note of an event, and says what else to do about it.
    pub fn handle(&mut self, event: Event) -> (next: Next)
        requires
            old(self).wf(),
        ensures
            final(self).wf(),
            (final(self)@, next) == old(self)@.handle(event),
    {
        match event {
            Event::Expose { count } => {
                if count == 0 {
                    self.dirty = true;
                }
                Next::Continue
            },
            Event::Configure { width, height } => {
                if width != self.size.0 || height != self.size.1 {
                    self.size = (width, height);
                    self.dirty = true;
                }
                Next::Continue
            },
            Event::KeyPress { keycode } => {
                let keysym: u32 = self.keymap.keysym(keycode);
                assert(self@.entries.len() == self.entries.len());
                if keysym == XK_LEFT {
                    self.select(self.index.saturating_sub(1));
                } else if keysym == XK_RIGHT {
                    self.select(self.index + 1);
                } else if keysym == XK_HOME {
                    self.select(0);
                } else if keysym == XK_END {
                    self.select(usize::MAX);
                } else if keysym == XK_ESCAPE || keysym == XK_Q {
                    return Next::Quit;
                }
                Next::Continue
            },
            Event::MappingNotify { request } => if request == MAPPING_KEYBOARD {
                Next::FetchKeymap
            } else {
                Next::Continue
            },
            Event::ClientMessage { type_, data } => if type_ == self.atoms.wm_protocols && data
                == self.atoms.wm_delete_window {
                Next::Quit
            } else {
                Next::Continue
            },
            Event::Error => Next::ReportError,
            Event::Other => Next::Continue,
        }
    }
}

/// `entries` without those that are `path`, in the same order.
pub open spec fn without(entries: Seq<Seq<Seq<u8>>>, path: Seq<Seq<u8>>) -> Seq<Seq<Seq<u8>>>
    decreases entries.len(),
{
    if entries.len() == 0 {
        Seq::empty()
    } else if entries.last() == path {
        without(entries.drop_last(), path)
    } else {
        without(entries.drop_last(), path).push(entries.last())
    }
}

/// The number of the first of `entries` that is `path`.
pub open spec fn first_index(entries: Seq<Seq<Seq<u8>>>, path: Seq<Seq<u8>>) -> Option<int>
    decreases entries.len(),
{
    if entries.len() == 0 {
        None
    } else {
        match first_index(entries.drop_last(), path) {
            Some(i) => Some(i),
            None => if entries.last() == path {
                Some(entries.len() - 1)
            } else {
                None
            },
        }
    }
}

impl State {
    /// After something else, or nothing, is shown: the picture of what was shown is gone.
    pub open spec fn show(self, shown: Option<Sight>) -> State {
        State { shown, picture: None, ..self }
    }

    /// After an image was created or modified: it moves to the end, and is selected and shown.
    pub open spec fn loaded(self, sight: Sight) -> State {
        let entries = without(self.entries, sight.path).push(sight.path);
        State { entries, index: (entries.len() - 1) as nat, dirty: true, ..self.show(Some(sight)) }
    }

    /// After the file at `path` was removed. The selection stays where it was, unless that was the
    /// last entry.
    pub open spec fn removed(self, path: Seq<Seq<u8>>) -> State {
        match first_index(self.entries, path) {
            Some(i) => {
                let entries = self.entries.remove(i);
                let index = if i < self.index || self.index == entries.len() {
                    if self.index == 0 {
                        0
                    } else {
                        (self.index - 1) as nat
                    }
                } else {
                    self.index
                };
                State { entries, index, dirty: true, ..self }
            },
            None => State { dirty: true, ..self },
        }
    }
}

/// The number of the picture, if there is one.
pub open spec fn picture_id(picture: Option<Picture>) -> Option<u32> {
    match picture {
        Some(picture) => Some(picture.id),
        None => None,
    }
}

/// The image that came with an update has pixels.
pub open spec fn usable(update: Update) -> bool {
    update matches Update::Loaded { image, .. } ==> loadable(image)
}

/// Removes `path` from `entries` wherever it occurs.
fn remove_all(entries: &mut Vec<FilePath>, path: &FilePath)
    ensures
        paths_of(final(entries)@) == without(paths_of(old(entries)@), path@),
{
    let ghost all = paths_of(entries@);
    let mut kept: usize = 0;
    let ghost mut seen: int = 0;
    assert(all.take(0) =~= Seq::empty());
    assert(paths_of(entries@).take(0) =~= Seq::empty());
    while kept < entries.len()
        invariant
            all == paths_of(old(entries)@),
            kept <= entries@.len(),
            0 <= seen <= all.len(),
            all.len() - seen == entries@.len() - kept,
            paths_of(entries@).take(kept as int) == without(all.take(seen), path@),
            paths_of(entries@).skip(kept as int) == all.skip(seen),
        decreases entries@.len() - kept,
    {
        let ghost before = paths_of(entries@);
        proof {
            assert(before.skip(kept as int)[0] == all.skip(seen)[0]);
            assert(before[kept as int] == all[seen]);
            assert(all.take(seen + 1).drop_last() =~= all.take(seen));
            assert(all.take(seen + 1).last() == all[seen]);
            assert(before.skip(kept as int).skip(1) =~= before.skip(kept + 1));
            assert(all.skip(seen).skip(1) =~= all.skip(seen + 1));
        }
        if entries[kept].same(path) {
            entries.remove(kept);
            proof {
                let after = paths_of(entries@);
                assert(after =~= before.remove(kept as int));
                assert(after.take(kept as int) =~= before.take(kept as int));
                assert(after.skip(kept as int) =~= before.skip(kept + 1));
            }
        } else {
            assert(before.take(kept + 1) =~= before.take(kept as int).push(before[kept as int]));
            kept = kept + 1;
        }
        proof {
            seen = seen + 1;
        }
    }
    assert(all.take(seen) =~= all);
    assert(paths_of(entries@).take(kept as int) =~= paths_of(entries@));
}

/// The number of the first of `entries` that is `path`.
fn find(entries: &Vec<FilePath>, path: &FilePath) -> (r: Option<usize>)
    ensures
        first_index(paths_of(entries@), path@) == (match r {
            Some(i) => Some(i as int),
            None => None,
        }),
        r matches Some(i) ==> i < entries@.len(),
{
    let ghost all = paths_of(entries@);
    let mut i: usize = 0;
    assert(all.take(0) =~= Seq::empty());
    while i < entries.len()
        invariant
            all == paths_of(entries@),
            i <= entries@.len(),
            first_index(all.take(i as int), path@) is None,
        decreases entries@.len() - i,
    {
        proof {
            assert(all.take(i + 1).drop_last() =~= all.take(i as int));
            assert(all.take(i + 1).last() == entries@[i as int]@);
        }
        if entries[i].same(path) {
            proof {
                lemma_first_index_stays(all, path@, i + 1);
            }
            return Some(i);
        }
        i = i + 1;
    }
    assert(all.take(i as int) =~= all);
    None
}

proof fn lemma_first_index_stays(entries: Seq<Seq<Seq<u8>>>, path: Seq<Seq<u8>>, n: int)
    requires
        0 <= n <= entries.len(),
        first_index(entries.take(n), path) is Some,
    ensures
        first_index(entries, path) == first_index(entries.take(n), path),
    decreases entries.len() - n,
{
    if n < entries.len() {
        assert(entries.take(n + 1).drop_last() =~= entries.take(n));
        lemma_first_index_stays(entries, path, n + 1);
    } else {
        assert(entries.take(n) =~= entries);
    }
}

impl Ui {
    /// Forgets the picture on the X server, which is the result: it is no longer needed.
    pub fn drop_picture(&mut self) -> (unused: Option<u32>)
        requires
            old(self).wf(),
        ensures
            final(self).wf(),
            final(self)@ == (State { picture: None, ..old(self)@ }),
            unused == picture_id(old(self)@.picture),
    {
        let picture = self.picture;
        self.picture = None;
        match picture {
            Some(picture) => Some(picture.id),
            None => None,
        }
    }

    /// Shows something else, or nothing. The result is the picture on the X server that is no longer
    /// needed.
    pub fn set_shown(&mut self, shown: Option<Shown>) -> (unused: Option<u32>)
        requires
            old(self).wf(),
            shown matches Some(s) ==> s.wf(),
        ensures
            final(self).wf(),
            final(self)@ == old(self)@.show(
                match shown {
                    Some(shown) => Some(shown@),
                    None => None,
                },
            ),
            unused == picture_id(old(self)@.picture),
    {
        self.shown = shown;
        self.drop_picture()
    }

    /// Takes note of news about a file, which was `modified` at this time. The result is the picture
    /// on the X server that is no longer needed.
    pub fn apply(&mut self, update: Update, modified: Option<Timestamp>) -> (unused: Option<u32>)
        requires
            old(self).wf(),
            usable(update),
        ensures
            final(self).wf(),
            match update {
                Update::Loaded { path, image } => {
                    &&& final(self)@ == old(self)@.loaded(
                        Sight { path: path@, image: outcome_of(Ok(image)), modified },
                    )
                    &&& unused == picture_id(old(self)@.picture)
                },
                Update::Removed(path) => {
                    &&& final(self)@ == old(self)@.removed(path@)
                    &&& unused is None
                },
            },
    {
        match update {
            Update::Loaded { path, image } => {
                // A modified file counts as new, so it moves to the end.
                remove_all(&mut self.entries, &path);
                let ghost kept = paths_of(self.entries@);
                self.entries.push(path.copy());
                assert(paths_of(self.entries@) =~= kept.push(path@));
                self.index = self.entries.len() - 1;
                self.dirty = true;
                self.set_shown(Some(Shown::new(path, Ok(image), modified)))
            },
            Update::Removed(path) => {
                if let Some(i) = find(&self.entries, &path) {
                    let ghost before = paths_of(self.entries@);
                    self.entries.remove(i);
                    assert(paths_of(self.entries@) =~= before.remove(i as int));
                    if i < self.index || self.index == self.entries.len() {
                        self.index = self.index.saturating_sub(1);
                    }
                }
                self.dirty = true;
                None
            },
        }
    }
}

/// What has to be done about the image that is shown.
pub enum Refresh {
    /// It is the selected one.
    Keep,
    /// There is none to show.
    Clear,
    /// This one has to be loaded.
    Load(FilePath),
}

/// A picture to put on the X server.
pub struct Upload {
    pub size: (u16, u16),
    pub data: Vec<u8>,
}

/// A change of the picture on the X server.
pub struct Replacement {
    /// The picture that is no longer needed.
    pub unused: Option<u32>,
    /// The picture that is needed.
    pub upload: Option<Upload>,
}

/// What has to be done about the image that is shown.
pub ghost enum Need {
    Keep,
    Clear,
    Load(Seq<Seq<u8>>),
}

impl View for Refresh {
    type V = Need;

    open spec fn view(&self) -> Need {
        match self {
            Refresh::Keep => Need::Keep,
            Refresh::Clear => Need::Clear,
            Refresh::Load(path) => Need::Load(path@),
        }
    }
}

impl State {
    /// What has to be done so that the selected image is shown.
    pub open spec fn need(self) -> Need {
        if self.shown_path() == self.selected() {
            Need::Keep
        } else {
            match self.selected() {
                Some(path) => Need::Load(path),
                None => Need::Clear,
            }
        }
    }

    pub open spec fn shown_path(self) -> Option<Seq<Seq<u8>>> {
        match self.shown {
            Some(sight) => Some(sight.path),
            None => None,
        }
    }

    /// The size that the picture of what is shown has to have.
    pub open spec fn target(self) -> Option<(u16, u16)> {
        match self.shown {
            Some(Sight { image: Ok((width, height, _)), .. }) => {
                let size = fitted((width, height), self.size);
                Some((size.0 as u16, size.1 as u16))
            },
            _ => None,
        }
    }

    pub open spec fn picture_size(self) -> Option<(u16, u16)> {
        match self.picture {
            Some(picture) => Some(picture.size),
            None => None,
        }
    }

    /// What is shown can be scaled to the size that it has to have.
    pub open spec fn can_scale(self) -> bool {
        match self.shown {
            Some(Sight { image: Ok((width, height, _)), .. }) => can_show(
                (width, height),
                self.target()->0,
            ),
            _ => true,
        }
    }

    /// The image data of what is shown, at the size that it has to have.
    pub open spec fn data(self) -> Seq<u8> {
        match self.shown {
            Some(Sight { image: Ok((width, height, pixels)), .. }) => image_data(
                pixels_at((width, height), pixels, self.target()->0),
                BACKGROUND,
            ),
            _ => Seq::empty(),
        }
    }
}

impl Ui {
    /// What has to be done so that the selected image is shown.
    pub fn refresh(&self) -> (r: Refresh)
        requires
            self.wf(),
        ensures
            if self@.shown_path() == self@.selected() {
                r is Keep
            } else {
                match self@.selected() {
                    Some(path) => r matches Refresh::Load(p) && p@ == path,
                    None => r is Clear,
                }
            },
            r@ == self@.need(),
    {
        if self.index < self.entries.len() {
            let selected = &self.entries[self.index];
            assert(self@.selected() == Some(selected@));
            match &self.shown {
                Some(shown) => if shown.path.same(selected) {
                    Refresh::Keep
                } else {
                    Refresh::Load(selected.copy())
                },
                None => Refresh::Load(selected.copy()),
            }
        } else {
            match &self.shown {
                Some(_) => Refresh::Clear,
                None => Refresh::Keep,
            }
        }
    }

    /// The size that the picture of what is shown has to have.
    pub fn target_size(&self) -> (r: Option<(u16, u16)>)
        requires
            self.wf(),
        ensures
            r == self@.target(),
    {
        match &self.shown {
            Some(shown) => match &shown.image {
                Ok(image) => Some(fit((image.width, image.height), self.size)),
                Err(_) => None,
            },
            None => None,
        }
    }

    /// Whether what is shown can be scaled to fit the window.
    pub fn is_scalable(&self) -> (r: bool)
        requires
            self.wf(),
        ensures
            r == self@.can_scale(),
    {
        match &self.shown {
            Some(shown) => match &shown.image {
                Ok(image) => {
                    let size = fit((image.width, image.height), self.size);
                    shows_at((image.width, image.height), size)
                },
                Err(_) => true,
            },
            None => true,
        }
    }

    /// Forgets the picture on the X server if it has not the size that it has to have, and says what
    /// to put in its place.
    pub fn replace_picture(&mut self) -> (r: Replacement)
        requires
            old(self).wf(),
            old(self)@.can_scale(),
        ensures
            final(self).wf(),
            if old(self)@.picture_size() == old(self)@.target() {
                &&& final(self)@ == old(self)@
                &&& r.unused is None
                &&& r.upload is None
            } else {
                &&& final(self)@ == (State { picture: None, ..old(self)@ })
                &&& r.unused == picture_id(old(self)@.picture)
                &&& match old(self)@.target() {
                    Some(size) => r.upload matches Some(upload) && upload.size == size
                        && upload.data@ == old(self)@.data() && upload.data@.len() == 4 * size.0
                        * size.1,
                    None => r.upload is None,
                }
            },
            match r.upload {
                Some(upload) => final(self)@.picture is None && final(self)@.target() == Some(
                    upload.size,
                ),
                None => final(self)@.picture_size() == final(self)@.target(),
            },
    {
        let target = self.target_size();
        let same = match (&self.picture, &target) {
            (Some(picture), Some(size)) => picture.size.0 == size.0 && picture.size.1 == size.1,
            (None, None) => true,
            _ => false,
        };
        if same {
            return Replacement { unused: None, upload: None };
        }
        let unused = self.drop_picture();
        let upload = match (&self.shown, target) {
            (Some(shown), Some(size)) => match &shown.image {
                Ok(image) => Some(Upload { size, data: upload_data(image, size) }),
                Err(_) => None,
            },
            _ => None,
        };
        Replacement { unused, upload }
    }

    /// Takes note of a picture that is now on the X server.
    pub fn set_picture(&mut self, picture: Picture)
        requires
            old(self).wf(),
        ensures
            final(self).wf(),
            final(self)@ == (State { picture: Some(picture), ..old(self)@ }),
    {
        self.picture = Some(picture);
    }
}

/// The selection stays within the list, whatever happens.
pub proof fn selection_is_kept(state: State, event: Event, sight: Sight, path: Seq<Seq<u8>>)
    requires
        state.has_selection(),
    ensures
        state.handle(event).0.has_selection(),
        state.loaded(sight).has_selection(),
        state.removed(path).has_selection(),
{
    lemma_first_index(state.entries, path);
}

/// Whatever changes what the window shows marks it to be drawn.
pub proof fn changes_are_drawn(state: State, event: Event, sight: Sight, path: Seq<Seq<u8>>)
    ensures
        state.handle(event).0 == state || state.handle(event).0.dirty,
        state.loaded(sight).dirty,
        state.removed(path).dirty,
{
}

/// The arrow keys go back and forth by one image, and stop at the ends. Home and End go there.
pub proof fn keys_navigate(state: State)
    requires
        state.has_selection(),
    ensures
        state.index > 0 ==> state.key(XK_LEFT).0.index == state.index - 1,
        state.index == 0 ==> state.key(XK_LEFT).0 == state,
        state.index < state.last_index() ==> state.key(XK_RIGHT).0.index == state.index + 1,
        state.index == state.last_index() ==> state.key(XK_RIGHT).0 == state,
        state.key(XK_HOME).0.index == 0,
        state.key(XK_END).0.index == state.last_index(),
        state.index > 0 ==> state.key(XK_LEFT).0.key(XK_RIGHT).0.index == state.index,
        state.index < state.last_index() ==> state.key(XK_RIGHT).0.key(XK_LEFT).0.index
            == state.index,
{
}

/// The window closes for Escape, for Q, and if it is asked to, and for nothing else.
pub proof fn what_closes_the_window(state: State, event: Event)
    ensures
        state.handle(event).1 == Next::Quit <==> match event {
            Event::KeyPress { keycode } => {
                let keysym = state.keymap.keysym_of(keycode);
                keysym == XK_ESCAPE || keysym == XK_Q
            },
            Event::ClientMessage { type_, data } => type_ == state.atoms.wm_protocols && data
                == state.atoms.wm_delete_window,
            _ => false,
        },
{
}

/// An image that was created or modified is the latest one, and the one that is selected and shown.
/// It is in the list once.
pub proof fn loaded_image_is_latest(state: State, sight: Sight)
    ensures
        ({
            let after = state.loaded(sight);
            &&& after.index == after.last_index()
            &&& after.selected() == Some(sight.path)
            &&& after.shown_path() == after.selected()
            &&& forall|i: int|
                0 <= i < after.entries.len() && #[trigger] after.entries[i] == sight.path ==> i
                    == after.index
        }),
{
    lemma_without(state.entries, sight.path);
}

/// The other images stay in the list, as often as before and in the same order.
pub proof fn other_images_stay(state: State, sight: Sight, other: Seq<Seq<u8>>)
    requires
        other != sight.path,
    ensures
        state.loaded(sight).entries.drop_last() == state.entries.filter(
            |path: Seq<Seq<u8>>| path != sight.path,
        ),
        state.loaded(sight).entries.contains(other) <==> state.entries.contains(other),
{
    let entries = without(state.entries, sight.path);
    let after = state.loaded(sight).entries;
    assert(after.drop_last() =~= entries);
    lemma_without(state.entries, sight.path);
    lemma_without_filter(state.entries, sight.path);
    if entries.contains(other) {
        let i: int = choose|i: int| 0 <= i < entries.len() && entries[i] == other;
        assert(after[i] == other);
    }
    if after.contains(other) {
        let i: int = choose|i: int| 0 <= i < after.len() && after[i] == other;
        assert(entries[i] == other);
    }
}

proof fn lemma_without(entries: Seq<Seq<Seq<u8>>>, path: Seq<Seq<u8>>)
    ensures
        !without(entries, path).contains(path),
        forall|other: Seq<Seq<u8>>|
            other != path ==> (#[trigger] without(entries, path).contains(other)
                <==> entries.contains(other)),
    decreases entries.len(),
{
    if entries.len() > 0 {
        let init = entries.drop_last();
        let rest = without(init, path);
        let all = without(entries, path);
        lemma_without(init, path);
        assert forall|other: Seq<Seq<u8>>|
            #![trigger all.contains(other)]
            #![trigger entries.contains(other)]
            {
                &&& entries.contains(other) <==> init.contains(other) || other == entries.last()
                &&& all.contains(other) <==> rest.contains(other) || (entries.last() != path
                    && other == entries.last())
            } by {
            assert(entries =~= init.push(entries.last()));
            if init.contains(other) {
                let i: int = choose|i: int| 0 <= i < init.len() && init[i] == other;
                assert(entries[i] == other);
            }
            if other == entries.last() {
                assert(entries[entries.len() - 1] == other);
            }
            if entries.contains(other) && other != entries.last() {
                let i: int = choose|i: int| 0 <= i < entries.len() && entries[i] == other;
                assert(init[i] == other);
            }
            if entries.last() != path {
                if rest.contains(other) {
                    let i: int = choose|i: int| 0 <= i < rest.len() && rest[i] == other;
                    assert(all[i] == other);
                }
                if other == entries.last() {
                    assert(all[rest.len() as int] == other);
                }
                if all.contains(other) && other != entries.last() {
                    let i: int = choose|i: int| 0 <= i < all.len() && all[i] == other;
                    assert(rest[i] == other);
                }
            }
        }
        assert(!all.contains(path));
        assert forall|other: Seq<Seq<u8>>| other != path implies (#[trigger] all.contains(other)
            <==> entries.contains(other)) by {
            assert(rest.contains(other) <==> init.contains(other));
        }
    }
}

proof fn lemma_without_filter(entries: Seq<Seq<Seq<u8>>>, path: Seq<Seq<u8>>)
    ensures
        without(entries, path) == entries.filter(|p: Seq<Seq<u8>>| p != path),
    decreases entries.len(),
{
    reveal(Seq::filter);
    if entries.len() > 0 {
        lemma_without_filter(entries.drop_last(), path);
    }
}

proof fn lemma_first_index(entries: Seq<Seq<Seq<u8>>>, path: Seq<Seq<u8>>)
    ensures
        match first_index(entries, path) {
            Some(i) => 0 <= i < entries.len() && entries[i] == path,
            None => !entries.contains(path),
        },
    decreases entries.len(),
{
    if entries.len() > 0 {
        lemma_first_index(entries.drop_last(), path);
        if first_index(entries, path) is None && entries.contains(path) {
            let i: int = choose|i: int| 0 <= i < entries.len() && entries[i] == path;
            if i < entries.len() - 1 {
                assert(entries.drop_last()[i] == path);
            }
        }
    }
}

/// When a file is removed that is not the selected one, the same image stays selected.
pub proof fn removal_keeps_the_selection(state: State, path: Seq<Seq<u8>>)
    requires
        state.has_selection(),
        state.selected() != Some(path),
    ensures
        state.removed(path).selected() == state.selected(),
{
    lemma_first_index(state.entries, path);
}

/// When the selected file is removed, the next one is selected, or the previous one if it was the
/// last. The list has no file twice, and so it is not in the list any more.
pub proof fn removal_of_the_selected(state: State, path: Seq<Seq<u8>>)
    requires
        state.has_selection(),
        state.entries.no_duplicates(),
        state.selected() == Some(path),
    ensures
        !state.removed(path).entries.contains(path),
        state.removed(path).selected() == if state.index + 1 < state.entries.len() {
            Some(state.entries[state.index as int + 1])
        } else if state.index > 0 {
            Some(state.entries[state.index - 1])
        } else {
            None
        },
{
    lemma_first_index(state.entries, path);
    assert(state.entries[state.index as int] == path);
    assert(state.entries.contains(path));
    let i: int = first_index(state.entries, path)->0;
    assert(i == state.index);
    let after = state.removed(path).entries;
    if after.contains(path) {
        let j: int = choose|j: int| 0 <= j < after.len() && after[j] == path;
        let k: int = if j < i {
            j
        } else {
            j + 1
        };
        assert(state.entries[k] == path);
    }
}

/// A list without duplicates stays one.
pub proof fn entries_stay_distinct(state: State, sight: Sight, path: Seq<Seq<u8>>)
    requires
        state.entries.no_duplicates(),
    ensures
        state.loaded(sight).entries.no_duplicates(),
        state.removed(path).entries.no_duplicates(),
{
    lemma_without(state.entries, sight.path);
    lemma_without_distinct(state.entries, sight.path);
    lemma_first_index(state.entries, path);
    let kept = without(state.entries, sight.path);
    let after = state.loaded(sight).entries;
    assert forall|i: int, j: int| 0 <= i < after.len() && 0 <= j < after.len() && i != j implies
        after[i] != after[j] by {
        if i < kept.len() && j < kept.len() {
            assert(kept[i] != kept[j]);
        } else {
            let k: int = if i < kept.len() {
                i
            } else {
                j
            };
            assert(kept.contains(kept[k]));
        }
    }
    if first_index(state.entries, path) is Some {
        let i: int = first_index(state.entries, path)->0;
        let rest = state.entries.remove(i);
        assert forall|j: int, k: int| 0 <= j < rest.len() && 0 <= k < rest.len() && j != k implies
            rest[j] != rest[k] by {
            let p: int = if j < i {
                j
            } else {
                j + 1
            };
            let q: int = if k < i {
                k
            } else {
                k + 1
            };
            assert(state.entries[p] != state.entries[q]);
        }
    }
}

proof fn lemma_without_distinct(entries: Seq<Seq<Seq<u8>>>, path: Seq<Seq<u8>>)
    requires
        entries.no_duplicates(),
    ensures
        without(entries, path).no_duplicates(),
    decreases entries.len(),
{
    if entries.len() > 0 {
        let init = entries.drop_last();
        let rest = without(init, path);
        assert(init.no_duplicates()) by {
            assert forall|i: int, j: int|
                0 <= i < init.len() && 0 <= j < init.len() && i != j implies init[i] != init[j] by {
                assert(entries[i] != entries[j]);
            }
        }
        lemma_without_distinct(init, path);
        lemma_without(init, path);
        let all = without(entries, path);
        if entries.last() != path {
            assert(!init.contains(entries.last())) by {
                if init.contains(entries.last()) {
                    let i: int = choose|i: int| 0 <= i < init.len() && init[i] == entries.last();
                    assert(entries[i] != entries[entries.len() - 1]);
                }
            }
            assert(!rest.contains(entries.last()));
            assert forall|i: int, j: int|
                0 <= i < all.len() && 0 <= j < all.len() && i != j implies all[i] != all[j] by {
                if i < rest.len() && j < rest.len() {
                    assert(rest[i] != rest[j]);
                } else {
                    let k: int = if i < rest.len() {
                        i
                    } else {
                        j
                    };
                    assert(rest.contains(rest[k]));
                }
            }
        }
    }
}

/// The picture of an image with pixels fits in the window, is not larger than the image, and can be
/// made unless it is so much smaller that a pixel of it stands for millions, or too large for memory.
pub proof fn pictures_fit(state: State, width: u32, height: u32)
    requires
        width > 0,
        height > 0,
        state.shown matches Some(sight) && sight.image matches Ok((w, h, _)) && w == width && h
            == height,
    ensures
        ({
            let room = crate::scale::usable(state.size);
            let target = state.target()->0;
            &&& state.target() is Some
            &&& 1 <= target.0 <= room.0
            &&& 1 <= target.1 <= room.1
            &&& target.0 <= width
            &&& target.1 <= height
            &&& state.can_scale() <==> (target.0 == width && target.1 == height)
                || crate::pixels::can_resize((width, height), target)
        }),
{
    fit_fits((width, height), state.size);
    fit_never_enlarges((width, height), state.size);
}

/// Once the selected image is shown and its picture is on the X server, there is nothing left to do.
pub proof fn rendering_settles(state: State, sight: Sight, id: u32)
    requires
        state.selected() == Some(sight.path),
    ensures
        ({
            let shown = state.show(Some(sight));
            let done = match shown.target() {
                Some(size) => State { picture: Some(Picture { id, size }), ..shown },
                None => shown,
            };
            done.shown_path() == done.selected() && done.picture_size() == done.target()
        }),
{
}

/// Every image that is created in the directory gets shown: once it has settled it is due, and when it
/// has been loaded it is the one that is selected and shown, and it is not loaded again.
pub proof fn created_images_are_shown(
    pending: PendingMap,
    path: Seq<Seq<u8>>,
    exists: bool,
    now: u64,
    later: u64,
    state: State,
    sight: Sight,
)
    requires
        image_path(path),
        sight.path == path,
        now + SETTLE <= later <= LATEST,
    ensures
        ({
            let (created, _) = after_touch(
                pending,
                Seq::empty(),
                EventKind::Create,
                path,
                exists,
                now,
            );
            let loaded = after_attempt(created, path, true, later);
            &&& is_due(created, path, later)
            &&& !loaded.contains_key(path)
            &&& state.loaded(sight).selected() == Some(path)
            &&& state.loaded(sight).shown == Some(sight)
        }),
{
}

/// An event of this kind ends a modification of the file at `path`: it was moved into place, or closed
/// after it was written to.
pub open spec fn ends_modification(
    pending: PendingMap,
    kind: EventKind,
    path: Seq<Seq<u8>>,
    exists: bool,
) -> bool {
    match kind {
        EventKind::Modify(ModifyKind::Name) => exists,
        EventKind::Access(AccessKind::Close(AccessMode::Write)) => pending.contains_key(path),
        _ => false,
    }
}

/// Every image that is modified in the directory gets shown: one that is written to once it has
/// settled, and one that is moved into place, or closed after it was written to, at once. When it has
/// been loaded it is the one that is selected and shown, and it is not loaded again.
pub proof fn modified_images_are_shown(
    pending: PendingMap,
    kind: EventKind,
    path: Seq<Seq<u8>>,
    exists: bool,
    now: u64,
    later: u64,
    state: State,
    sight: Sight,
)
    requires
        image_path(path),
        sight.path == path,
        now <= later <= LATEST,
        ({
            ||| kind == EventKind::Modify(ModifyKind::Data) && now + SETTLE <= later
            ||| kind == EventKind::Modify(ModifyKind::Any) && now + SETTLE <= later
            ||| ends_modification(pending, kind, path, exists)
        }),
    ensures
        ({
            let (modified, _) = after_touch(pending, Seq::empty(), kind, path, exists, now);
            let loaded = after_attempt(modified, path, true, later);
            &&& is_due(modified, path, later)
            &&& !loaded.contains_key(path)
            &&& state.loaded(sight).selected() == Some(path)
            &&& state.loaded(sight).shown == Some(sight)
        }),
{
}

/// `r` is nearest to `p / q`, or one if that is nearest to zero.
pub open spec fn is_nearest(r: int, p: int, q: int) -> bool {
    -q <= 2 * (r * q - p) <= q || (r == 1 && 2 * p <= q)
}

/// The picture of an image that the window has room for has the size of the image. That of any other
/// has the aspect ratio of the image and fills the window in one direction: both sides are those of
/// the image times the smaller of the two ratios between the window and the image. A side of the
/// window that is empty counts as one pixel long. Without an image there is no picture.
pub proof fn pictures_keep_the_aspect_ratio(state: State)
    ensures
        match state.shown {
            Some(Sight { image: Ok((width, height, _)), .. }) => {
                let across: int = if state.size.0 == 0 {
                    1
                } else {
                    state.size.0 as int
                };
                let down: int = if state.size.1 == 0 {
                    1
                } else {
                    state.size.1 as int
                };
                let target = state.target()->0;
                let w: int = target.0 as int;
                let h: int = target.1 as int;
                &&& state.target() is Some
                &&& w == fitted((width, height), state.size).0
                &&& h == fitted((width, height), state.size).1
                &&& 1 <= w <= across
                &&& 1 <= h <= down
                &&& 0 < width <= across && 0 < height <= down ==> w == width && h == height
                &&& width > across || height > down ==> {
                    &&& across * height <= down * width ==> w == across && is_nearest(
                        h,
                        across * height,
                        width as int,
                    )
                    &&& across * height > down * width ==> h == down && is_nearest(
                        w,
                        down * width,
                        height as int,
                    )
                }
            },
            _ => state.target() is None && state.can_scale(),
        },
{
    if let Some(Sight { image: Ok((width, height, _)), .. }) = state.shown {
        let size = (width, height);
        let area = state.size;
        let room = crate::scale::usable(area);
        fit_fits(size, area);
        if 0 < width <= room.0 && 0 < height <= room.1 {
            crate::scale::fit_keeps_small_images(size, area);
        }
        if width > room.0 || height > room.1 {
            crate::scale::fit_keeps_aspect_ratio(size, area);
            let (w, h) = fitted(size, area);
            if room.0 * height <= room.1 * width {
                assert(room.0 * height == height * room.0) by (nonlinear_arith);
                assert(width > 0) by (nonlinear_arith)
                    requires
                        width > room.0 || height > room.1,
                        room.0 * height <= room.1 * width,
                        room.0 > 0,
                        width >= 0,
                        height >= 0,
                ;
                lemma_exactly(w, width as nat, room.0);
            } else {
                assert(room.1 * width == width * room.1) by (nonlinear_arith);
                assert(height > 0) by (nonlinear_arith)
                    requires
                        room.0 * height > room.1 * width,
                        width >= 0,
                        height >= 0,
                        room.1 >= 0,
                ;
                lemma_exactly(h, height as nat, room.1);
            }
        }
    }
}

/// A length times a ratio with itself below is what stands above.
proof fn lemma_exactly(r: nat, n: nat, a: nat)
    requires
        crate::scale::rounded(r, n * a, n),
        n > 0,
        a > 0,
    ensures
        r == a,
{
    assert(r == a) by (nonlinear_arith)
        requires
            crate::scale::rounded(r, n * a, n),
            -(n as int) <= 2 * (r * n - n * a) <= n || (r == 1 && 2 * (n * a) <= n),
            n > 0,
            a > 0,
    ;
}

/// The selected path is the entry that the index counts to. The last entry has the largest index.
pub proof fn selection_counts_from_zero(state: State)
    ensures
        state.index < state.entries.len() ==> state.selected() == Some(
            state.entries[state.index as int],
        ),
        state.index >= state.entries.len() ==> state.selected() is None,
        state.entries.len() > 0 ==> state.last_index() + 1 == state.entries.len(),
        state.entries.len() == 0 ==> state.last_index() == 0,
        state.has_selection() <==> state.index < state.entries.len() || (state.index == 0
            && state.entries.len() == 0),
{
}

/// `after` differs from `before` in what is selected, in size and in whether it has to be drawn, at
/// most.
pub open spec fn alike(before: State, after: State) -> bool {
    &&& after.atoms == before.atoms
    &&& after.font == before.font
    &&& after.keymap == before.keymap
    &&& after.dir == before.dir
    &&& after.entries == before.entries
    &&& after.shown == before.shown
    &&& after.picture == before.picture
    &&& after.title == before.title
}

/// Selecting an entry selects that one, or the last one if there are fewer, and nothing else changes.
/// The window has to be drawn if another entry is selected.
pub proof fn selecting_only_selects(state: State, index: nat)
    ensures
        ({
            let after = state.select(index);
            &&& alike(state, after)
            &&& after.size == state.size
            &&& after.index <= index
            &&& index < state.entries.len() ==> after.index == index
            &&& index >= state.entries.len() > 0 ==> after.index + 1 == state.entries.len()
            &&& state.entries.len() == 0 ==> after.index == 0
            &&& after.dirty == (state.dirty || after.index != state.index)
        }),
{
}

/// An event changes nothing but the selection, the size and whether the window has to be drawn. Only
/// keys change the selection, and only a new size the size. The window has to be drawn if one of them
/// has changed, or when the last of a series of exposures arrives.
pub proof fn events_change_little(state: State, event: Event)
    requires
        state.has_selection(),
    ensures
        ({
            let (after, _) = state.handle(event);
            &&& alike(state, after)
            &&& match event {
                Event::Configure { width, height } => after.size == (width, height),
                _ => after.size == state.size,
            }
            &&& after.index != state.index ==> event is KeyPress
            &&& after.dirty == (state.dirty || after.index != state.index || after.size
                != state.size || (event matches Event::Expose { count } && count == 0))
        }),
{
}

/// A key press moves the selection by one for the arrow keys, to an end for Home and End, and not at
/// all for any other key. The key is the one that the layout has for the keycode.
pub proof fn keys_select(state: State, keycode: u8)
    requires
        state.has_selection(),
    ensures
        ({
            let (after, _) = state.handle(Event::KeyPress { keycode });
            let key = state.keymap.keysym_of(keycode);
            let last = state.entries.len() - 1;
            &&& key == 0xff51 && state.index > 0 ==> after.index == state.index - 1
            &&& key == 0xff51 && state.index == 0 ==> after.index == 0
            &&& key == 0xff53 && state.index < last ==> after.index == state.index + 1
            &&& key == 0xff53 && state.index >= last ==> after.index == state.index
            &&& key == 0xff50 ==> after.index == 0
            &&& key == 0xff57 && last >= 0 ==> after.index == last
            &&& key != 0xff50 && key != 0xff51 && key != 0xff53 && key != 0xff57 ==> after.index
                == state.index
        }),
{
}

/// What is left to do about an event: the window closes for Escape, for Q and for a message that asks
/// for it, a new keyboard layout is asked for, an error is reported, and that is all.
pub proof fn events_ask_for_little(state: State, event: Event)
    ensures
        ({
            let next = state.handle(event).1;
            let closes = match event {
                Event::KeyPress { keycode } => state.keymap.keysym_of(keycode) == 0xff1b
                    || state.keymap.keysym_of(keycode) == 0x71,
                Event::ClientMessage { type_, data } => type_ == state.atoms.wm_protocols && data
                    == state.atoms.wm_delete_window,
                _ => false,
            };
            &&& next == Next::Quit <==> closes
            &&& next == Next::FetchKeymap <==> (event matches Event::MappingNotify { request }
                && request == 1)
            &&& next == Next::ReportError <==> event is Error
        }),
{
}

/// A loaded image comes last in the list, behind all others in their order. It is selected and shown,
/// and has no picture yet. The rest stays as it is.
pub proof fn loading_appends(state: State, sight: Sight)
    ensures
        ({
            let after = state.loaded(sight);
            let others = state.entries.filter(|path: Seq<Seq<u8>>| path != sight.path);
            &&& after.entries == others.push(sight.path)
            &&& after.index == others.len()
            &&& after.shown == Some(sight)
            &&& after.picture is None
            &&& after.dirty
            &&& after.size == state.size
            &&& alike(
                State { entries: after.entries, shown: after.shown, picture: after.picture, ..state },
                after,
            )
        }),
{
    lemma_without_filter(state.entries, sight.path);
}

/// A file that is gone leaves the list at the first place where it is, wherever that is, and the other
/// entries stay in their order. The index follows the entry that it counts to. If that is the entry
/// that leaves, it counts to the next one, or to the last one if there is none. The rest stays as it
/// is.
pub proof fn removal_takes_one_entry(state: State, path: Seq<Seq<u8>>, i: int)
    requires
        state.has_selection(),
        0 <= i < state.entries.len(),
        state.entries[i] == path,
        forall|j: int| 0 <= j < i ==> #[trigger] state.entries[j] != path,
    ensures
        ({
            let after = state.removed(path);
            &&& after.entries.len() == state.entries.len() - 1
            &&& forall|j: int| 0 <= j < i ==> #[trigger] after.entries[j] == state.entries[j]
            &&& forall|j: int|
                i <= j < after.entries.len() ==> #[trigger] after.entries[j] == state.entries[j + 1]
            &&& i < state.index ==> after.index == state.index - 1
            &&& i > state.index ==> after.index == state.index
            &&& i == state.index && i + 1 < state.entries.len() ==> after.index == i
            &&& i == state.index && i + 1 == state.entries.len() && i > 0 ==> after.index == i - 1
            &&& i == state.index && state.entries.len() == 1 ==> after.index == 0
            &&& after.dirty
            &&& after.size == state.size
            &&& alike(State { entries: after.entries, ..state }, after)
        }),
{
    lemma_first_index(state.entries, path);
    lemma_first_is_first(state.entries, path);
    assert(state.entries.contains(path));
    let first: int = first_index(state.entries, path)->0;
    if first < i {
        assert(state.entries[first] != path);
    }
    assert(first == i);
}

proof fn lemma_first_is_first(entries: Seq<Seq<Seq<u8>>>, path: Seq<Seq<u8>>)
    ensures
        first_index(entries, path) matches Some(i) ==> forall|j: int|
            0 <= j < i ==> #[trigger] entries[j] != path,
    decreases entries.len(),
{
    if entries.len() > 0 {
        let init = entries.drop_last();
        lemma_first_is_first(init, path);
        lemma_first_index(init, path);
        if let Some(i) = first_index(entries, path) {
            assert forall|j: int| 0 <= j < i implies #[trigger] entries[j] != path by {
                assert(init[j] == entries[j]);
                if first_index(init, path) is None {
                    assert(init.contains(init[j]));
                }
            }
        }
    }
}

/// A file that is gone is not in the list any more, whichever image is selected, and the others are
/// there as before, in the same order. A list has no file twice.
pub proof fn removed_files_leave_the_list(state: State, path: Seq<Seq<u8>>)
    requires
        state.has_selection(),
        state.entries.no_duplicates(),
    ensures
        !state.removed(path).entries.contains(path),
        state.removed(path).entries == state.entries.filter(|other: Seq<Seq<u8>>| other != path),
        !state.entries.contains(path) ==> state.removed(path).index == state.index && alike(
            state,
            state.removed(path),
        ) && state.removed(path).size == state.size,
{
    let after = state.removed(path);
    let kept = without(state.entries, path);
    lemma_first_index(state.entries, path);
    lemma_without(state.entries, path);
    lemma_without_filter(state.entries, path);
    match first_index(state.entries, path) {
        Some(i) => {
            let (left, right) = (state.entries.take(i), state.entries.skip(i + 1));
            assert(state.entries =~= left + seq![path] + right);
            assert(!left.contains(path)) by {
                if left.contains(path) {
                    let j: int = choose|j: int| 0 <= j < left.len() && left[j] == path;
                    assert(state.entries[j] == state.entries[i]);
                }
            }
            assert(!right.contains(path)) by {
                if right.contains(path) {
                    let j: int = choose|j: int| 0 <= j < right.len() && right[j] == path;
                    assert(state.entries[i + 1 + j] == state.entries[i]);
                }
            }
            lemma_without_absent(left, path);
            lemma_without_concat(left + seq![path], right, path);
            lemma_without_concat(left, seq![path], path);
            lemma_without_absent(right, path);
            assert(seq![path].drop_last() =~= Seq::empty());
            assert(without(Seq::empty(), path) =~= Seq::empty());
            assert(without(seq![path], path) =~= Seq::empty());
            assert(after.entries =~= left + right);
            assert(kept =~= left + right);
        },
        None => {
            lemma_without_absent(state.entries, path);
        },
    }
}

proof fn lemma_without_absent(entries: Seq<Seq<Seq<u8>>>, path: Seq<Seq<u8>>)
    requires
        !entries.contains(path),
    ensures
        without(entries, path) == entries,
    decreases entries.len(),
{
    if entries.len() > 0 {
        let init = entries.drop_last();
        assert(entries[entries.len() - 1] == entries.last());
        assert(!init.contains(path)) by {
            if init.contains(path) {
                let i: int = choose|i: int| 0 <= i < init.len() && init[i] == path;
                assert(entries[i] == path);
            }
        }
        lemma_without_absent(init, path);
        assert(entries =~= init.push(entries.last()));
    } else {
        assert(entries =~= Seq::empty());
    }
}

proof fn lemma_without_concat(a: Seq<Seq<Seq<u8>>>, b: Seq<Seq<Seq<u8>>>, path: Seq<Seq<u8>>)
    ensures
        without(a + b, path) == without(a, path) + without(b, path),
    decreases b.len(),
{
    if b.len() == 0 {
        assert(a + b =~= a);
        assert(without(a, path) + Seq::<Seq<Seq<u8>>>::empty() =~= without(a, path));
    } else {
        let init = b.drop_last();
        assert((a + b).drop_last() =~= a + init);
        lemma_without_concat(a, init, path);
        assert(without(a, path) + without(init, path).push(b.last()) =~= (without(a, path)
            + without(init, path)).push(b.last()));
    }
}

/// Showing something else shows it, forgets the picture, and changes nothing else.
pub proof fn showing_forgets_the_picture(state: State, shown: Option<Sight>)
    ensures
        ({
            let after = state.show(shown);
            &&& after.shown == shown
            &&& after.picture is None
            &&& after.index == state.index
            &&& after.size == state.size
            &&& after.dirty == state.dirty
            &&& alike(State { shown, picture: None, ..state }, after)
        }),
{
}

/// What is known of the image that is shown and of its picture is what belongs to them.
pub proof fn what_is_shown(state: State, sight: Sight, picture: Picture)
    ensures
        state.shown == Some(sight) ==> state.shown_path() == Some(sight.path),
        state.shown is None ==> state.shown_path() is None,
        state.picture == Some(picture) ==> state.picture_size() == Some(picture.size)
            && picture_id(state.picture) == Some(picture.id),
        state.picture is None ==> state.picture_size() is None && picture_id(state.picture) is None,
{
}

/// The picture that is uploaded shows the pixels of the image that is shown: its own if it has the
/// size that is needed, and else those that are left of it at that size.
pub proof fn uploads_show_the_image(state: State)
    ensures
        state.shown matches Some(sight) ==> sight.image matches Ok((width, height, pixels)) ==> {
            let (w, h) = state.target()->0;
            let needed = if w == width && h == height {
                pixels
            } else {
                thumbnail_of(pixels, width, height, w as u32, h as u32)
            };
            &&& state.data().len() == needed.len()
            &&& needed.len() % 4 == 0 ==> shows_pixels(state.data(), needed, 0x1e1e1e)
        },
{
    if let Some(Sight { image: Ok((width, height, pixels)), .. }) = state.shown {
        let needed = pixels_at((width, height), pixels, state.target()->0);
        if needed.len() % 4 == 0 {
            image_data_shows_pixels(needed, BACKGROUND);
        }
    }
}

/// An image stands for its size and its pixels, and an error for its text.
pub proof fn sights_are_what_was_loaded(shown: Shown)
    ensures
        shown@.path == shown.path@,
        shown@.modified == shown.modified,
        match shown.image {
            Ok(image) => shown@.image matches Ok((width, height, pixels)) && width == image.width
                && height == image.height && pixels == image.pixels@,
            Err(e) => shown@.image matches Err(text) && text == e@,
        },
{
}

/// News can be taken note of if it is that a file is gone, or an image that has pixels.
pub proof fn news_can_be_taken_note_of(update: Update)
    ensures
        match update {
            Update::Loaded { image, .. } => usable(update) <==> image.width > 0 && image.height > 0
                && image.pixels@.len() == 4 * image.width * image.height,
            Update::Removed(_) => usable(update),
        },
{
}

/// A file that is not in the list can be gone without any effect, except that the window is drawn.
pub proof fn unknown_files_can_be_gone(state: State, path: Seq<Seq<u8>>)
    requires
        !state.entries.contains(path),
    ensures
        alike(state, state.removed(path)),
        state.removed(path).index == state.index,
        state.removed(path).size == state.size,
        state.removed(path).dirty,
{
    lemma_first_index(state.entries, path);
    if let Some(i) = first_index(state.entries, path) {
        assert(state.entries.contains(state.entries[i]));
    }
}

/// An image is loaded if and only if it is the selected one and another one, or none, is shown. What is
/// shown is cleared if and only if nothing is selected. After that there is nothing left to do.
pub proof fn the_selected_image_is_needed(state: State, sight: Sight)
    ensures
        state.index < state.entries.len() ==> {
            let selected = state.entries[state.index as int];
            &&& state.need() is Clear ==> false
            &&& state.need() is Keep <==> (state.shown matches Some(shown) && shown.path == selected)
            &&& state.need() matches Need::Load(path) ==> path == selected
            &&& sight.path == selected ==> state.show(Some(sight)).need() is Keep
        },
        state.index >= state.entries.len() ==> {
            &&& state.need() is Keep <==> state.shown is None
            &&& state.need() is Clear <==> state.shown is Some
            &&& state.show(None).need() is Keep
        },
{
}

/// Existing images are listed in their order, and the last of them is selected. Nothing else changes.
pub proof fn the_latest_existing_image_is_selected(state: State, entries: Seq<Seq<Seq<u8>>>)
    ensures
        ({
            let after = state.list(entries);
            &&& after.entries == entries
            &&& entries.len() > 0 ==> after.index + 1 == entries.len()
            &&& entries.len() == 0 ==> after.index == 0
            &&& after.size == state.size
            &&& after.dirty == state.dirty
            &&& alike(State { entries, ..state }, after)
        }),
{
}

} // verus!
