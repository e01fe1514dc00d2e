//! File paths.
use vstd::prelude::*;

verus! {

/// An absolute path without `.` and `..`: the names below the root directory, one after another.
pub struct FilePath {
    pub names: Vec<Vec<u8>>,
}

/// The byte between the names of a path.
pub const SEPARATOR: u8 = 0x2f;

impl View for FilePath {
    type V = Seq<Seq<u8>>;

    open spec fn view(&self) -> Seq<Seq<u8>> {
        Seq::new(self.names@.len(), |i: int| self.names@[i]@)
    }
}

impl FilePath {
    /// No name holds a separator.
    pub open spec fn wf(self) -> bool {
        forall|i: int| 0 <= i < self@.len() ==> !#[trigger] self@[i].contains(SEPARATOR)
    }
}

/// `names` with separators between them.
pub open spec fn joined(names: Seq<Seq<u8>>) -> Seq<u8>
    decreases names.len(),
{
    if names.len() == 0 {
        Seq::empty()
    } else if names.len() == 1 {
        names[0]
    } else {
        joined(names.drop_last()).push(SEPARATOR) + names.last()
    }
}

/// A path as it is written: with a separator before each name, or only one if there is no name.
pub open spec fn absolute(path: Seq<Seq<u8>>) -> Seq<u8> {
    seq![SEPARATOR] + joined(path)
}

/// `path` as it is written relative to `dir`, or in full if it is not below `dir`.
pub open spec fn relative(path: Seq<Seq<u8>>, dir: Seq<Seq<u8>>) -> Seq<u8> {
    if dir.is_prefix_of(path) {
        joined(path.skip(dir.len() as int))
    } else {
        absolute(path)
    }
}

/// The text that `String::from_utf8_lossy` makes of `bytes`.
pub uninterp spec fn utf8_lossy(bytes: Seq<u8>) -> Seq<char>;

/// Calls `String::from_utf8_lossy`: valid UTF-8 is decoded, and what is not valid is replaced by
/// the character U+FFFD, so that a slash comes from a slash only.
#[verifier::external_body]
pub(crate) fn text_lossy(bytes: &Vec<u8>) -> (text: String)
    ensures
        text@ == utf8_lossy(bytes@),
        vstd::utf8::valid_utf8(bytes@) ==> text@ == vstd::utf8::decode_utf8(bytes@),
        !bytes@.contains(SEPARATOR) ==> !text@.contains('/'),
{
    String::from_utf8_lossy(bytes).into_owned()
}

/// Calls `std::str::from_utf8`, which decodes bytes that are valid UTF-8, and no others.
#[verifier::external_body]
pub(crate) fn utf8_text(bytes: &Vec<u8>) -> (r: Option<String>)
    ensures
        match r {
            Some(text) => vstd::utf8::valid_utf8(bytes@) && text@ == vstd::utf8::decode_utf8(bytes@),
            None => !vstd::utf8::valid_utf8(bytes@),
        },
{
    std::str::from_utf8(bytes).ok().map(|text| text.to_owned())
}

fn same_bytes(a: &Vec<u8>, b: &Vec<u8>) -> (r: bool)
    ensures
        r == (a@ == b@),
{
    if a.len() != b.len() {
        return false;
    }
    let mut i: usize = 0;
    while i < a.len()
        invariant
            i <= a@.len() == b@.len(),
            a@.take(i as int) == b@.take(i as int),
        decreases a@.len() - i,
    {
        if a[i] != b[i] {
            return false;
        }
        assert(a@.take(i + 1) =~= a@.take(i as int).push(a@[i as int]));
        assert(b@.take(i + 1) =~= b@.take(i as int).push(b@[i as int]));
        i = i + 1;
    }
    assert(a@ =~= a@.take(i as int));
    assert(b@ =~= b@.take(i as int));
    true
}

fn append_bytes(to: &mut Vec<u8>, bytes: &Vec<u8>)
    ensures
        final(to)@ == old(to)@ + bytes@,
{
    let mut i: usize = 0;
    assert(bytes@.take(0) =~= Seq::empty());
    while i < bytes.len()
        invariant
            i <= bytes@.len(),
            to@ == old(to)@ + bytes@.take(i as int),
        decreases bytes@.len() - i,
    {
        to.push(bytes[i]);
        assert(to@ =~= old(to)@ + bytes@.take(i + 1));
        i = i + 1;
    }
    assert(bytes@.take(i as int) =~= bytes@);
}

fn copy_bytes(bytes: &Vec<u8>) -> (r: Vec<u8>)
    ensures
        r@ == bytes@,
{
    let mut r: Vec<u8> = Vec::with_capacity(bytes.len());
    append_bytes(&mut r, bytes);
    assert(r@ =~= bytes@);
    r
}

impl FilePath {
    /// Whether both are the same path.
    pub fn same(&self, other: &FilePath) -> (r: bool)
        ensures
            r == (self@ == other@),
    {
        if self.names.len() != other.names.len() {
            assert(self@.len() != other@.len());
            return false;
        }
        let mut i: usize = 0;
        while i < self.names.len()
            invariant
                i <= self.names@.len() == other.names@.len(),
                forall|j: int| 0 <= j < i ==> self@[j] == #[trigger] other@[j],
            decreases self.names@.len() - i,
        {
            if !same_bytes(&self.names[i], &other.names[i]) {
                assert(self@[i as int] != other@[i as int]);
                return false;
            }
            i = i + 1;
        }
        assert(self@ =~= other@);
        true
    }

    /// A copy of the path.
    pub fn copy(&self) -> (r: FilePath)
        ensures
            r@ == self@,
    {
        let mut names: Vec<Vec<u8>> = Vec::with_capacity(self.names.len());
        let mut i: usize = 0;
        while i < self.names.len()
            invariant
                i <= self.names@.len(),
                names@.len() == i,
                forall|j: int| 0 <= j < i ==> #[trigger] names@[j]@ == self.names@[j]@,
            decreases self.names@.len() - i,
        {
            names.push(copy_bytes(&self.names[i]));
            i = i + 1;
        }
        let r = FilePath { names };
        assert(r@ =~= self@);
        r
    }

    /// Whether the path is `dir` or lies below it.
    fn is_below(&self, dir: &FilePath) -> (r: bool)
        ensures
            r == dir@.is_prefix_of(self@),
    {
        if self.names.len() < dir.names.len() {
            return false;
        }
        let mut i: usize = 0;
        while i < dir.names.len()
            invariant
                i <= dir.names@.len() <= self.names@.len(),
                forall|j: int| 0 <= j < i ==> self@[j] == #[trigger] dir@[j],
            decreases dir.names@.len() - i,
        {
            if !same_bytes(&self.names[i], &dir.names[i]) {
                assert(self@.subrange(0, dir@.len() as int)[i as int] != dir@[i as int]);
                return false;
            }
            i = i + 1;
        }
        assert(self@.subrange(0, dir@.len() as int) =~= dir@);
        true
    }

    /// The names from number `start` on, with separators between them.
    fn join_from(&self, start: usize) -> (r: Vec<u8>)
        requires
            start <= self@.len(),
        ensures
            r@ == joined(self@.skip(start as int)),
    {
        let mut r: Vec<u8> = Vec::new();
        let mut i: usize = start;
        assert(self@.subrange(start as int, start as int) =~= Seq::empty());
        while i < self.names.len()
            invariant
                start <= i <= self.names@.len(),
                r@ == joined(self@.subrange(start as int, i as int)),
            decreases self.names@.len() - i,
        {
            let ghost before = self@.subrange(start as int, i as int);
            let ghost after = self@.subrange(start as int, i + 1);
            assert(after.drop_last() =~= before);
            assert(after.last() == self.names@[i as int]@);
            if i > start {
                r.push(SEPARATOR);
            } else {
                assert(r@ + self.names@[i as int]@ =~= after[0]);
            }
            append_bytes(&mut r, &self.names[i]);
            i = i + 1;
        }
        assert(self@.subrange(start as int, i as int) =~= self@.skip(start as int));
        r
    }

    /// The path in full, as it is shown to the user.
    pub fn display(&self) -> (text: String)
        ensures
            text@ == utf8_lossy(absolute(self@)),
    {
        let mut bytes: Vec<u8> = Vec::new();
        bytes.push(SEPARATOR);
        let names = self.join_from(0);
        append_bytes(&mut bytes, &names);
        assert(self@.skip(0) =~= self@);
        assert(bytes@ =~= absolute(self@));
        text_lossy(&bytes)
    }

    /// The path as it is shown to the user: relative to `dir` if it lies below.
    pub fn display_below(&self, dir: &FilePath) -> (text: String)
        ensures
            text@ == utf8_lossy(relative(self@, dir@)),
    {
        if self.is_below(dir) {
            text_lossy(&self.join_from(dir.names.len()))
        } else {
            self.display()
        }
    }
}

/// A path is written as its names with one separator before each. The root directory is a separator
/// alone.
pub proof fn paths_are_written_name_by_name(path: Seq<Seq<u8>>, name: Seq<u8>)
    ensures
        absolute(Seq::empty()) == seq![0x2fu8],
        absolute(seq![name]) == seq![0x2fu8] + name,
        path.len() > 0 ==> absolute(path.push(name)) == absolute(path) + seq![0x2fu8] + name,
{
    assert(absolute(Seq::empty()) =~= seq![0x2fu8]);
    if path.len() > 0 {
        assert(path.push(name).drop_last() =~= path);
        assert(absolute(path.push(name)) =~= absolute(path) + seq![0x2fu8] + name);
    }
}

/// What lies below a directory is written without that directory: what is left out is how the directory
/// is written, and a separator. Anything else is written in full.
pub proof fn names_below_a_directory_are_relative(
    dir: Seq<Seq<u8>>,
    rest: Seq<Seq<u8>>,
    path: Seq<Seq<u8>>,
)
    ensures
        rest.len() > 0 && dir.len() > 0 ==> absolute(dir + rest) == absolute(dir) + seq![0x2fu8]
            + relative(dir + rest, dir),
        rest.len() > 0 ==> absolute(rest) == seq![0x2fu8] + relative(dir + rest, dir),
        relative(dir, dir).len() == 0,
        (path.len() < dir.len() || exists|i: int|
            0 <= i < dir.len() && #[trigger] dir[i] != path[i]) ==> relative(path, dir) == absolute(
            path,
        ),
{
    let whole = dir + rest;
    assert(whole.subrange(0, dir.len() as int) =~= dir);
    assert(whole.skip(dir.len() as int) =~= rest);
    assert(relative(whole, dir) =~= joined(rest));
    if rest.len() > 0 && dir.len() > 0 {
        lemma_joined(dir, rest);
        assert(absolute(whole) =~= absolute(dir) + seq![0x2fu8] + joined(rest));
    }
    assert(dir.subrange(0, dir.len() as int) =~= dir);
    assert(dir.skip(dir.len() as int) =~= Seq::empty());
    if exists|i: int| 0 <= i < dir.len() && #[trigger] dir[i] != path[i] {
        let i: int = choose|i: int| 0 <= i < dir.len() && #[trigger] dir[i] != path[i];
        if dir.is_prefix_of(path) {
            assert(path.subrange(0, dir.len() as int)[i] == path[i]);
        }
    }
}

proof fn lemma_joined(a: Seq<Seq<u8>>, b: Seq<Seq<u8>>)
    requires
        a.len() > 0,
        b.len() > 0,
    ensures
        joined(a + b) == joined(a).push(SEPARATOR) + joined(b),
    decreases b.len(),
{
    let all = a + b;
    assert(all.last() == b.last());
    if b.len() == 1 {
        assert(all.drop_last() =~= a);
    } else {
        let init = b.drop_last();
        assert(all.drop_last() =~= a + init);
        lemma_joined(a, init);
        assert(joined(all) =~= joined(a).push(SEPARATOR) + joined(b));
    }
}

/// A path stands for its names, and is in order if none holds a separator.
pub proof fn paths_stand_for_their_names(path: FilePath)
    ensures
        path@.len() == path.names@.len(),
        forall|i: int| 0 <= i < path@.len() ==> #[trigger] path@[i] == path.names@[i]@,
        path.wf() <==> forall|i: int, j: int|
            0 <= i < path@.len() && 0 <= j < path@[i].len() ==> #[trigger] path@[i][j] != 0x2f,
{
    if path.wf() {
        assert forall|i: int, j: int| 0 <= i < path@.len() && 0 <= j < path@[i].len() implies
            #[trigger] path@[i][j] != 0x2f by {
            assert(!path@[i].contains(SEPARATOR));
            assert(path@[i].contains(path@[i][j]));
        }
    }
    if forall|i: int, j: int|
        0 <= i < path@.len() && 0 <= j < path@[i].len() ==> #[trigger] path@[i][j] != 0x2f {
        assert forall|i: int| 0 <= i < path@.len() implies !#[trigger] path@[i].contains(
            SEPARATOR,
        ) by {
            if path@[i].contains(SEPARATOR) {
                let j: int = choose|j: int| 0 <= j < path@[i].len() && path@[i][j] == SEPARATOR;
                assert(path@[i][j] != 0x2f);
            }
        }
    }
}

} // verus!
