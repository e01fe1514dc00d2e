//! What the window looks like: pictures, messages, the label and the title.
use vstd::prelude::*;

use crate::clock::{clock_text, is_clock_text, local_clock, shown_by_local_clock, Timestamp};
use crate::layout::{
    centered, draw_centered, draw_label, drawn, labelled, paint_picture, pictured, Command, Drawn,
};
use crate::path::{
    absolute, names_below_a_directory_are_relative, relative, utf8_lossy, FilePath,
};
use crate::text::{decimal, decimal_grows, pad_left, padded, to_decimal};
use crate::ui::{Shown, Sight, State, Ui};

verus! {

/// The place of an image in the list, padded to the width of the total so that what follows does not
/// move while navigating.
pub open spec fn counter(position: nat, total: nat) -> Seq<char> {
    padded(decimal(position), decimal(total).len()) + "/"@ + decimal(total)
}

impl State {
    /// A file's name as shown to the user: relative to the watched directory.
    pub open spec fn name_of(self, path: Seq<Seq<u8>>) -> Seq<char> {
        utf8_lossy(relative(path, self.dir))
    }

    /// The text over an image: the time it was last written, its position, and its name.
    pub open spec fn label_text(self, sight: Sight, clock: Option<Seq<char>>) -> Seq<char> {
        (match clock {
            Some(time) => time + "  "@,
            None => Seq::empty(),
        }) + counter(self.index + 1, self.entries.len()) + "  "@ + self.name_of(sight.path)
    }

    /// The title of the window.
    pub open spec fn title_text(self) -> Seq<char> {
        match self.shown {
            None => "agent-spy — waiting for images in "@ + utf8_lossy(absolute(self.dir)),
            Some(sight) => {
                let detail = match sight.image {
                    Ok((width, height, _)) => decimal(width as nat) + "×"@ + decimal(
                        height as nat,
                    ),
                    Err(_) => "cannot display"@,
                };
                "["@ + decimal(self.index + 1) + "/"@ + decimal(self.entries.len()) + "] "@
                    + self.name_of(sight.path) + " — "@ + detail + " — agent-spy"@
            },
        }
    }

    /// What draws the window without its label.
    pub open spec fn scene(self) -> Seq<Drawn> {
        match self.picture {
            Some(picture) => pictured(self.size, picture.id, picture.size),
            None => seq![Drawn::Clear { x: 0, y: 0, width: 0, height: 0 }] + match self.shown {
                None => centered(
                    self.font,
                    self.size,
                    "Waiting for images in "@ + utf8_lossy(absolute(self.dir)),
                ),
                Some(sight) => match sight.image {
                    Ok(_) => Seq::empty(),
                    Err(e) => centered(self.font, self.size, "Cannot display: "@ + e),
                },
            },
        }
    }

    /// What draws the window, with `label` in its corner.
    pub open spec fn drawing(self, label: Option<Seq<char>>) -> Seq<Drawn> {
        self.scene() + match label {
            Some(text) => labelled(self.font, text),
            None => Seq::empty(),
        }
    }
}

/// `clock` is the time of day of `modified` on the local clock.
pub open spec fn is_clock(clock: Option<Seq<char>>, modified: Option<Timestamp>) -> bool {
    match (clock, modified) {
        (Some(text), Some(time)) => is_clock_text(text, time),
        (None, None) => true,
        _ => false,
    }
}

/// The time that is shown has a time of day.
pub open spec fn has_clock(modified: Option<Timestamp>) -> bool {
    modified matches Some(time) ==> time.on_calendar()
}

fn append_commands(to: &mut Vec<Command>, commands: Vec<Command>)
    ensures
        drawn(final(to)@) == drawn(old(to)@) + drawn(commands@),
{
    let ghost more = commands@;
    let mut commands = commands;
    to.append(&mut commands);
    assert(drawn(to@) =~= drawn(old(to)@) + drawn(more));
}

impl Ui {
    /// A file's name as shown to the user: relative to the watched directory.
    pub fn display_name(&self, path: &FilePath) -> (name: String)
        ensures
            name@ == self@.name_of(path@),
    {
        path.display_below(&self.dir)
    }

    /// The text over an image whose time of day is `clock`.
    pub fn label_at(&self, shown: &Shown, clock: Option<&str>) -> (label: String)
        requires
            self.wf(),
        ensures
            label@ == self@.label_text(
                shown@,
                match clock {
                    Some(time) => Some(time@),
                    None => None,
                },
            ),
    {
        assert(self@.entries.len() == self.entries.len());
        let name = self.display_name(&shown.path);
        let total = to_decimal(self.entries.len() as u64);
        let position = to_decimal((self.index + 1) as u64);
        let width: usize = total.as_str().unicode_len();
        let mut label = String::new();
        if let Some(time) = clock {
            label.append(time);
            label.append("  ");
        }
        label.append(pad_left(position.as_str(), width).as_str());
        label.append("/");
        label.append(total.as_str());
        label.append("  ");
        label.append(name.as_str());
        proof {
            let before = match clock {
                Some(time) => time@ + "  "@,
                None => Seq::empty(),
            };
            assert(label@ =~= before + counter(self@.index + 1, self@.entries.len()) + "  "@
                + self@.name_of(shown.path@));
        }
        label
    }

    /// The overlay text for `shown`: the time it was last written, its position, and its name.
    pub fn label(&self, shown: &Shown) -> (label: String)
        requires
            self.wf(),
            has_clock(shown.modified),
        ensures
            exists|clock: Option<Seq<char>>| #[trigger]
                is_clock(clock, shown.modified) && label@ == self@.label_text(shown@, clock),
    {
        match shown.modified {
            Some(time) => {
                let clock = local_clock(time);
                assert(is_clock(Some(clock@), shown.modified));
                self.label_at(shown, Some(clock.as_str()))
            },
            None => {
                assert(is_clock(None, shown.modified));
                self.label_at(shown, None)
            },
        }
    }

    /// What draws the window, with `label` in its corner.
    pub fn paint_with(&self, label: Option<&str>) -> (commands: Vec<Command>)
        requires
            self.wf(),
            self@.font matches Some(font) ==> font.wf(),
        ensures
            drawn(commands@) == self@.drawing(
                match label {
                    Some(text) => Some(text@),
                    None => None,
                },
            ),
    {
        let mut commands: Vec<Command> = Vec::new();
        assert(drawn(commands@) =~= Seq::empty());
        match &self.picture {
            Some(picture) => {
                append_commands(&mut commands, paint_picture(self.size, picture.id, picture.size));
            },
            None => {
                commands.push(Command::Clear { x: 0, y: 0, width: 0, height: 0 });
                assert(drawn(commands@) =~= seq![
                    Drawn::Clear { x: 0, y: 0, width: 0, height: 0 },
                ]);
                match &self.shown {
                    None => {
                        let mut text = "Waiting for images in ".to_owned();
                        text.append(self.dir.display().as_str());
                        append_commands(
                            &mut commands,
                            draw_centered(&self.font, self.size, text.as_str()),
                        );
                    },
                    Some(shown) => match &shown.image {
                        Ok(_) => {},
                        Err(e) => {
                            let mut text = "Cannot display: ".to_owned();
                            text.append(e.as_str());
                            append_commands(
                                &mut commands,
                                draw_centered(&self.font, self.size, text.as_str()),
                            );
                        },
                    },
                }
            },
        }
        assert(drawn(commands@) =~= self@.scene());
        if let Some(text) = label {
            append_commands(&mut commands, draw_label(&self.font, text));
        }
        assert(drawn(commands@) =~= self@.drawing(
            match label {
                Some(text) => Some(text@),
                None => None,
            },
        ));
        commands
    }

    /// What draws the window.
    pub fn paint(&self) -> (commands: Vec<Command>)
        requires
            self.wf(),
            self@.font matches Some(font) ==> font.wf(),
            self@.shown matches Some(sight) ==> has_clock(sight.modified),
        ensures
            match self@.shown {
                None => drawn(commands@) == self@.drawing(None),
                Some(sight) => exists|clock: Option<Seq<char>>| #[trigger]
                    is_clock(clock, sight.modified) && drawn(commands@) == self@.drawing(
                        Some(self@.label_text(sight, clock)),
                    ),
            },
    {
        match &self.shown {
            None => self.paint_with(None),
            Some(shown) => {
                let label = self.label(shown);
                self.paint_with(Some(label.as_str()))
            },
        }
    }

    /// The title that the window should have.
    fn current_title(&self) -> (title: String)
        requires
            self.wf(),
        ensures
            title@ == self@.title_text(),
    {
        match &self.shown {
            None => {
                let mut title = "agent-spy — waiting for images in ".to_owned();
                title.append(self.dir.display().as_str());
                title
            },
            Some(shown) => {
                assert(self@.entries.len() == self.entries.len());
                let name = self.display_name(&shown.path);
                let detail = match &shown.image {
                    Ok(image) => {
                        let mut size = to_decimal(image.width as u64);
                        size.append("×");
                        size.append(to_decimal(image.height as u64).as_str());
                        size
                    },
                    Err(_) => "cannot display".to_owned(),
                };
                let mut title = "[".to_owned();
                title.append(to_decimal((self.index + 1) as u64).as_str());
                title.append("/");
                title.append(to_decimal(self.entries.len() as u64).as_str());
                title.append("] ");
                title.append(name.as_str());
                title.append(" — ");
                title.append(detail.as_str());
                title.append(" — agent-spy");
                title
            },
        }
    }

    /// Brings the title up to date. The result is the title to give to the window, if it is new.
    pub fn update_title(&mut self) -> (r: Option<String>)
        requires
            old(self).wf(),
        ensures
            final(self).wf(),
            final(self)@ == (State { title: old(self)@.title_text(), ..old(self)@ }),
            if old(self)@.title == old(self)@.title_text() {
                r is None
            } else {
                r matches Some(title) && title@ == old(self)@.title_text()
            },
    {
        let title = self.current_title();
        if title == self.title {
            None
        } else {
            self.title = title.clone();
            Some(title)
        }
    }
}

/// The place of an image takes the same room for every image of a list, so that the name behind it
/// does not move while navigating.
pub proof fn counter_width_is_fixed(position: nat, total: nat)
    requires
        1 <= position <= total,
    ensures
        counter(position, total).len() == 2 * decimal(total).len() + 1,
{
    reveal_strlit("/");
    decimal_grows(position, total);
}

/// The label of an image starts with the local time of its own last modification, if that is known,
/// and ends with the name of the file. What stands before the name takes the same room for every image
/// of a list.
pub proof fn label_has_columns(state: State, sight: Sight, clock: Option<Seq<char>>)
    requires
        state.index < state.entries.len(),
        is_clock(clock, sight.modified),
    ensures
        ({
            let label = state.label_text(sight, clock);
            let name = state.name_of(sight.path);
            let digits = decimal(state.entries.len()).len();
            let start = match sight.modified {
                Some(_) => 2 * digits + 13,
                None => 2 * digits + 3,
            };
            &&& label.len() == start + name.len()
            &&& label.skip(start as int) == name
            &&& sight.modified matches Some(time) ==> is_clock_text(label.take(8), time)
        }),
{
    let label = state.label_text(sight, clock);
    let name = state.name_of(sight.path);
    let start = label.len() - name.len();
    reveal_strlit("  ");
    counter_width_is_fixed(state.index + 1, state.entries.len());
    assert(label.skip(start) =~= name);
    if let Some(text) = clock {
        assert(label.take(8) =~= text);
    }
}

/// The label of an image names the file at the same place, whichever image of the list it is, as long
/// as the time is known of both or of neither.
pub proof fn names_do_not_move(
    state: State,
    other: State,
    sight: Sight,
    other_sight: Sight,
    clock: Option<Seq<char>>,
    other_clock: Option<Seq<char>>,
)
    requires
        state.index < state.entries.len(),
        other.index < other.entries.len(),
        state.entries.len() == other.entries.len(),
        is_clock(clock, sight.modified),
        is_clock(other_clock, other_sight.modified),
        clock is Some <==> other_clock is Some,
    ensures
        state.label_text(sight, clock).len() - state.name_of(sight.path).len() == other.label_text(
            other_sight,
            other_clock,
        ).len() - other.name_of(other_sight.path).len(),
{
    counter_width_is_fixed(state.index + 1, state.entries.len());
    counter_width_is_fixed(other.index + 1, other.entries.len());
}

/// Once the title is up to date it stays, until something else is to be shown in it.
pub proof fn title_is_stable(state: State)
    ensures
        ({
            let after = State { title: state.title_text(), ..state };
            after.title == after.title_text()
        }),
{
}

/// The label starts with the time, if there is one, and two spaces. Then it tells the position of the
/// image: the number of the selected entry, counting from one, in a column as wide as the total, a slash
/// and the total. After two more spaces it ends with the name of the file.
pub proof fn label_tells_the_position(state: State, sight: Sight, clock: Option<Seq<char>>)
    requires
        state.has_selection(),
    ensures
        ({
            let label = state.label_text(sight, clock);
            let position = decimal(state.index + 1);
            let total = decimal(state.entries.len());
            let name = state.name_of(sight.path);
            let from: int = match clock {
                Some(time) => time.len() as int + 2,
                None => 0,
            };
            let slash = from + total.len();
            &&& clock matches Some(time) ==> label.take(from - 2) == time && label[from - 2] == ' '
                && label[from - 1] == ' '
            &&& position.len() <= total.len()
            &&& label[slash] == '/'
            &&& label.subrange(slash - position.len(), slash) == position
            &&& forall|i: int| from <= i < slash - position.len() ==> #[trigger] label[i] == ' '
            &&& label.subrange(slash + 1, slash + 1 + total.len()) == total
            &&& label[slash + 1 + total.len()] == ' '
            &&& label[slash + 2 + total.len()] == ' '
            &&& label.skip(slash + 3 + total.len()) == name
        }),
{
    let label = state.label_text(sight, clock);
    let position = decimal(state.index + 1);
    let total = decimal(state.entries.len());
    let name = state.name_of(sight.path);
    reveal_strlit("  ");
    reveal_strlit("/");
    if state.entries.len() > 0 {
        decimal_grows(state.index + 1, state.entries.len());
    }
    let column = padded(position, total.len());
    let before = match clock {
        Some(time) => time + "  "@,
        None => Seq::empty(),
    };
    let from: int = before.len() as int;
    let slash: int = from + total.len();
    assert(column.len() == total.len());
    assert(label == before + (column + "/"@ + total) + "  "@ + name);
    assert forall|i: int| from <= i < slash - position.len() implies #[trigger] label[i] == ' ' by {
        assert(label[i] == column[i - from]);
    }
    assert(label.subrange(slash - position.len(), slash) =~= position);
    assert(label.subrange(slash + 1, slash + 1 + total.len()) =~= total);
    assert(label.skip(slash + 3 + total.len()) =~= name);
    if let Some(time) = clock {
        assert(label.take(from - 2) =~= time);
    }
}

/// The name of a file that lies below the watched directory is what is left of its path without that
/// directory and the separator behind it. That of any other file is its path in full.
pub proof fn names_are_relative_to_the_directory(
    state: State,
    rest: Seq<Seq<u8>>,
    text: Seq<u8>,
    path: Seq<Seq<u8>>,
)
    ensures
        rest.len() > 0 && state.dir.len() > 0 && absolute(state.dir + rest) == absolute(state.dir)
            + seq![0x2fu8] + text ==> state.name_of(state.dir + rest) == utf8_lossy(text),
        rest.len() > 0 && absolute(rest) == seq![0x2fu8] + text ==> state.name_of(state.dir + rest)
            == utf8_lossy(text),
        state.name_of(state.dir) == utf8_lossy(Seq::empty()),
        (path.len() < state.dir.len() || exists|i: int|
            0 <= i < state.dir.len() && #[trigger] state.dir[i] != path[i]) ==> state.name_of(path)
            == utf8_lossy(absolute(path)),
{
    names_below_a_directory_are_relative(state.dir, rest, path);
    assert(relative(state.dir, state.dir) =~= Seq::empty());
    if rest.len() > 0 && absolute(rest) == seq![0x2fu8] + text {
        let name = relative(state.dir + rest, state.dir);
        assert((seq![0x2fu8] + text).skip(1) =~= text);
        assert((seq![0x2fu8] + name).skip(1) =~= name);
    }
    if rest.len() > 0 && state.dir.len() > 0 && absolute(state.dir + rest) == absolute(state.dir)
        + seq![0x2fu8] + text {
        let start = absolute(state.dir) + seq![0x2fu8];
        let name = relative(state.dir + rest, state.dir);
        assert((start + text).skip(start.len() as int) =~= text);
        assert((start + name).skip(start.len() as int) =~= name);
    }
}

/// The title of a window without an image tells which directory is watched. That of one with an image
/// starts with its position and name and ends with the name of the program, and between them stands the
/// size of the image, if it has one.
pub proof fn titles_tell_what_is_shown(state: State)
    ensures
        match state.shown {
            None => {
                let start = "agent-spy — waiting for images in "@;
                &&& start.is_prefix_of(state.title_text())
                &&& state.title_text().skip(start.len() as int) == utf8_lossy(absolute(state.dir))
            },
            Some(sight) => {
                let title = state.title_text();
                let start = "["@ + decimal(state.index + 1) + "/"@ + decimal(state.entries.len())
                    + "] "@ + state.name_of(sight.path) + " — "@;
                let end = " — agent-spy"@;
                &&& start.is_prefix_of(title)
                &&& start.len() + end.len() <= title.len()
                &&& title.skip(title.len() - end.len()) == end
                &&& title.subrange(start.len() as int, title.len() - end.len()) == match sight.image {
                    Ok((width, height, _)) => decimal(width as nat) + "×"@ + decimal(height as nat),
                    Err(_) => "cannot display"@,
                }
            },
        },
{
    let title = state.title_text();
    match state.shown {
        None => {
            let start = "agent-spy — waiting for images in "@;
            assert(title.subrange(0, start.len() as int) =~= start);
            assert(title.skip(start.len() as int) =~= utf8_lossy(absolute(state.dir)));
        },
        Some(sight) => {
            let start = "["@ + decimal(state.index + 1) + "/"@ + decimal(state.entries.len()) + "] "@
                + state.name_of(sight.path) + " — "@;
            let end = " — agent-spy"@;
            let detail = match sight.image {
                Ok((width, height, _)) => decimal(width as nat) + "×"@ + decimal(height as nat),
                Err(_) => "cannot display"@,
            };
            assert(title =~= start + detail + end);
            assert(title.subrange(0, start.len() as int) =~= start);
            assert(title.skip(title.len() - end.len()) =~= end);
            assert(title.subrange(start.len() as int, title.len() - end.len()) =~= detail);
        },
    }
}

/// A window with a picture is drawn as the picture, and nothing else but the label. One without is
/// cleared first: it shows that it waits for images in the directory, or why an image cannot be shown,
/// or nothing if there is just no picture yet. The label comes last, over all of it, and is not there if
/// there is none.
pub proof fn windows_show_a_picture_or_a_message(state: State, label: Option<Seq<char>>)
    ensures
        ({
            let all = state.drawing(label);
            let over = match label {
                Some(text) => labelled(state.font, text),
                None => Seq::empty(),
            };
            let under = all.take(all.len() - over.len());
            &&& all.len() >= over.len()
            &&& all.skip(all.len() - over.len()) == over
            &&& match state.picture {
                Some(picture) => under == pictured(state.size, picture.id, picture.size),
                None => {
                    let message = under.skip(1);
                    &&& under.len() >= 1
                    &&& under[0] == (Drawn::Clear { x: 0, y: 0, width: 0, height: 0 })
                    &&& match state.shown {
                        None => message == centered(
                            state.font,
                            state.size,
                            "Waiting for images in "@ + utf8_lossy(absolute(state.dir)),
                        ),
                        Some(sight) => match sight.image {
                            Ok(_) => message.len() == 0,
                            Err(e) => message == centered(
                                state.font,
                                state.size,
                                "Cannot display: "@ + e,
                            ),
                        },
                    }
                },
            }
        }),
{
    let all = state.drawing(label);
    let over = match label {
        Some(text) => labelled(state.font, text),
        None => Seq::empty(),
    };
    let under = all.take(all.len() - over.len());
    assert(all =~= state.scene() + over);
    assert(under =~= state.scene());
    assert(all.skip(all.len() - over.len()) =~= over);
    if state.picture is None {
        let message = match state.shown {
            None => centered(
                state.font,
                state.size,
                "Waiting for images in "@ + utf8_lossy(absolute(state.dir)),
            ),
            Some(sight) => match sight.image {
                Ok(_) => Seq::empty(),
                Err(e) => centered(state.font, state.size, "Cannot display: "@ + e),
            },
        };
        assert(under.skip(1) =~= message);
    }
}

/// The label has a time if and only if the time of the file is known, and then it is the time of day
/// that the local clock shows at that time.
pub proof fn clocks_belong_to_files(clock: Option<Seq<char>>, modified: Option<Timestamp>)
    ensures
        is_clock(clock, modified) ==> (clock is Some <==> modified is Some),
        is_clock(clock, modified) ==> (modified matches Some(time) ==> shown_by_local_clock(
            time.secs,
            time.nanos,
            clock->0,
        ) && exists|offset: int|
            -86400 < offset < 86400 && clock->0 == #[trigger] clock_text(time.secs as int, offset)),
        modified is None ==> is_clock(None, modified),
        modified is None ==> has_clock(modified),
        modified matches Some(time) ==> (has_clock(modified) <==> time.on_calendar()),
{
}

} // verus!
