//! Where pictures and text go in the window.
use vstd::prelude::*;

use crate::text::{glyphs, to_char2b, Char2b};

verus! {

/// Core fonts to try, best first: the iso10646 one can show any file name, and every X server has
/// "fixed".
pub const FONTS: [&'static str; 3] = [
    "-misc-fixed-medium-r-normal--15-*-*-*-c-90-iso10646-1",
    "9x15",
    "fixed",
];

/// The color of text, as 0xRRGGBB.
pub const TEXT_COLOR: u32 = 0xb0b0b0;

/// Distance of the file name label from the window corner.
pub const LABEL_MARGIN: i32 = 8;

/// Distance of the label's text from the label's edge.
pub const LABEL_PADDING: i32 = 4;

/// The size of a font whose characters are all equally wide.
#[derive(Clone, Copy, Debug, PartialEq, Eq, Structural)]
pub struct FontMetrics {
    pub char_width: i32,
    pub ascent: i32,
    pub descent: i32,
}

/// A request that draws something in the window.
pub enum Command {
    /// Fill a rectangle with the background. A size of zero means "up to the edge of the window".
    Clear { x: i16, y: i16, width: u16, height: u16 },
    /// Copy a picture of this size.
    Copy { picture: u32, x: i16, y: i16, width: u16, height: u16 },
    /// Draw text, starting from this point on its base line.
    Text { x: i16, y: i16, chars: Vec<Char2b> },
}

/// What a request draws.
pub ghost enum Drawn {
    Clear { x: int, y: int, width: int, height: int },
    Copy { picture: u32, x: int, y: int, width: int, height: int },
    Text { x: int, y: int, chars: Seq<Char2b> },
}

impl View for Command {
    type V = Drawn;

    open spec fn view(&self) -> Drawn {
        match *self {
            Command::Clear { x, y, width, height } => Drawn::Clear {
                x: x as int,
                y: y as int,
                width: width as int,
                height: height as int,
            },
            Command::Copy { picture, x, y, width, height } => Drawn::Copy {
                picture,
                x: x as int,
                y: y as int,
                width: width as int,
                height: height as int,
            },
            Command::Text { x, y, chars } => Drawn::Text { x: x as int, y: y as int, chars: chars@ },
        }
    }
}

pub open spec fn drawn(commands: Seq<Command>) -> Seq<Drawn> {
    Seq::new(commands.len(), |i: int| commands[i]@)
}

/// The 16-bit number that has the last 16 bits of `n`.
pub open spec fn low16(n: int) -> int {
    (n + 0x8000) % 0x1_0000 - 0x8000
}

fn to_i16(n: i32) -> (r: i16)
    ensures
        r == low16(n as int),
{
    proof {
        assert((n as i16) == (n + 0x8000) % 0x1_0000 - 0x8000) by (bit_vector);
    }
    #[verifier::truncate]
    (n as i16)
}

/// Half of `n`, rounded towards zero.
pub open spec fn half(n: int) -> int {
    if n >= 0 {
        n / 2
    } else {
        -((-n) / 2)
    }
}

/// `n`, or the nearest number that is a size: from 1 to 65535.
pub open spec fn as_size(n: int) -> int {
    if n < 1 {
        1
    } else if n > 0xffff {
        0xffff
    } else {
        n
    }
}

fn to_size(n: i32) -> (r: u16)
    ensures
        r == as_size(n as int),
{
    if n < 1 {
        1
    } else if n > 0xffff {
        0xffff
    } else {
        n as u16
    }
}

impl FontMetrics {
    /// Positions of as much text as can be drawn fit in 32 bits.
    pub open spec fn wf(self) -> bool {
        &&& -0x7fff_0000 <= 255 * self.char_width <= 0x7fff_0000
        &&& -0x8000 <= self.ascent <= 0x7fff
        &&& -0x8000 <= self.descent <= 0x7fff
    }

    /// The metrics of a font of which one character has these extents.
    pub fn new(overall_width: i32, font_ascent: i16, font_descent: i16) -> (r: FontMetrics)
        ensures
            r.char_width == overall_width,
            r.ascent == font_ascent,
            r.descent == font_descent,
    {
        FontMetrics {
            char_width: overall_width,
            ascent: font_ascent as i32,
            descent: font_descent as i32,
        }
    }

    /// Whether text of this font can be placed.
    pub fn is_usable(&self) -> (r: bool)
        ensures
            r == self.wf(),
    {
        let widest: i64 = 255 * self.char_width as i64;
        -0x7fff_0000 <= widest && widest <= 0x7fff_0000 && -0x8000 <= self.ascent && self.ascent
            <= 0x7fff && -0x8000 <= self.descent && self.descent <= 0x7fff
    }

    pub open spec fn width_of(self, chars: nat) -> int {
        chars * self.char_width
    }

    /// The width of `text`.
    pub fn width(&self, text: &Vec<Char2b>) -> (r: i32)
        requires
            text@.len() <= i32::MAX,
            i32::MIN <= self.width_of(text@.len()) <= i32::MAX,
        ensures
            r == self.width_of(text@.len()),
    {
        text.len() as i32 * self.char_width
    }
}

proof fn lemma_width(font: FontMetrics, chars: nat)
    requires
        font.wf(),
        chars <= 255,
    ensures
        -0x7fff_0000 <= font.width_of(chars) <= 0x7fff_0000,
{
    let w: int = font.char_width as int;
    assert(-0x7fff_0000 <= chars * w <= 0x7fff_0000) by (nonlinear_arith)
        requires
            -0x7fff_0000 <= 255 * w <= 0x7fff_0000,
            0 <= chars <= 255,
    ;
}

/// What draws `text` in the middle of a window of `size`.
pub open spec fn centered(font: Option<FontMetrics>, size: (u16, u16), text: Seq<char>) -> Seq<
    Drawn,
> {
    match font {
        None => Seq::empty(),
        Some(font) => {
            let left = half(size.0 - font.width_of(glyphs(text).len()));
            seq![
                Drawn::Text {
                    x: low16(
                        if left < LABEL_MARGIN {
                            LABEL_MARGIN as int
                        } else {
                            left
                        },
                    ),
                    y: low16(half(size.1 + font.ascent - font.descent)),
                    chars: glyphs(text),
                },
            ]
        },
    }
}

/// Draws `text` in the middle of a window of `size`.
pub fn draw_centered(font: &Option<FontMetrics>, size: (u16, u16), text: &str) -> (r: Vec<Command>)
    requires
        font matches Some(f) ==> f.wf(),
    ensures
        drawn(r@) == centered(*font, size, text@),
{
    let mut r: Vec<Command> = Vec::new();
    match font {
        None => {},
        Some(font) => {
            let chars = to_char2b(text);
            proof {
                lemma_width(*font, chars@.len());
            }
            let left: i32 = (size.0 as i32 - font.width(&chars)) / 2;
            let x: i32 = if left < LABEL_MARGIN {
                LABEL_MARGIN
            } else {
                left
            };
            let y: i32 = (size.1 as i32 + font.ascent - font.descent) / 2;
            r.push(Command::Text { x: to_i16(x), y: to_i16(y), chars });
        },
    }
    assert(drawn(r@) =~= centered(*font, size, text@));
    r
}

/// What draws `text` in the top left corner of the window, on a box of the background color.
pub open spec fn labelled(font: Option<FontMetrics>, text: Seq<char>) -> Seq<Drawn> {
    match font {
        None => Seq::empty(),
        Some(font) => {
            let width = font.width_of(glyphs(text).len()) + 2 * LABEL_PADDING;
            let height = font.ascent + font.descent + 2 * LABEL_PADDING;
            seq![
                Drawn::Clear {
                    x: LABEL_MARGIN as int,
                    y: LABEL_MARGIN as int,
                    width: as_size(width),
                    height: as_size(height),
                },
                Drawn::Text {
                    x: LABEL_MARGIN + LABEL_PADDING,
                    y: low16(LABEL_MARGIN + LABEL_PADDING + font.ascent),
                    chars: glyphs(text),
                },
            ]
        },
    }
}

/// Draws `text` in the top left corner of the window, over the image, on a box of the background
/// color.
pub fn draw_label(font: &Option<FontMetrics>, text: &str) -> (r: Vec<Command>)
    requires
        font matches Some(f) ==> f.wf(),
    ensures
        drawn(r@) == labelled(*font, text@),
{
    let mut r: Vec<Command> = Vec::new();
    match font {
        None => {},
        Some(font) => {
            let chars = to_char2b(text);
            proof {
                lemma_width(*font, chars@.len());
            }
            let width: i32 = font.width(&chars) + 2 * LABEL_PADDING;
            let height: i32 = font.ascent + font.descent + 2 * LABEL_PADDING;
            let margin: i16 = to_i16(LABEL_MARGIN);
            r.push(
                Command::Clear { x: margin, y: margin, width: to_size(width), height: to_size(height) },
            );
            let x: i32 = LABEL_MARGIN + LABEL_PADDING;
            let y: i32 = LABEL_MARGIN + LABEL_PADDING + font.ascent;
            r.push(Command::Text { x: to_i16(x), y: to_i16(y), chars });
        },
    }
    assert(drawn(r@) =~= labelled(*font, text@));
    r
}

/// A rectangle in the window, in pixels from its top left corner.
#[derive(Clone, Copy, Debug, PartialEq, Eq, Structural)]
pub struct Rect {
    pub x: u16,
    pub y: u16,
    pub width: u16,
    pub height: u16,
}

impl Rect {
    /// The rectangle has the pixel at `x` and `y`.
    pub open spec fn contains(self, x: int, y: int) -> bool {
        self.x <= x < self.x + self.width && self.y <= y < self.y + self.height
    }
}

/// How far from the edge something of length `n` is, in the middle of something of length `room`.
pub open spec fn margin(room: u16, n: u16) -> int {
    if n < room {
        (room - n) / 2
    } else {
        0
    }
}

pub open spec fn less_or_none(n: int, m: int) -> u16 {
    if m < n {
        (n - m) as u16
    } else {
        0
    }
}

/// Where a picture of size `picture` goes in a window of size `window`: in the middle.
pub open spec fn picture_rect(window: (u16, u16), picture: (u16, u16)) -> Rect {
    Rect {
        x: margin(window.0, picture.0) as u16,
        y: margin(window.1, picture.1) as u16,
        width: picture.0,
        height: picture.1,
    }
}

/// The borders around a picture: above it, below it, left of it and right of it.
pub open spec fn borders(window: (u16, u16), picture: (u16, u16)) -> (Rect, Rect, Rect, Rect) {
    let Rect { x, y, width, height } = picture_rect(window, picture);
    let right = (x + width) as u16;
    let bottom = (y + height) as u16;
    (
        Rect { x: 0, y: 0, width: window.0, height: y },
        Rect {
            x: 0,
            y: bottom,
            width: window.0,
            height: less_or_none(window.1 as int, bottom as int),
        },
        Rect { x: 0, y, width: x, height },
        Rect { x: right, y, width: less_or_none(window.0 as int, right as int), height },
    )
}

/// What clears a rectangle: nothing if it is empty, since a zero size means something else.
pub open spec fn cleared(rect: Rect) -> Seq<Drawn> {
    if rect.width > 0 && rect.height > 0 {
        seq![
            Drawn::Clear {
                x: low16(rect.x as int),
                y: low16(rect.y as int),
                width: rect.width as int,
                height: rect.height as int,
            },
        ]
    } else {
        Seq::empty()
    }
}

/// What draws a picture in the middle of the window and clears the borders around it.
pub open spec fn pictured(window: (u16, u16), id: u32, picture: (u16, u16)) -> Seq<Drawn> {
    let (above, below, left, right) = borders(window, picture);
    let rect = picture_rect(window, picture);
    cleared(above) + cleared(below) + cleared(left) + cleared(right) + seq![
        Drawn::Copy {
            picture: id,
            x: low16(rect.x as int),
            y: low16(rect.y as int),
            width: rect.width as int,
            height: rect.height as int,
        },
    ]
}

fn push_clear(commands: &mut Vec<Command>, rect: Rect)
    ensures
        drawn(final(commands)@) == drawn(old(commands)@) + cleared(rect),
{
    // A zero size means "up to the edge of the window".
    if rect.width > 0 && rect.height > 0 {
        commands.push(
            Command::Clear {
                x: to_i16(rect.x as i32),
                y: to_i16(rect.y as i32),
                width: rect.width,
                height: rect.height,
            },
        );
    }
    assert(drawn(commands@) =~= drawn(old(commands)@) + cleared(rect));
}

/// Draws the picture `id` of size `picture` in the middle of a window of size `window`, and clears the
/// borders around it.
pub fn paint_picture(window: (u16, u16), id: u32, picture: (u16, u16)) -> (r: Vec<Command>)
    ensures
        drawn(r@) == pictured(window, id, picture),
{
    let (width, height): (u16, u16) = window;
    let (w, h): (u16, u16) = picture;
    let x: u16 = width.saturating_sub(w) / 2;
    let y: u16 = height.saturating_sub(h) / 2;
    let mut r: Vec<Command> = Vec::new();
    assert(drawn(r@) =~= Seq::empty());
    push_clear(&mut r, Rect { x: 0, y: 0, width, height: y });
    push_clear(&mut r, Rect { x: 0, y: y + h, width, height: height.saturating_sub(y + h) });
    push_clear(&mut r, Rect { x: 0, y, width: x, height: h });
    push_clear(&mut r, Rect { x: x + w, y, width: width.saturating_sub(x + w), height: h });
    r.push(
        Command::Copy {
            picture: id,
            x: to_i16(x as i32),
            y: to_i16(y as i32),
            width: w,
            height: h,
        },
    );
    assert(drawn(r@) =~= pictured(window, id, picture));
    r
}

/// The picture and the borders around it cover the window: every pixel of the window lies in exactly
/// one of them.
pub proof fn picture_and_borders_tile_the_window(
    window: (u16, u16),
    picture: (u16, u16),
    x: int,
    y: int,
)
    requires
        picture.0 <= window.0,
        picture.1 <= window.1,
        0 <= x < window.0,
        0 <= y < window.1,
    ensures
        ({
            let (above, below, left, right) = borders(window, picture);
            let count = (if above.contains(x, y) {
                1int
            } else {
                0
            }) + (if below.contains(x, y) {
                1int
            } else {
                0
            }) + (if left.contains(x, y) {
                1int
            } else {
                0
            }) + (if right.contains(x, y) {
                1int
            } else {
                0
            }) + (if picture_rect(window, picture).contains(x, y) {
                1int
            } else {
                0
            });
            count == 1
        }),
{
}

/// A picture that fits in the window lies in its middle: the borders on opposite sides differ by at
/// most one pixel.
pub proof fn picture_is_centered(window: (u16, u16), picture: (u16, u16))
    requires
        picture.0 <= window.0,
        picture.1 <= window.1,
    ensures
        ({
            let (above, below, left, right) = borders(window, picture);
            &&& 0 <= right.width - left.width <= 1
            &&& 0 <= below.height - above.height <= 1
            &&& left.width + picture.0 + right.width == window.0
            &&& above.height + picture.1 + below.height == window.1
        }),
{
}

/// A position is cut to 16 bits: it changes by a multiple of what does not fit, and one that fits stays.
pub proof fn positions_have_16_bits(n: int)
    ensures
        -0x8000 <= low16(n) < 0x8000,
        (n - low16(n)) % 0x1_0000 == 0,
        -0x8000 <= n < 0x8000 ==> low16(n) == n,
{
}

/// Half of a number is rounded towards zero.
pub proof fn halves_are_rounded_towards_zero(n: int)
    ensures
        n >= 0 ==> 0 <= n - 2 * half(n) <= 1,
        n < 0 ==> -1 <= n - 2 * half(n) <= 0,
{
}

/// A size is taken as it is if it is one, and else the nearest one is.
pub proof fn sizes_are_taken_as_they_are(n: int)
    ensures
        1 <= n <= 0xffff ==> as_size(n) == n,
        n < 1 ==> as_size(n) == 1,
        n > 0xffff ==> as_size(n) == 0xffff,
{
}

/// All characters are equally wide.
pub proof fn widths_add_up(font: FontMetrics, m: nat, n: nat)
    ensures
        font.width_of(0) == 0,
        font.width_of(1) == font.char_width,
        font.width_of(m + n) == font.width_of(m) + font.width_of(n),
{
    let w: int = font.char_width as int;
    assert((m + n) * w == m * w + n * w) by (nonlinear_arith);
}

/// A font can be used if the widest text has a width that 32 bits hold with room to spare.
pub proof fn ordinary_fonts_are_usable(font: FontMetrics)
    ensures
        font.wf() <==> -0x7fff_0000 <= 255 * font.char_width <= 0x7fff_0000 && -0x8000 <= font.ascent
            <= 0x7fff && -0x8000 <= font.descent <= 0x7fff,
{
}

/// A message is one line of text in the middle of the window: the room to the left of it and to the
/// right of it differs by at most a pixel, unless the text needs more than the window has beside the
/// margins. The base line is as far from the middle as it takes for the height of the font to be
/// centered. Without a font nothing is drawn.
pub proof fn messages_are_in_the_middle(font: FontMetrics, size: (u16, u16), text: Seq<char>)
    ensures
        centered(None, size, text).len() == 0,
        centered(Some(font), size, text).len() == 1,
        ({
            let width = glyphs(text).len() * font.char_width;
            let twice = size.1 + font.ascent - font.descent;
            match centered(Some(font), size, text)[0] {
                Drawn::Text { x, y, chars } => {
                    &&& chars == glyphs(text)
                    &&& 16 <= size.0 - width < 0x1_0000 ==> 0 <= (size.0 - x - width) - x <= 1
                    &&& size.0 - width < 16 ==> x == 8
                    &&& size.0 - width >= 16 ==> (x - half(size.0 - width)) % 0x1_0000 == 0
                    &&& (y - half(twice)) % 0x1_0000 == 0
                    &&& -0x8000 <= x < 0x8000 && -0x8000 <= y < 0x8000
                    &&& -0x1_0000 <= twice < 0 ==> -1 <= twice - 2 * y <= 0
                    &&& 0 <= twice < 0x1_0000 ==> 0 <= twice - 2 * y <= 1
                },
                _ => false,
            }
        }),
{
}

/// A label is a line of text on a box in the corner of the window, which is eight pixels away from the
/// edges. The text is four pixels away from the edges of the box, which is as large as that takes.
/// Without a font nothing is drawn.
pub proof fn labels_are_in_the_corner(font: FontMetrics, text: Seq<char>)
    ensures
        labelled(None, text).len() == 0,
        labelled(Some(font), text).len() == 2,
        ({
            let width = glyphs(text).len() * font.char_width + 8;
            let height = font.ascent + font.descent + 8;
            match (labelled(Some(font), text)[0], labelled(Some(font), text)[1]) {
                (
                    Drawn::Clear { x: left, y: top, width: w, height: h },
                    Drawn::Text { x, y, chars },
                ) => {
                    &&& left == 8 && top == 8
                    &&& 1 <= width <= 0xffff ==> w == width
                    &&& width < 1 ==> w == 1
                    &&& width > 0xffff ==> w == 0xffff
                    &&& 1 <= height <= 0xffff ==> h == height
                    &&& height < 1 ==> h == 1
                    &&& height > 0xffff ==> h == 0xffff
                    &&& x == left + 4
                    &&& -0x8000 <= 12 + font.ascent <= 0x7fff ==> y == top + 4 + font.ascent
                    &&& (top + 4 + font.ascent - y) % 0x1_0000 == 0 && -0x8000 <= y < 0x8000
                    &&& chars == glyphs(text)
                },
                _ => false,
            }
        }),
{
}

/// A request draws the pixel at `x` and `y`.
pub open spec fn covers(request: Drawn, x: int, y: int) -> bool {
    match request {
        Drawn::Clear { x: left, y: top, width, height } => left <= x < left + width && top <= y < top
            + height,
        Drawn::Copy { x: left, y: top, width, height, .. } => left <= x < left + width && top <= y
            < top + height,
        Drawn::Text { .. } => false,
    }
}

/// How many of `requests` draw the pixel at `x` and `y`.
pub open spec fn times_drawn(requests: Seq<Drawn>, x: int, y: int) -> nat
    decreases requests.len(),
{
    if requests.len() == 0 {
        0
    } else {
        times_drawn(requests.drop_last(), x, y) + if covers(requests.last(), x, y) {
            1nat
        } else {
            0
        }
    }
}

proof fn lemma_times_drawn(a: Seq<Drawn>, b: Seq<Drawn>, x: int, y: int)
    ensures
        times_drawn(a + b, x, y) == times_drawn(a, x, y) + times_drawn(b, x, y),
    decreases b.len(),
{
    if b.len() == 0 {
        assert(a + b =~= a);
    } else {
        assert((a + b).drop_last() =~= a + b.drop_last());
        lemma_times_drawn(a, b.drop_last(), x, y);
    }
}

proof fn lemma_times_cleared(rect: Rect, x: int, y: int)
    requires
        rect.width > 0 && rect.height > 0 ==> rect.x < 0x8000 && rect.y < 0x8000,
    ensures
        times_drawn(cleared(rect), x, y) == if rect.contains(x, y) {
            1nat
        } else {
            0
        },
{
    let requests = cleared(rect);
    if requests.len() > 0 {
        assert(requests.drop_last() =~= Seq::empty());
        assert(times_drawn(requests.drop_last(), x, y) == 0);
    }
}

/// Drawing a picture draws every pixel of the window once, so that nothing flickers: the picture in its
/// middle, and the background around it.
pub proof fn every_pixel_is_drawn_once(
    window: (u16, u16),
    id: u32,
    picture: (u16, u16),
    x: int,
    y: int,
)
    requires
        window.0 <= 0x8000,
        window.1 <= 0x8000,
        0 <= x < window.0,
        0 <= y < window.1,
    ensures
        times_drawn(pictured(window, id, picture), x, y) == 1,
{
    let (above, below, left, right) = borders(window, picture);
    let rect = picture_rect(window, picture);
    let copy = seq![
        Drawn::Copy {
            picture: id,
            x: low16(rect.x as int),
            y: low16(rect.y as int),
            width: rect.width as int,
            height: rect.height as int,
        },
    ];
    lemma_times_cleared(above, x, y);
    lemma_times_cleared(below, x, y);
    lemma_times_cleared(left, x, y);
    lemma_times_cleared(right, x, y);
    lemma_times_drawn(cleared(above), cleared(below), x, y);
    lemma_times_drawn(cleared(above) + cleared(below), cleared(left), x, y);
    lemma_times_drawn(cleared(above) + cleared(below) + cleared(left), cleared(right), x, y);
    lemma_times_drawn(
        cleared(above) + cleared(below) + cleared(left) + cleared(right),
        copy,
        x,
        y,
    );
    assert(copy.drop_last() =~= Seq::empty());
    assert(times_drawn(copy.drop_last(), x, y) == 0);
    assert(copy.last() == copy[0]);
    assert(times_drawn(copy, x, y) == if rect.contains(x, y) {
        1nat
    } else {
        0
    });
}

/// A picture is drawn whole, at its own size, and after everything else. It is in the middle of the
/// window, or at its edge if it is larger. Everything else is background, and no request has an empty
/// size, which would mean another one.
pub proof fn pictures_are_drawn_whole(window: (u16, u16), id: u32, picture: (u16, u16))
    ensures
        ({
            let requests = pictured(window, id, picture);
            &&& 1 <= requests.len() <= 5
            &&& match requests.last() {
                Drawn::Copy { picture: source, x, y, width, height } => {
                    &&& source == id
                    &&& width == picture.0
                    &&& height == picture.1
                    &&& picture.0 <= window.0 ==> 0 <= (window.0 - x - width) - x <= 1
                    &&& picture.0 > window.0 ==> x == 0
                    &&& picture.1 <= window.1 ==> 0 <= (window.1 - y - height) - y <= 1
                    &&& picture.1 > window.1 ==> y == 0
                },
                _ => false,
            }
            &&& forall|i: int|
                0 <= i < requests.len() - 1 ==> (#[trigger] requests[i] matches Drawn::Clear {
                    width,
                    height,
                    ..
                } && width > 0 && height > 0)
        }),
{
}

/// Requests draw what they say, in their order.
pub proof fn requests_draw_what_they_say(commands: Seq<Command>, i: int)
    requires
        0 <= i < commands.len(),
    ensures
        drawn(commands).len() == commands.len(),
        match (commands[i], drawn(commands)[i]) {
            (
                Command::Clear { x, y, width, height },
                Drawn::Clear { x: left, y: top, width: w, height: h },
            ) => x == left && y == top && width == w && height == h,
            (
                Command::Copy { picture, x, y, width, height },
                Drawn::Copy { picture: id, x: left, y: top, width: w, height: h },
            ) => picture == id && x == left && y == top && width == w && height == h,
            (Command::Text { x, y, chars }, Drawn::Text { x: left, y: top, chars: text }) => x == left
                && y == top && chars@ == text,
            _ => false,
        },
{
}

} // verus!
