//! Text: numbers in decimal, padding, and characters as the X server draws them.
use vstd::prelude::*;

verus! {

/// The digit for `d`.
pub open spec fn digit(d: nat) -> char {
    ('0' as u32 + d) as char
}

/// `n` in decimal.
pub open spec fn decimal(n: nat) -> Seq<char>
    decreases n,
{
    if n < 10 {
        seq![digit(n)]
    } else {
        decimal(n / 10).push(digit(n % 10))
    }
}

fn digit_text(d: u64) -> (r: &'static str)
    requires
        d < 10,
    ensures
        r@ == seq![digit(d as nat)],
{
    proof {
        reveal_strlit("0");
        reveal_strlit("1");
        reveal_strlit("2");
        reveal_strlit("3");
        reveal_strlit("4");
        reveal_strlit("5");
        reveal_strlit("6");
        reveal_strlit("7");
        reveal_strlit("8");
        reveal_strlit("9");
    }
    match d {
        0 => "0",
        1 => "1",
        2 => "2",
        3 => "3",
        4 => "4",
        5 => "5",
        6 => "6",
        7 => "7",
        8 => "8",
        _ => "9",
    }
}

/// `n` in decimal.
pub fn to_decimal(n: u64) -> (text: String)
    ensures
        text@ == decimal(n as nat),
    decreases n,
{
    if n < 10 {
        digit_text(n).to_owned()
    } else {
        let mut text = to_decimal(n / 10);
        text.append(digit_text(n % 10));
        text
    }
}

/// A number is no longer in decimal than a larger one.
pub proof fn decimal_grows(n: nat, m: nat)
    requires
        n <= m,
    ensures
        1 <= decimal(n).len() <= decimal(m).len(),
    decreases m,
{
    if m >= 10 {
        if n >= 10 {
            decimal_grows(n / 10, m / 10);
        } else {
            decimal_grows(m / 10, m / 10);
        }
    }
}

/// `text` with spaces in front that make it at least `width` characters long.
pub open spec fn padded(text: Seq<char>, width: nat) -> Seq<char> {
    if text.len() < width {
        Seq::new((width - text.len()) as nat, |i: int| ' ') + text
    } else {
        text
    }
}

/// `text` aligned to the right in a column of `width` characters.
pub fn pad_left(text: &str, width: usize) -> (r: String)
    ensures
        r@ == padded(text@, width as nat),
{
    let length: usize = text.unicode_len();
    let mut r = String::new();
    let mut n: usize = length;
    while n < width
        invariant
            length == text@.len(),
            n >= length,
            n <= width || n == length,
            r@ == Seq::new((n - length) as nat, |i: int| ' '),
        decreases width - n,
    {
        proof {
            reveal_strlit(" ");
        }
        r.append(" ");
        n = n + 1;
        assert(r@ =~= Seq::new((n - length) as nat, |i: int| ' '));
    }
    r.append(text);
    assert(r@ =~= padded(text@, width as nat));
    r
}

/// A character as the X server's two-byte text requests take it.
#[derive(Clone, Copy, Debug, PartialEq, Eq, Structural)]
pub struct Char2b {
    pub byte1: u8,
    pub byte2: u8,
}

/// The most characters that one text request draws.
pub const MAX_CHARS: usize = 255;

/// The code that a character is drawn by: its own, or that of the replacement character if it has
/// more than 16 bits.
pub open spec fn glyph_code(c: char) -> u32 {
    if c as u32 <= 0xffff {
        c as u32
    } else {
        0xfffd
    }
}

pub open spec fn glyph(c: char) -> Char2b {
    Char2b { byte1: (glyph_code(c) / 0x100) as u8, byte2: (glyph_code(c) % 0x100) as u8 }
}

/// The characters of `text` that are drawn: at most `MAX_CHARS`.
pub open spec fn glyphs(text: Seq<char>) -> Seq<Char2b> {
    let length: nat = if text.len() <= MAX_CHARS {
        text.len()
    } else {
        MAX_CHARS as nat
    };
    Seq::new(length, |i: int| glyph(text[i]))
}

/// Converts `text` for ImageText16, which draws at most 255 characters. Characters the font lacks,
/// like non-Latin-1 ones in a Latin-1 font, show as its default glyph.
pub fn to_char2b(text: &str) -> (r: Vec<Char2b>)
    ensures
        r@ == glyphs(text@),
{
    let mut r: Vec<Char2b> = Vec::new();
    for c in it: text.chars()
        invariant
            it.seq() == text@,
            r@ == glyphs(text@.take(it.index())),
    {
        proof {
            assert(text@.take(it.index() + 1).len() == it.index() + 1);
        }
        if r.len() < MAX_CHARS {
            let code: u32 = if c as u32 <= 0xffff {
                c as u32
            } else {
                0xfffd
            };
            r.push(Char2b { byte1: (code / 0x100) as u8, byte2: (code % 0x100) as u8 });
        }
        assert(r@ =~= glyphs(text@.take(it.index() + 1)));
    }
    assert(text@.take(text@.len() as int) =~= text@);
    r
}

/// The number that a text of decimal digits stands for.
pub open spec fn number(text: Seq<char>) -> int
    decreases text.len(),
{
    if text.len() == 0 {
        0
    } else {
        10 * number(text.drop_last()) + (text.last() as u32 - '0' as u32)
    }
}

/// A number in decimal stands for that number. It is made of digits, of which the first is not zero
/// unless it is the only one.
pub proof fn decimals_stand_for_numbers(n: nat)
    ensures
        number(decimal(n)) == n,
        decimal(n).len() > 0,
        forall|i: int| 0 <= i < decimal(n).len() ==> '0' <= #[trigger] decimal(n)[i] <= '9',
        n > 0 ==> decimal(n)[0] != '0',
        decimal(n).len() == 1 <==> n < 10,
    decreases n,
{
    let text = decimal(n);
    if n < 10 {
        assert(text.drop_last() =~= Seq::empty());
        assert(number(text.drop_last()) == 0);
    } else {
        decimals_stand_for_numbers(n / 10);
        assert(text.drop_last() =~= decimal(n / 10));
        assert(text.last() == digit(n % 10));
    }
}

/// Padding puts spaces in front of a text, as many as it takes to fill the column, and nothing else.
pub proof fn padding_puts_spaces_in_front(text: Seq<char>, width: nat)
    ensures
        ({
            let r = padded(text, width);
            let spaces = r.len() - text.len();
            &&& r.len() >= text.len()
            &&& r.len() >= width
            &&& r.len() == text.len() || r.len() == width
            &&& r.skip(spaces) == text
            &&& forall|i: int| 0 <= i < spaces ==> #[trigger] r[i] == ' '
        }),
{
    let r = padded(text, width);
    assert(r.skip(r.len() - text.len()) =~= text);
}

/// A text is drawn character by character, up to 255 of them. Each is drawn by its code, the more
/// significant byte first, or by that of the replacement character if it does not fit in two bytes.
pub proof fn texts_are_drawn_by_their_codes(text: Seq<char>)
    ensures
        glyphs(text).len() <= text.len(),
        glyphs(text).len() <= 255,
        glyphs(text).len() == text.len() || glyphs(text).len() == 255,
        forall|i: int|
            0 <= i < glyphs(text).len() ==> (#[trigger] glyphs(text)[i]).byte1 * 0x100 + glyphs(
                text,
            )[i].byte2 == if text[i] as u32 <= 0xffff {
                text[i] as u32 as int
            } else {
                0xfffd
            },
{
    assert forall|i: int| 0 <= i < glyphs(text).len() implies (#[trigger] glyphs(text)[i]).byte1
        * 0x100 + glyphs(text)[i].byte2 == if text[i] as u32 <= 0xffff {
        text[i] as u32 as int
    } else {
        0xfffd
    } by {
        let code: u32 = glyph_code(text[i]);
        assert(code / 0x100 <= 0xff && code % 0x100 <= 0xff);
        assert(glyphs(text)[i] == glyph(text[i]));
    }
}

} // verus!
