//! Pixels: composing them over the background and preparing them for the X server.
use vstd::prelude::*;

verus! {

/// The color behind images, as 0xRRGGBB.
pub const BACKGROUND: u32 = 0x1e1e1e;

/// An image of four bytes per pixel: red, green, blue and opacity.
pub struct RgbaImage {
    pub width: u32,
    pub height: u32,
    pub pixels: Vec<u8>,
}

impl RgbaImage {
    /// There are as many pixels as the size says.
    pub open spec fn wf(self) -> bool {
        self.pixels@.len() == 4 * self.width * self.height
    }

    /// The size of the image: width and height.
    pub fn dimensions(&self) -> (r: (u32, u32))
        ensures
            r == (self.width, self.height),
    {
        (self.width, self.height)
    }
}

/// A color channel of opacity `a` (of 255) over that of the background.
pub open spec fn mix(c: int, a: int, background: int) -> int {
    (c * a + background * (255 - a)) / 255
}

/// The color 0xRRGGBB with these channels.
pub open spec fn rgb(red: int, green: int, blue: int) -> int {
    red * 0x1_0000 + green * 0x100 + blue
}

/// What an RGBA pixel looks like over `background`, as 0xRRGGBB.
pub open spec fn blended(r: u8, g: u8, b: u8, a: u8, background: u32) -> int {
    rgb(
        mix(r as int, a as int, background as int / 0x1_0000 % 0x100),
        mix(g as int, a as int, background as int / 0x100 % 0x100),
        mix(b as int, a as int, background as int % 0x100),
    )
}

fn mix_channel(c: u8, a: u8, background: u32) -> (m: u32)
    requires
        background < 0x100,
    ensures
        m == mix(c as int, a as int, background as int),
        m < 0x100,
{
    proof {
        assert(0 <= c * a + background * (255 - a) <= 255 * 255) by (nonlinear_arith)
            requires
                c <= 255,
                a <= 255,
                background <= 255,
        ;
        assert(0 <= c * a <= 255 * 255) by (nonlinear_arith)
            requires
                c <= 255,
                a <= 255,
        ;
        assert(0 <= background * (255 - a) <= 255 * 255) by (nonlinear_arith)
            requires
                a <= 255,
                background <= 255,
        ;
    }
    (c as u32 * a as u32 + background * (255 - a as u32)) / 255
}

/// Composites an RGBA pixel over `background`, giving 0xRRGGBB.
pub fn blend(pixel: [u8; 4], background: u32) -> (color: u32)
    ensures
        color == blended(pixel[0], pixel[1], pixel[2], pixel[3], background),
{
    let a: u8 = pixel[3];
    proof {
        assert((background >> 16u32) & 0xff == background / 0x1_0000 % 0x100) by (bit_vector);
        assert((background >> 8u32) & 0xff == background / 0x100 % 0x100) by (bit_vector);
        assert((background >> 0u32) & 0xff == background % 0x100) by (bit_vector);
    }
    let red: u32 = mix_channel(pixel[0], a, (background >> 16u32) & 0xff);
    let green: u32 = mix_channel(pixel[1], a, (background >> 8u32) & 0xff);
    let blue: u32 = mix_channel(pixel[2], a, (background >> 0u32) & 0xff);
    proof {
        assert((red << 16u32) | (green << 8u32) | blue == red * 0x1_0000 + green * 0x100 + blue)
            by (bit_vector)
            requires
                red < 0x100,
                green < 0x100,
                blue < 0x100,
        ;
    }
    (red << 16u32) | (green << 8u32) | blue
}

/// Every channel of a blended pixel lies between that of the pixel and that of the background, so
/// the result is a color. An opaque pixel hides the background, a transparent one shows it as it is.
pub proof fn blend_is_between(r: u8, g: u8, b: u8, a: u8, background: u32)
    ensures
        0 <= blended(r, g, b, a, background) < 0x100_0000,
        ({
            let red = background as int / 0x1_0000 % 0x100;
            let green = background as int / 0x100 % 0x100;
            let blue = background as int % 0x100;
            &&& between(mix(r as int, a as int, red), r as int, red)
            &&& between(mix(g as int, a as int, green), g as int, green)
            &&& between(mix(b as int, a as int, blue), b as int, blue)
        }),
        a == 255 ==> blended(r, g, b, a, background) == rgb(r as int, g as int, b as int),
        a == 0 ==> blended(r, g, b, a, background) == background as int % 0x100_0000,
{
    lemma_mix_between(r as int, a as int, background as int / 0x1_0000 % 0x100);
    lemma_mix_between(g as int, a as int, background as int / 0x100 % 0x100);
    lemma_mix_between(b as int, a as int, background as int % 0x100);
}

/// `x` is one of the two bounds or lies between them.
pub open spec fn between(x: int, one: int, other: int) -> bool {
    one <= x <= other || other <= x <= one
}

proof fn lemma_mix_between(c: int, a: int, background: int)
    requires
        0 <= c < 0x100,
        0 <= a < 0x100,
        0 <= background < 0x100,
    ensures
        between(mix(c, a, background), c, background),
        a == 255 ==> mix(c, a, background) == c,
        a == 0 ==> mix(c, a, background) == background,
{
    let sum: int = c * a + background * (255 - a);
    if c <= background {
        assert(255 * c <= sum <= 255 * background) by (nonlinear_arith)
            requires
                sum == c * a + background * (255 - a),
                c <= background,
                0 <= a <= 255,
        ;
    } else {
        assert(255 * background <= sum <= 255 * c) by (nonlinear_arith)
            requires
                sum == c * a + background * (255 - a),
                c > background,
                0 <= a <= 255,
        ;
    }
    if a == 255 {
        assert(sum == 255 * c) by (nonlinear_arith)
            requires
                sum == c * a + background * (255 - a),
                a == 255,
        ;
    }
    if a == 0 {
        assert(sum == 255 * background) by (nonlinear_arith)
            requires
                sum == c * a + background * (255 - a),
                a == 0,
        ;
    }
}

/// Byte `i` of `color` in the order of the X server's images: least significant first.
pub open spec fn color_byte(color: int, i: int) -> u8 {
    if i == 0 {
        (color % 0x100) as u8
    } else if i == 1 {
        (color / 0x100 % 0x100) as u8
    } else if i == 2 {
        (color / 0x1_0000 % 0x100) as u8
    } else {
        (color / 0x100_0000 % 0x100) as u8
    }
}

/// The image data for RGBA `pixels` over `background`: four bytes for each pixel.
pub open spec fn image_data(pixels: Seq<u8>, background: u32) -> Seq<u8> {
    Seq::new(
        pixels.len(),
        |i: int|
            {
                let p = i - i % 4;
                color_byte(
                    blended(pixels[p], pixels[p + 1], pixels[p + 2], pixels[p + 3], background),
                    i % 4,
                )
            },
    )
}

/// The image data for RGBA `pixels`, composed over `background`.
pub fn to_image_data(pixels: &Vec<u8>, background: u32) -> (data: Vec<u8>)
    requires
        pixels@.len() % 4 == 0,
    ensures
        data@ == image_data(pixels@, background),
{
    let mut data: Vec<u8> = Vec::with_capacity(pixels.len());
    let mut i: usize = 0;
    while i < pixels.len()
        invariant
            pixels@.len() % 4 == 0,
            i <= pixels@.len(),
            i % 4 == 0,
            data@ == image_data(pixels@, background).take(i as int),
        decreases pixels@.len() - i,
    {
        let color: u32 = blend([pixels[i], pixels[i + 1], pixels[i + 2], pixels[i + 3]], background);
        data.push((color % 0x100) as u8);
        data.push((color / 0x100 % 0x100) as u8);
        data.push((color / 0x1_0000 % 0x100) as u8);
        data.push((color / 0x100_0000 % 0x100) as u8);
        proof {
            let whole = image_data(pixels@, background);
            assert((i + 1) % 4 == 1 && (i + 2) % 4 == 2 && (i + 3) % 4 == 3);
            assert(data@ =~= whole.take(i + 4));
        }
        i = i + 4;
    }
    proof {
        let whole = image_data(pixels@, background);
        assert(whole.take(i as int) =~= whole);
    }
    data
}

/// The pixels of an RGBA image of `width` times `height` pixels, resized by
/// `image::imageops::thumbnail` to `new_width` times `new_height`.
pub uninterp spec fn thumbnail_of(
    pixels: Seq<u8>,
    width: u32,
    height: u32,
    new_width: u32,
    new_height: u32,
) -> Seq<u8>;

/// Upper bound on how many pixels of a side of length `n` are averaged into one when the side
/// becomes `to` long. It is exact where the one length is a multiple of the other and both are exact
/// as numbers of single precision.
pub open spec fn block_side(n: int, to: int) -> int {
    if to == 0 {
        0
    } else if n % to == 0 && n <= 0x100_0000 {
        n / to
    } else {
        let bound = n / to + n / 1_000_000 + 3;
        if bound < n {
            bound
        } else {
            n
        }
    }
}

/// The sum of a color channel over `count` pixels, with what is added for rounding, fits in 32 bits.
pub open spec fn sum_fits(count: int) -> bool {
    255 * count + count / 2 <= u32::MAX
}

/// A pixel of the image at `size` stands for few enough of those of an image of `dimensions` for
/// their sum to fit in 32 bits, and the image at `size` fits in memory.
pub open spec fn can_resize(dimensions: (u32, u32), size: (u16, u16)) -> bool {
    &&& sum_fits(
        block_side(dimensions.0 as int, size.0 as int) * block_side(
            dimensions.1 as int,
            size.1 as int,
        ),
    )
    &&& 4 * size.0 * size.1 <= isize::MAX
}

fn widest_block(n: u32, to: u16) -> (r: u64)
    ensures
        r == block_side(n as int, to as int),
        r <= u32::MAX,
{
    if to == 0 {
        return 0;
    }
    let (n, to): (u64, u64) = (n as u64, to as u64);
    if n % to == 0 && n <= 0x100_0000 {
        proof {
            assert(n / to <= n) by (nonlinear_arith)
                requires
                    to > 0,
            ;
        }
        return n / to;
    }
    let bound: u64 = n / to + n / 1_000_000 + 3;
    if bound < n {
        bound
    } else {
        n
    }
}

/// Whether an image of `dimensions` can be shown at `size`.
pub fn shows_at(dimensions: (u32, u32), size: (u16, u16)) -> (r: bool)
    ensures
        r == can_show(dimensions, size),
{
    if dimensions.0 == size.0 as u32 && dimensions.1 == size.1 as u32 {
        return true;
    }
    let across: u128 = widest_block(dimensions.0, size.0) as u128;
    let down: u128 = widest_block(dimensions.1, size.1) as u128;
    proof {
        assert(across * down <= 0xffff_ffff * 0xffff_ffff) by (nonlinear_arith)
            requires
                across <= 0xffff_ffff,
                down <= 0xffff_ffff,
        ;
        assert(size.0 * size.1 <= 0xffff * 0xffff) by (nonlinear_arith)
            requires
                size.0 <= 0xffff,
                size.1 <= 0xffff,
        ;
        assert(4 * size.0 * size.1 == 4 * (size.0 * size.1)) by (nonlinear_arith);
    }
    let count: u128 = across * down;
    let pixels: u64 = size.0 as u64 * size.1 as u64;
    255 * count + count / 2 <= u32::MAX as u128 && 4 * pixels <= isize::MAX as u64
}

/// Calls `image::imageops::thumbnail` on an RGBA image. Its result depends on nothing but its
/// arguments and has four bytes for each pixel of the new size. Its sums of up to `block_side`
/// times `block_side` pixels are 32 bits wide and must fit, and so must the result in memory.
#[verifier::external_body]
fn thumbnail(pixels: &Vec<u8>, width: u32, height: u32, new_width: u16, new_height: u16) -> (r: Vec<
    u8,
>)
    requires
        pixels@.len() == 4 * width * height,
        can_resize((width, height), (new_width, new_height)),
    ensures
        r@ == thumbnail_of(pixels@, width, height, new_width as u32, new_height as u32),
        r@.len() == 4 * new_width * new_height,
{
    let view = image::ImageBuffer::<image::Rgba<u8>, &[u8]>::from_raw(width, height, pixels);
    let (w, h) = (new_width.into(), new_height.into());
    image::imageops::thumbnail(&view.unwrap(), w, h).into_raw()
}

/// The pixels of an image at `size`: its own if it has that size.
pub open spec fn pixels_at(dimensions: (u32, u32), pixels: Seq<u8>, size: (u16, u16)) -> Seq<u8> {
    if is_size(dimensions, size) {
        pixels
    } else {
        thumbnail_of(pixels, dimensions.0, dimensions.1, size.0 as u32, size.1 as u32)
    }
}

/// An image of these `dimensions` has this `size`.
pub open spec fn is_size(dimensions: (u32, u32), size: (u16, u16)) -> bool {
    dimensions.0 == size.0 && dimensions.1 == size.1
}

/// An image of these `dimensions` can be shown at this `size`.
pub open spec fn can_show(dimensions: (u32, u32), size: (u16, u16)) -> bool {
    is_size(dimensions, size) || can_resize(dimensions, size)
}

/// The image data that shows `image` at `size` over the background.
pub fn upload_data(image: &RgbaImage, size: (u16, u16)) -> (data: Vec<u8>)
    requires
        image.wf(),
        can_show((image.width, image.height), size),
    ensures
        data@ == image_data(
            pixels_at((image.width, image.height), image.pixels@, size),
            BACKGROUND,
        ),
        data@.len() == 4 * size.0 * size.1,
{
    proof {
        assert(image.pixels@.len() % 4 == 0) by {
            assert(4 * image.width * image.height == 4 * (image.width * image.height))
                by (nonlinear_arith);
        }
        assert((4 * size.0 * size.1) % 4 == 0) by {
            assert(4 * size.0 * size.1 == 4 * (size.0 * size.1)) by (nonlinear_arith);
        }
    }
    if image.width == size.0 as u32 && image.height == size.1 as u32 {
        to_image_data(&image.pixels, BACKGROUND)
    } else {
        let scaled = thumbnail(&image.pixels, image.width, image.height, size.0, size.1);
        to_image_data(&scaled, BACKGROUND)
    }
}

/// `byte` is a color channel of the value `c` and the opacity `a` over a channel `background`: the
/// mean of the two, weighted by the opacity and rounded down.
pub open spec fn is_mean(byte: int, c: int, a: int, background: int) -> bool {
    255 * byte <= c * a + background * (255 - a) < 255 * byte + 255
}

/// The color of a pixel over a background has three channels, each of which is the weighted mean of
/// the pixel's and the background's.
pub proof fn blending_weighs_by_opacity(r: u8, g: u8, b: u8, a: u8, background: u32)
    ensures
        ({
            let color = blended(r, g, b, a, background);
            &&& 0 <= color < 0x100_0000
            &&& is_mean(color / 0x1_0000, r as int, a as int, background as int / 0x1_0000 % 0x100)
            &&& is_mean(color / 0x100 % 0x100, g as int, a as int, background as int / 0x100 % 0x100)
            &&& is_mean(color % 0x100, b as int, a as int, background as int % 0x100)
        }),
{
    let back: int = background as int;
    lemma_mix_is_mean(r as int, a as int, back / 0x1_0000 % 0x100);
    lemma_mix_is_mean(g as int, a as int, back / 0x100 % 0x100);
    lemma_mix_is_mean(b as int, a as int, back % 0x100);
    let red: int = mix(r as int, a as int, back / 0x1_0000 % 0x100);
    let green: int = mix(g as int, a as int, back / 0x100 % 0x100);
    let blue: int = mix(b as int, a as int, back % 0x100);
    lemma_channels(red, green, blue);
    assert(blended(r, g, b, a, background) == rgb(red, green, blue));
}

proof fn lemma_channels(red: int, green: int, blue: int)
    requires
        0 <= red < 0x100,
        0 <= green < 0x100,
        0 <= blue < 0x100,
    ensures
        rgb(red, green, blue) / 0x1_0000 == red,
        rgb(red, green, blue) / 0x100 % 0x100 == green,
        rgb(red, green, blue) % 0x100 == blue,
        0 <= rgb(red, green, blue) < 0x100_0000,
{
}

proof fn lemma_mix_is_mean(c: int, a: int, background: int)
    requires
        0 <= c < 0x100,
        0 <= a < 0x100,
        0 <= background < 0x100,
    ensures
        is_mean(mix(c, a, background), c, a, background),
        0 <= mix(c, a, background) < 0x100,
{
    lemma_mix_between(c, a, background);
}

/// Every four bytes of `data` are a pixel of `pixels` over `background`: blue, green, red, and nothing.
pub open spec fn shows_pixels(data: Seq<u8>, pixels: Seq<u8>, background: int) -> bool {
    &&& data.len() == pixels.len()
    &&& forall|i: int|
        0 <= 4 * i && 4 * i + 3 < pixels.len() ==> #[trigger] shows_pixel(data, pixels, background, i)
}

/// Pixel number `i` of `data` is that of `pixels` over `background`.
pub open spec fn shows_pixel(data: Seq<u8>, pixels: Seq<u8>, background: int, i: int) -> bool {
    let a = pixels[4 * i + 3] as int;
    &&& is_mean(data[4 * i] as int, pixels[4 * i + 2] as int, a, background % 0x100)
    &&& is_mean(data[4 * i + 1] as int, pixels[4 * i + 1] as int, a, background / 0x100 % 0x100)
    &&& is_mean(data[4 * i + 2] as int, pixels[4 * i] as int, a, background / 0x1_0000 % 0x100)
    &&& data[4 * i + 3] == 0
}

/// The image data has a pixel for each pixel, in the same place.
pub proof fn image_data_shows_pixels(pixels: Seq<u8>, background: u32)
    requires
        pixels.len() % 4 == 0,
    ensures
        shows_pixels(image_data(pixels, background), pixels, background as int),
{
    let data = image_data(pixels, background);
    assert forall|i: int| 0 <= 4 * i && 4 * i + 3 < pixels.len() implies #[trigger] shows_pixel(
        data,
        pixels,
        background as int,
        i,
    ) by {
        let (r, g, b, a) = (pixels[4 * i], pixels[4 * i + 1], pixels[4 * i + 2], pixels[4 * i + 3]);
        blending_weighs_by_opacity(r, g, b, a, background);
        assert((4 * i) % 4 == 0 && (4 * i + 1) % 4 == 1 && (4 * i + 2) % 4 == 2 && (4 * i + 3) % 4
            == 3);
        let color: int = blended(r, g, b, a, background);
        assert(data[4 * i] == color_byte(color, 0));
        assert(data[4 * i + 1] == color_byte(color, 1));
        assert(data[4 * i + 2] == color_byte(color, 2));
        assert(data[4 * i + 3] == color_byte(color, 3));
    }
}

/// The pixels of an image at its own size are its own. At any other size they are those of its
/// thumbnail.
pub proof fn images_are_resized_if_they_must(dimensions: (u32, u32), pixels: Seq<u8>, size: (u16, u16))
    ensures
        dimensions.0 == size.0 && dimensions.1 == size.1 ==> pixels_at(dimensions, pixels, size)
            == pixels,
        dimensions.0 != size.0 || dimensions.1 != size.1 ==> pixels_at(dimensions, pixels, size)
            == thumbnail_of(pixels, dimensions.0, dimensions.1, size.0 as u32, size.1 as u32),
{
}

/// An image can be shown at its own size, and at any other one that fits in memory as long as a sum
/// over the pixels that become one fits in 32 bits. They are no more than the image has.
pub proof fn what_can_be_shown(dimensions: (u32, u32), size: (u16, u16), across: int, down: int)
    requires
        size.0 > 0,
        size.1 > 0,
        across == dimensions.0 || across == dimensions.0 as int / size.0 as int
            + dimensions.0 as int / 1_000_000 + 3,
        down == dimensions.1 || down == dimensions.1 as int / size.1 as int + dimensions.1 as int
            / 1_000_000 + 3,
    ensures
        dimensions.0 == size.0 && dimensions.1 == size.1 ==> can_show(dimensions, size),
        255 * (across * down) + across * down / 2 <= 0xffff_ffff && 4 * size.0 * size.1 <= isize::MAX
            ==> can_show(dimensions, size),
{
    let x: int = block_side(dimensions.0 as int, size.0 as int);
    let y: int = block_side(dimensions.1 as int, size.1 as int);
    lemma_block_side(dimensions.0 as int, size.0 as int);
    lemma_block_side(dimensions.1 as int, size.1 as int);
    assert(0 <= x * y <= across * down) by (nonlinear_arith)
        requires
            0 <= x <= across,
            0 <= y <= down,
    ;
}

proof fn lemma_block_side(n: int, to: int)
    requires
        n >= 0,
        to > 0,
    ensures
        0 <= block_side(n, to) <= n,
        block_side(n, to) <= n / to + n / 1_000_000 + 3,
        0 <= n / to <= block_side(n, to),
{
    assert(0 <= n / to <= n) by (nonlinear_arith)
        requires
            n >= 0,
            to > 0,
    ;
}

/// An image that can be shown at another size than its own fits in memory there, and the sum over the
/// pixels that become one fits in 32 bits.
pub proof fn what_cannot_be_shown(dimensions: (u32, u32), size: (u16, u16))
    requires
        can_show(dimensions, size),
        dimensions.0 != size.0 || dimensions.1 != size.1,
        size.0 > 0,
        size.1 > 0,
    ensures
        4 * size.0 * size.1 <= isize::MAX,
        ({
            let count = (dimensions.0 as int / size.0 as int) * (dimensions.1 as int / size.1 as int);
            255 * count + count / 2 <= 0xffff_ffff
        }),
{
    let (across, down): (int, int) = (
        dimensions.0 as int / size.0 as int,
        dimensions.1 as int / size.1 as int,
    );
    let x: int = block_side(dimensions.0 as int, size.0 as int);
    let y: int = block_side(dimensions.1 as int, size.1 as int);
    lemma_block_side(dimensions.0 as int, size.0 as int);
    lemma_block_side(dimensions.1 as int, size.1 as int);
    assert(across * down <= x * y) by (nonlinear_arith)
        requires
            0 <= across <= x,
            0 <= down <= y,
    ;
}

} // verus!
