use agent_spy::images::{choose_format, is_image, load, reject_empty, Choice, LoadError};
use agent_spy::path::FilePath;
use agent_spy::pixels::RgbaImage;

fn named(name: &[u8]) -> FilePath {
    FilePath { names: vec![b"tmp".to_vec(), name.to_vec()] }
}

#[test]
fn image_names() {
    for name in [
        "a.png", "a.apng", "a.jpg", "a.jpeg", "a.jfif", "a.gif", "a.bmp", "a.webp", "a.tif",
        "a.tiff", "a.tga", "a.ico", "a.hdr", "a.exr", "a.pbm", "a.pam", "a.ppm", "a.pgm", "a.pnm",
        "a.ff", "a.avif", "a.qoi", "A.PNG", "b.c.JpEg", "..png", "a b.png", "ü.png", "...gif",
    ] {
        assert!(is_image(&named(name.as_bytes())), "{name}");
    }
}

#[test]
fn other_names() {
    for name in [
        "", "a", "png", ".png", "a.", ".", "..", "a.txt", "a.dds", "a.pcx", "a.png.tmp", "a.pngx",
        "a.pn", "a.png ", "apng", "a.svg",
    ] {
        assert!(!is_image(&named(name.as_bytes())), "{name}");
    }
    assert!(!is_image(&FilePath { names: Vec::new() }));
}

#[test]
fn image_names_that_are_not_utf8() {
    assert!(is_image(&named(b"a\xff.png")));
    assert!(!is_image(&named(b"a.pn\xff")));
    assert!(!is_image(&named(b"a.png\xff")));
}

#[test]
fn only_the_name_of_the_file_counts() {
    let path = FilePath { names: vec![b"dir.png".to_vec(), b"notes".to_vec()] };
    assert!(!is_image(&path));
}

fn encoded(format: image::ImageFormat) -> Vec<u8> {
    let mut buffer = image::RgbaImage::new(3, 2);
    for (i, pixel) in buffer.pixels_mut().enumerate() {
        *pixel = image::Rgba([10 * i as u8, 200, 7, 255]);
    }
    let mut bytes = std::io::Cursor::new(Vec::new());
    buffer.write_to(&mut bytes, format).unwrap();
    bytes.into_inner()
}

fn check(image: RgbaImage) {
    assert_eq!(image.dimensions(), (3, 2));
    assert_eq!(image.pixels.len(), 4 * 3 * 2);
    for i in 0..6 {
        assert_eq!(image.pixels[4 * i..4 * i + 4], [10 * i as u8, 200, 7, 255]);
    }
}

#[test]
fn images_are_decoded() {
    check(load(&named(b"a.png"), &encoded(image::ImageFormat::Png)).ok().unwrap());
    check(load(&named(b"a.bmp"), &encoded(image::ImageFormat::Bmp)).ok().unwrap());
    check(load(&named(b"a.qoi"), &encoded(image::ImageFormat::Qoi)).ok().unwrap());
}

#[test]
fn the_content_decides_over_the_name() {
    check(load(&named(b"a.jpg"), &encoded(image::ImageFormat::Png)).ok().unwrap());
    check(load(&named(b"noname"), &encoded(image::ImageFormat::Png)).ok().unwrap());
    check(load(&FilePath { names: Vec::new() }, &encoded(image::ImageFormat::Png)).ok().unwrap());
}

#[test]
fn the_name_decides_if_the_content_does_not() {
    let tga = encoded(image::ImageFormat::Tga);
    check(load(&named(b"a.tga"), &tga).ok().unwrap());
    assert!(load(&named(b"a.png"), &tga).is_err());
    assert!(load(&named(b"a"), &tga).is_err());
}

#[test]
fn incomplete_files_fail_to_decode() {
    let png = encoded(image::ImageFormat::Png);
    assert!(load(&named(b"a.png"), &png[..png.len() / 2].to_vec()).is_err());
    assert!(load(&named(b"a.png"), &Vec::new()).is_err());
    assert!(load(&named(b"a.png"), &b"not an image".to_vec()).is_err());
}

fn reason(name: &[u8], content: &[u8]) -> String {
    match load(&named(name), &content.to_vec()) {
        Err(LoadError::Failed(reason)) => reason,
        Err(LoadError::NotText(_)) => panic!("not text"),
        Ok(_) => panic!("loaded"),
    }
}

#[test]
fn files_of_unknown_format_are_told_apart_by_their_names() {
    let content = b"not an image";
    for name in ["a.xyz", "a.png.tmp", "a.\u{fffd}\"", "noname", ".png"] {
        let expected = image::ImageFormat::from_path(name).unwrap_err().to_string();
        assert_eq!(reason(name.as_bytes(), content), expected);
    }
    assert!(reason(b"a.xyz", content).contains("xyz"));
    assert_ne!(reason(b"noname", content), reason(b"a.xyz", content));
    // A name that ends with a dot tells nothing.
    for name in ["a.", "a.png.", "..."] {
        assert_eq!(reason(name.as_bytes(), content), reason(b"noname", content));
    }
    match load(&FilePath { names: Vec::new() }, &content.to_vec()) {
        Err(LoadError::Failed(text)) => assert_eq!(text, reason(b"noname", content)),
        _ => panic!("another reason"),
    }
}

#[test]
fn extensions_that_are_not_text() {
    for (name, extension) in [(&b"a.pn\xff"[..], &b"pn\xff"[..]), (b"\xfe.\xff", b"\xff"), (b"a.png.\x80x", b"\x80x")] {
        match load(&named(name), &b"not an image".to_vec()) {
            Err(LoadError::NotText(bytes)) => assert_eq!(bytes, extension),
            _ => panic!("text"),
        }
        check(load(&named(name), &encoded(image::ImageFormat::Png)).ok().unwrap());
    }
    // Before the extension it does not matter.
    check(load(&named(b"\xff.tga"), &encoded(image::ImageFormat::Tga)).ok().unwrap());
}

fn chosen(guessed: Result<&str, &str>, name: &[u8]) -> String {
    match choose_format(guessed.map(str::to_string).map_err(str::to_string), &named(name)) {
        Choice::Format(format) => format,
        Choice::Unknown(reason) => format!("unknown: {reason}"),
        Choice::NotText(bytes) => format!("not text: {bytes:?}"),
    }
}

#[test]
fn formats_are_chosen_by_content_and_then_by_name() {
    assert_eq!(chosen(Ok("gif"), b"a.png"), "gif");
    assert_eq!(chosen(Ok("gif"), b"a.\xff"), "gif");
    for (name, format) in [
        ("a.PNG", "png"), ("a.apng", "png"), ("a.JPEG", "jpg"), ("a.jfif", "jpg"), ("a.tif", "tiff"),
        ("a.pnm", "pbm"), ("a.pam", "pbm"), ("a.gif", "gif"), ("a.dds", "dds"), ("a.b.QoI", "qoi"),
        ("a.ff", "ff"), ("a.exr", "exr"), ("a.hdr", "hdr"), ("a.ico", "ico"), ("a.tga", "tga"),
        ("a.bmp", "bmp"), ("a.webp", "webp"), ("a.avif", "avif"),
    ] {
        assert_eq!(chosen(Err("no idea"), name.as_bytes()), format);
    }
    for name in ["a", ".png", "a.", ""] {
        assert_eq!(chosen(Err("no idea"), name.as_bytes()), "unknown: no idea");
    }
    assert_eq!(chosen(Err("no idea"), b"a.x\xff"), "not text: [120, 255]");
    assert!(chosen(Err("no idea"), b"a.txt").contains("txt"));
}

#[test]
fn content_tells_the_format() {
    for (format, text) in [
        (image::ImageFormat::Png, "png"), (image::ImageFormat::Bmp, "bmp"), (image::ImageFormat::Qoi, "qoi"),
        (image::ImageFormat::Tiff, "tiff"), (image::ImageFormat::Gif, "gif"), (image::ImageFormat::WebP, "webp"),
    ] {
        assert_eq!(image::guess_format(&encoded(format)).unwrap().extensions_str()[0], text);
        check(load(&named(b"a.xyz"), &encoded(format)).ok().unwrap());
    }
}

#[test]
fn empty_images_are_rejected() {
    for (width, height) in [(0, 0), (0, 5), (5, 0)] {
        let image = RgbaImage { width, height, pixels: Vec::new() };
        assert_eq!(reject_empty(Ok(image)).err().unwrap(), "image is empty");
    }
    assert_eq!(reject_empty(Err("broken".to_string())).err().unwrap(), "broken");
    let image = RgbaImage { width: 1, height: 1, pixels: vec![1, 2, 3, 4] };
    assert_eq!(reject_empty(Ok(image)).ok().unwrap().pixels, [1, 2, 3, 4]);
}
