use agent_spy::scale::fit;

/// The same in floating point.
fn float_fit((width, height): (u32, u32), area: (u16, u16)) -> (u16, u16) {
    let (area_w, area_h) = (f64::from(area.0.max(1)), f64::from(area.1.max(1)));
    let scale = (area_w / f64::from(width)).min(area_h / f64::from(height)).min(1.0);
    let scaled = |n: u32, max: f64| (f64::from(n) * scale).round().clamp(1.0, max) as u16;
    (scaled(width, area_w), scaled(height, area_h))
}

fn check(size: (u32, u32), area: (u16, u16)) {
    assert_eq!(fit(size, area), float_fit(size, area), "{size:?} in {area:?}");
}

#[test]
fn small_images_keep_their_size() {
    assert_eq!(fit((100, 50), (1024, 768)), (100, 50));
    assert_eq!(fit((1024, 768), (1024, 768)), (1024, 768));
    assert_eq!(fit((1, 1), (1, 1)), (1, 1));
}

#[test]
fn large_images_fill_one_direction() {
    assert_eq!(fit((2048, 768), (1024, 768)), (1024, 384));
    assert_eq!(fit((1024, 1536), (1024, 768)), (512, 768));
    assert_eq!(fit((4000, 3000), (1024, 768)), (1024, 768));
    assert_eq!(fit((3000, 1), (1000, 700)), (1000, 1));
}

#[test]
fn aspect_ratio_is_kept_up_to_rounding() {
    // 333 * 1000 / 1001 is 332.667.
    assert_eq!(fit((1001, 333), (1000, 1000)), (1000, 333));
    // 100 * 640 / 1920 is 33.333.
    assert_eq!(fit((1920, 100), (640, 480)), (640, 33));
}

#[test]
fn no_side_is_empty() {
    assert_eq!(fit((100_000, 1), (10, 10)), (10, 1));
    assert_eq!(fit((50, 50), (0, 0)), (1, 1));
    assert_eq!(fit((50, 50), (0, 100)), (1, 1));
    assert_eq!(fit((0, 0), (100, 100)), (1, 1));
    assert_eq!(fit((0, 400), (100, 100)), (1, 100));
    assert_eq!(fit((400, 0), (100, 100)), (100, 1));
}

#[test]
fn largest_sizes() {
    check((u32::MAX, u32::MAX), (u16::MAX, u16::MAX));
    check((u32::MAX, u32::MAX - 1), (u16::MAX, u16::MAX - 1));
    check((u32::MAX, 1), (1, u16::MAX));
    check((1, u32::MAX), (u16::MAX, 1));
    check((65536, 65536), (65535, 65535));
    assert_eq!(fit((u32::MAX, u32::MAX), (u16::MAX, u16::MAX)), (65535, 65535));
}

#[test]
fn ties_go_where_floating_point_takes_them() {
    // 49 * 3 / 98 is one and a half, and 49 / 98 is a half.
    check((98, 49), (1, 1000));
    check((98, 49), (3, 1000));
    for half in 1..2000u32 {
        for area in 1..40u16 {
            check((2 * half, half), (area, u16::MAX));
            check((half, 2 * half), (u16::MAX, area));
        }
    }
}

#[test]
fn agrees_with_floating_point_on_small_sizes() {
    for width in 0..90u32 {
        for height in 0..90u32 {
            for area in [(0, 0), (1, 1), (1, 7), (3, 5), (10, 10), (31, 17), (64, 48), (100, 2)] {
                check((width, height), area);
            }
        }
    }
}

#[test]
fn agrees_with_floating_point_on_scattered_sizes() {
    let mut state: u64 = 1;
    let mut next = || {
        state = state.wrapping_mul(6364136223846793005).wrapping_add(1442695040888963407);
        (state >> 33) as u32
    };
    for _ in 0..300_000 {
        let (a, b) = (next() % 33, next() % 33);
        let size = ((next() << 1) >> (a % 32), (next() << 1) >> (b % 32));
        let area = ((next() as u16) >> (next() % 16), (next() as u16) >> (next() % 16));
        check(size, area);
    }
}

#[test]
fn both_sides_are_treated_alike() {
    for width in (1..2000u32).step_by(7) {
        for height in (1..2000u32).step_by(11) {
            for area in [(1, 1), (3, 5), (31, 17), (640, 480), (1000, 2)] {
                let (w, h) = fit((width, height), area);
                assert_eq!(fit((height, width), (area.1, area.0)), (h, w));
            }
        }
    }
}

#[test]
fn larger_windows_never_show_less() {
    for size in [(98, 49), (49, 98), (1001, 333), (7, 2000), (65_537, 3), (u32::MAX, u32::MAX - 1), (0, 9)] {
        for other in [0, 1, 2, 48, 333, u16::MAX] {
            let (mut across, mut down) = ((1, 1), (1, 1));
            for side in 0..2100u16 {
                let (wider, taller) = (fit(size, (side, other)), fit(size, (other, side)));
                assert!(across.0 <= wider.0 && across.1 <= wider.1);
                assert!(down.0 <= taller.0 && down.1 <= taller.1);
                (across, down) = (wider, taller);
            }
        }
    }
}
