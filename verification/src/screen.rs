//! What the X display has to offer.
use vstd::prelude::*;

verus! {

/// A way in which pixels stand for colors.
#[derive(Clone, Copy, Debug, PartialEq, Eq, Structural)]
pub struct VisualType {
    pub visual_id: u32,
    pub class: u8,
    pub red_mask: u32,
    pub green_mask: u32,
    pub blue_mask: u32,
}

/// The visuals for one number of bits per pixel.
pub struct Depth {
    pub visuals: Vec<VisualType>,
}

/// A screen of the X display.
pub struct Screen {
    pub root_visual: u32,
    pub root_depth: u8,
    pub width_in_pixels: u16,
    pub height_in_pixels: u16,
    pub allowed_depths: Vec<Depth>,
}

/// The class of visuals whose pixels hold the color itself.
pub const TRUE_COLOR: u8 = 4;

/// The first of `visuals` with this number.
pub open spec fn find_visual(visuals: Seq<VisualType>, id: u32) -> Option<VisualType>
    decreases visuals.len(),
{
    if visuals.len() == 0 {
        None
    } else if visuals[0].visual_id == id {
        Some(visuals[0])
    } else {
        find_visual(visuals.skip(1), id)
    }
}

/// The first visual with this number at any of `depths`.
pub open spec fn find_at_depths(depths: Seq<Depth>, id: u32) -> Option<VisualType>
    decreases depths.len(),
{
    if depths.len() == 0 {
        None
    } else {
        match find_visual(depths[0].visuals@, id) {
            Some(visual) => Some(visual),
            None => find_at_depths(depths.skip(1), id),
        }
    }
}

/// Pixels of the root window are 24 bits that read 0xRRGGBB.
pub open spec fn is_supported(screen: Screen) -> bool {
    match find_at_depths(screen.allowed_depths@, screen.root_visual) {
        Some(visual) => {
            &&& screen.root_depth == 24
            &&& visual.class == TRUE_COLOR
            &&& visual.red_mask == 0xff0000
            &&& visual.green_mask == 0xff00
            &&& visual.blue_mask == 0xff
        },
        None => false,
    }
}

fn first_visual(visuals: &Vec<VisualType>, id: u32) -> (r: Option<VisualType>)
    ensures
        r == find_visual(visuals@, id),
{
    let mut i: usize = 0;
    assert(visuals@.skip(0) =~= visuals@);
    while i < visuals.len()
        invariant
            i <= visuals@.len(),
            find_visual(visuals@, id) == find_visual(visuals@.skip(i as int), id),
        decreases visuals@.len() - i,
    {
        if visuals[i].visual_id == id {
            return Some(visuals[i]);
        }
        assert(visuals@.skip(i as int).skip(1) =~= visuals@.skip(i + 1));
        i = i + 1;
    }
    None
}

fn root_visual(screen: &Screen) -> (r: Option<VisualType>)
    ensures
        r == find_at_depths(screen.allowed_depths@, screen.root_visual),
{
    let depths = &screen.allowed_depths;
    let mut i: usize = 0;
    assert(depths@.skip(0) =~= depths@);
    while i < depths.len()
        invariant
            i <= depths@.len(),
            depths@ == screen.allowed_depths@,
            find_at_depths(depths@, screen.root_visual) == find_at_depths(
                depths@.skip(i as int),
                screen.root_visual,
            ),
        decreases depths@.len() - i,
    {
        let visual = first_visual(&depths[i].visuals, screen.root_visual);
        if visual.is_some() {
            return visual;
        }
        assert(depths@.skip(i as int).skip(1) =~= depths@.skip(i + 1));
        i = i + 1;
    }
    None
}

/// Pixels are sent as 0xRRGGBB, which needs the usual 24-bit TrueColor visual.
pub fn check_visual(screen: &Screen) -> (r: Result<(), String>)
    ensures
        r is Ok <==> is_supported(*screen),
        r matches Err(e) ==> e@ == "unsupported X display: need a 24-bit TrueColor visual"@,
{
    match root_visual(screen) {
        Some(v) => {
            if screen.root_depth == 24 && v.class == TRUE_COLOR && v.red_mask == 0xff0000
                && v.green_mask == 0xff00 && v.blue_mask == 0xff {
                return Ok(());
            }
        },
        None => {},
    }
    Err("unsupported X display: need a 24-bit TrueColor visual".to_owned())
}

/// The size of the window at first: 1024 by 768, or less if the screen is smaller.
pub fn window_size(screen: &Screen) -> (r: (u16, u16))
    ensures
        r.0 == if screen.width_in_pixels < 1024 {
            screen.width_in_pixels
        } else {
            1024
        },
        r.1 == if screen.height_in_pixels < 768 {
            screen.height_in_pixels
        } else {
            768
        },
        r.0 <= 1024 && r.0 <= screen.width_in_pixels,
        r.1 <= 768 && r.1 <= screen.height_in_pixels,
        r.0 == 1024 || r.0 == screen.width_in_pixels,
        r.1 == 768 || r.1 == screen.height_in_pixels,
{
    let width: u16 = if screen.width_in_pixels < 1024 {
        screen.width_in_pixels
    } else {
        1024
    };
    let height: u16 = if screen.height_in_pixels < 768 {
        screen.height_in_pixels
    } else {
        768
    };
    (width, height)
}

/// Visual number `v` at depth number `d` is the first one with the number of the root visual.
pub open spec fn is_root_visual(screen: Screen, d: int, v: int) -> bool {
    let depths = screen.allowed_depths@;
    &&& 0 <= d < depths.len()
    &&& 0 <= v < depths[d].visuals@.len()
    &&& depths[d].visuals@[v].visual_id == screen.root_visual
    &&& forall|j: int|
        0 <= j < v ==> (#[trigger] depths[d].visuals@[j]).visual_id != screen.root_visual
    &&& forall|i: int, j: int|
        0 <= i < d && 0 <= j < depths[i].visuals@.len() ==> (
        #[trigger] depths[i].visuals@[j]).visual_id != screen.root_visual
}

/// A screen is supported if and only if its root window has 24 bits per pixel that are the color itself,
/// with red in the third byte, green in the second and blue in the first. If several visuals have the
/// number of the root visual, the first one counts.
pub proof fn root_visual_decides(screen: Screen, d: int, v: int)
    requires
        is_root_visual(screen, d, v),
    ensures
        ({
            let visual = screen.allowed_depths@[d].visuals@[v];
            is_supported(screen) <==> screen.root_depth == 24 && visual.class == 4
                && visual.red_mask == 0xff0000 && visual.green_mask == 0xff00 && visual.blue_mask
                == 0xff
        }),
{
    let depths = screen.allowed_depths@;
    lemma_first_at_depths(depths, screen.root_visual, d, v);
}

proof fn lemma_first_visual(visuals: Seq<VisualType>, id: u32, v: int)
    requires
        0 <= v < visuals.len(),
        visuals[v].visual_id == id,
        forall|j: int| 0 <= j < v ==> (#[trigger] visuals[j]).visual_id != id,
    ensures
        find_visual(visuals, id) == Some(visuals[v]),
    decreases visuals.len(),
{
    if v > 0 {
        let rest = visuals.skip(1);
        assert(visuals[0].visual_id != id);
        assert forall|j: int| 0 <= j < v - 1 implies (#[trigger] rest[j]).visual_id != id by {
            assert(visuals[j + 1].visual_id != id);
        }
        lemma_first_visual(rest, id, v - 1);
    }
}

proof fn lemma_no_visual(visuals: Seq<VisualType>, id: u32)
    requires
        forall|j: int| 0 <= j < visuals.len() ==> (#[trigger] visuals[j]).visual_id != id,
    ensures
        find_visual(visuals, id) is None,
    decreases visuals.len(),
{
    if visuals.len() > 0 {
        let rest = visuals.skip(1);
        assert forall|j: int| 0 <= j < rest.len() implies (#[trigger] rest[j]).visual_id != id by {
            assert(visuals[j + 1].visual_id != id);
        }
        lemma_no_visual(rest, id);
    }
}

proof fn lemma_first_at_depths(depths: Seq<Depth>, id: u32, d: int, v: int)
    requires
        0 <= d < depths.len(),
        0 <= v < depths[d].visuals@.len(),
        depths[d].visuals@[v].visual_id == id,
        forall|j: int| 0 <= j < v ==> (#[trigger] depths[d].visuals@[j]).visual_id != id,
        forall|i: int, j: int|
            0 <= i < d && 0 <= j < depths[i].visuals@.len() ==> (
            #[trigger] depths[i].visuals@[j]).visual_id != id,
    ensures
        find_at_depths(depths, id) == Some(depths[d].visuals@[v]),
    decreases depths.len(),
{
    if d == 0 {
        lemma_first_visual(depths[0].visuals@, id, v);
    } else {
        let rest = depths.skip(1);
        lemma_no_visual(depths[0].visuals@, id);
        assert(rest[d - 1] == depths[d]);
        assert forall|i: int, j: int| 0 <= i < d - 1 && 0 <= j < rest[i].visuals@.len() implies (
        #[trigger] rest[i].visuals@[j]).visual_id != id by {
            assert(rest[i] == depths[i + 1]);
            assert(depths[i + 1].visuals@[j].visual_id != id);
        }
        lemma_first_at_depths(rest, id, d - 1, v);
    }
}

/// A screen that does not list its root visual is not supported.
pub proof fn root_visual_is_needed(screen: Screen)
    requires
        forall|i: int, j: int|
            0 <= i < screen.allowed_depths@.len() && 0 <= j
                < screen.allowed_depths@[i].visuals@.len() ==> (
            #[trigger] screen.allowed_depths@[i].visuals@[j]).visual_id != screen.root_visual,
    ensures
        !is_supported(screen),
{
    lemma_none_at_depths(screen.allowed_depths@, screen.root_visual);
}

proof fn lemma_none_at_depths(depths: Seq<Depth>, id: u32)
    requires
        forall|i: int, j: int|
            0 <= i < depths.len() && 0 <= j < depths[i].visuals@.len() ==> (
            #[trigger] depths[i].visuals@[j]).visual_id != id,
    ensures
        find_at_depths(depths, id) is None,
    decreases depths.len(),
{
    if depths.len() > 0 {
        let rest = depths.skip(1);
        lemma_no_visual(depths[0].visuals@, id);
        assert forall|i: int, j: int| 0 <= i < rest.len() && 0 <= j < rest[i].visuals@.len() implies (
        #[trigger] rest[i].visuals@[j]).visual_id != id by {
            assert(rest[i] == depths[i + 1]);
            assert(depths[i + 1].visuals@[j].visual_id != id);
        }
        lemma_none_at_depths(rest, id);
    }
}

} // verus!
