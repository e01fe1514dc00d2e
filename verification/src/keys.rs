//! The keyboard.
use vstd::prelude::*;

verus! {

// From X11/keysymdef.h.
pub const XK_HOME: u32 = 0xff50;

pub const XK_LEFT: u32 = 0xff51;

pub const XK_RIGHT: u32 = 0xff53;

pub const XK_END: u32 = 0xff57;

pub const XK_ESCAPE: u32 = 0xff1b;

pub const XK_Q: u32 = 0x71;

/// Maps keycodes to keysyms, following the keyboard layout.
pub struct Keymap {
    pub min_keycode: u8,
    pub keysyms_per_keycode: u8,
    pub keysyms: Vec<u32>,
}

/// How many keycodes there are from `min` to `max`: as many as the layout is asked for.
pub fn keycode_count(min: u8, max: u8) -> (r: u8)
    requires
        min <= max,
        max - min < 255,
    ensures
        r == max - min + 1,
{
    max - min + 1
}

impl Keymap {
    /// The layout that a keyboard mapping from `min_keycode` on describes.
    pub fn new(min_keycode: u8, keysyms_per_keycode: u8, keysyms: Vec<u32>) -> (r: Keymap)
        ensures
            r == (Keymap { min_keycode, keysyms_per_keycode, keysyms }),
    {
        Keymap { min_keycode, keysyms_per_keycode, keysyms }
    }

    /// The first keysym of `keycode`, or zero if the layout has none.
    pub open spec fn keysym_of(self, keycode: u8) -> u32 {
        let i = (keycode - self.min_keycode) * self.keysyms_per_keycode;
        if keycode >= self.min_keycode && i < self.keysyms@.len() {
            self.keysyms@[i]
        } else {
            0
        }
    }

    /// The unshifted keysym of `keycode`.
    pub fn keysym(&self, keycode: u8) -> (r: u32)
        ensures
            r == self.keysym_of(keycode),
    {
        if keycode < self.min_keycode {
            return 0;
        }
        let row: usize = (keycode - self.min_keycode) as usize;
        proof {
            assert(0 <= row * self.keysyms_per_keycode <= 255 * 255) by (nonlinear_arith)
                requires
                    row <= 255,
                    self.keysyms_per_keycode <= 255,
            ;
        }
        let i: usize = row * self.keysyms_per_keycode as usize;
        if i < self.keysyms.len() {
            self.keysyms[i]
        } else {
            0
        }
    }
}

/// A layout lists the keysyms of each keycode, one keycode after another. The keysym of a keycode is
/// the first in its row. A keycode without a row has none.
pub proof fn keys_have_the_first_keysym_of_their_row(map: Keymap, rows: Seq<Seq<u32>>, keycode: u8)
    requires
        map.keysyms_per_keycode > 0,
        map.keysyms@ == rows.flatten(),
        forall|i: int|
            0 <= i < rows.len() ==> (#[trigger] rows[i]).len() == map.keysyms_per_keycode,
    ensures
        map.min_keycode <= keycode < map.min_keycode + rows.len() ==> map.keysym_of(keycode)
            == rows[keycode - map.min_keycode][0],
        keycode < map.min_keycode || keycode >= map.min_keycode + rows.len() ==> map.keysym_of(
            keycode,
        ) == 0,
{
    let n: nat = map.keysyms_per_keycode as nat;
    lemma_rows(rows, n);
    if keycode >= map.min_keycode {
        let i: int = keycode - map.min_keycode;
        if i < rows.len() {
            assert(i * n < rows.len() * n) by (nonlinear_arith)
                requires
                    i < rows.len(),
                    n > 0,
            ;
            assert(rows.flatten()[i * n] == rows[i][0]);
        } else {
            assert(i * n >= rows.len() * n) by (nonlinear_arith)
                requires
                    i >= rows.len(),
            ;
        }
    }
}

proof fn lemma_rows(rows: Seq<Seq<u32>>, n: nat)
    requires
        n > 0,
        forall|i: int| 0 <= i < rows.len() ==> (#[trigger] rows[i]).len() == n,
    ensures
        rows.flatten().len() == rows.len() * n,
        forall|i: int| 0 <= i < rows.len() ==> rows.flatten()[i * n] == #[trigger] rows[i][0],
    decreases rows.len(),
{
    if rows.len() > 0 {
        let rest = rows.drop_first();
        assert forall|i: int| 0 <= i < rest.len() implies (#[trigger] rest[i]).len() == n by {
            assert(rows[i + 1].len() == n);
        }
        lemma_rows(rest, n);
        let all = rows.flatten();
        assert(rows[0].len() == n);
        assert(all =~= rows[0] + rest.flatten());
        assert(rows.len() * n == n + rest.len() * n) by (nonlinear_arith)
            requires
                rows.len() == rest.len() + 1,
        ;
        assert forall|i: int| 0 <= i < rows.len() implies all[i * n] == #[trigger] rows[i][0] by {
            if i == 0 {
                assert(i * n == 0) by (nonlinear_arith)
                    requires
                        i == 0,
                ;
            } else {
                assert(i * n == n + (i - 1) * n && 0 <= (i - 1) * n && (i - 1) * n < rest.len() * n)
                    by (nonlinear_arith)
                    requires
                        1 <= i <= rest.len(),
                        n > 0,
                ;
                assert(rest.flatten()[(i - 1) * n] == rest[i - 1][0]);
            }
        }
    }
}

/// A layout with rows of no length has one keysym for all keycodes, if it has any.
pub proof fn keys_without_rows(map: Keymap, keycode: u8)
    requires
        map.keysyms_per_keycode == 0,
    ensures
        keycode >= map.min_keycode && map.keysyms@.len() > 0 ==> map.keysym_of(keycode)
            == map.keysyms@[0],
        keycode < map.min_keycode || map.keysyms@.len() == 0 ==> map.keysym_of(keycode) == 0,
{
    let i: int = (keycode - map.min_keycode) * map.keysyms_per_keycode;
    assert(i == 0) by (nonlinear_arith)
        requires
            i == (keycode - map.min_keycode) * map.keysyms_per_keycode,
            map.keysyms_per_keycode == 0,
    ;
}

/// A layout may end within a row. The keysyms of a keycode start as many rows behind those of the first
/// one as it is behind that.
pub proof fn keys_follow_one_another(map: Keymap, keycode: u8, start: int)
    requires
        map.min_keycode <= keycode,
        start == (keycode - map.min_keycode) * map.keysyms_per_keycode,
    ensures
        0 <= start < map.keysyms@.len() ==> map.keysym_of(keycode) == map.keysyms@[start],
        start >= map.keysyms@.len() ==> map.keysym_of(keycode) == 0,
{
}

} // verus!
