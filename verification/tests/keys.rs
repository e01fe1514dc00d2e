use agent_spy::keys::{keycode_count, Keymap};

#[test]
fn unshifted_keysyms() {
    let keymap = Keymap::new(8, 2, vec![0x61, 0x41, 0xff51, 0, 0xff53]);
    assert_eq!(keymap.keysym(8), 0x61);
    assert_eq!(keymap.keysym(9), 0xff51);
    assert_eq!(keymap.keysym(10), 0xff53);
}

#[test]
fn keycodes_without_keysyms() {
    let keymap = Keymap::new(8, 2, vec![0x61, 0x41]);
    assert_eq!(keymap.keysym(7), 0);
    assert_eq!(keymap.keysym(0), 0);
    assert_eq!(keymap.keysym(9), 0);
    assert_eq!(keymap.keysym(255), 0);
    assert_eq!(Keymap::new(8, 0, vec![5]).keysym(200), 5);
    assert_eq!(Keymap::new(8, 3, Vec::new()).keysym(8), 0);
}

#[test]
fn count_of_keycodes() {
    assert_eq!(keycode_count(8, 255), 248);
    assert_eq!(keycode_count(8, 8), 1);
    assert_eq!(keycode_count(1, 255), 255);
}
