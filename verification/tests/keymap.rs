//! Finding keys in a keymap, and planning presses and releases.

use niri_input::bits::{count_ones, single_bit};
use niri_input::keymap::{
    lightest_mask, modifier_keycodes, resolve_keysym, Key, Keymap, Level,
};
use niri_input::plan::{build_plan, KeyState};

const SHIFT: u32 = 1;
const LOCK: u32 = 2;
const CONTROL: u32 = 4;
const MOD1: u32 = 8;
const MOD5: u32 = 0x80;

const CONTROL_L: u32 = 0xffe3;
const SHIFT_L: u32 = 0xffe1;
const CAPS_LOCK: u32 = 0xffe5;

fn level(syms: &[u32], masks: &[u32]) -> Level {
    Level { syms: syms.to_vec(), masks: masks.to_vec() }
}

fn key(code: u32, levels: Vec<Level>, held_mods: u32) -> Key {
    Key { code, levels, held_mods }
}

fn names() -> Vec<String> {
    ["Shift", "Lock", "Control", "Mod1", "Mod2", "Mod3", "Mod4", "Mod5"]
        .iter()
        .map(|name| name.to_string())
        .collect()
}

/// A small keymap: some letters, Return, and the modifiers.
fn keymap() -> Keymap {
    Keymap {
        keys: vec![
            key(8, vec![], 0),
            key(24, vec![level(&[0x71], &[0]), level(&[0x51], &[SHIFT, LOCK]), level(&[0x40], &[MOD5])], 0),
            key(26, vec![level(&[0x65], &[0]), level(&[0x45], &[SHIFT]), level(&[0x20ac], &[MOD5 | SHIFT, MOD5])], 0),
            key(27, vec![level(&[0x72], &[0]), level(&[0x52], &[SHIFT | MOD1])], 0),
            key(36, vec![level(&[0xff0d], &[])], 0),
            key(37, vec![level(&[CONTROL_L], &[0])], CONTROL),
            key(50, vec![level(&[SHIFT_L], &[0])], SHIFT),
            key(62, vec![level(&[0xffe2], &[0])], SHIFT),
            key(66, vec![level(&[CAPS_LOCK], &[0])], LOCK),
            key(92, vec![level(&[0xfe03], &[0])], MOD5),
            // A key of two keysyms at once, and one that activates two modifiers.
            key(93, vec![level(&[0x61, 0x62], &[0])], CONTROL | MOD1),
            // The same keysym as an earlier key.
            key(94, vec![level(&[0x72], &[0])], 0),
        ],
        mod_names: names(),
    }
}

fn down(code: u32) -> (u32, KeyState) {
    (code, KeyState::Pressed)
}

fn up(code: u32) -> (u32, KeyState) {
    (code, KeyState::Released)
}

#[test]
fn count_ones_agrees_with_std() {
    for mask in [0, 1, 2, 3, 0x80, 0xff, 0x8000_0000, 0xffff_ffff, 0x5555_5555] {
        assert_eq!(count_ones(mask), mask.count_ones(), "{mask:#x}");
    }
}

#[test]
fn single_bit_is_the_only_bit() {
    assert_eq!(single_bit(0), None);
    assert_eq!(single_bit(3), None);
    assert_eq!(single_bit(0xffff_ffff), None);
    for bit in 0..32 {
        assert_eq!(single_bit(1 << bit), Some(bit));
    }
}

#[test]
fn lightest_mask_has_the_fewest_modifiers() {
    assert_eq!(lightest_mask(&vec![]), 0);
    assert_eq!(lightest_mask(&vec![7]), 7);
    assert_eq!(lightest_mask(&vec![7, 3, 0x80]), 0x80);
    assert_eq!(lightest_mask(&vec![3, 0]), 0);
}

#[test]
fn lightest_mask_is_the_first_of_its_weight() {
    assert_eq!(lightest_mask(&vec![SHIFT, LOCK]), SHIFT);
    assert_eq!(lightest_mask(&vec![LOCK, SHIFT]), LOCK);
    assert_eq!(lightest_mask(&vec![7, 6, 5, 3]), 6);
}

#[test]
fn keysym_resolves_to_key_and_mask() {
    let keymap = keymap();
    assert_eq!(resolve_keysym(&keymap, 0x71), Some((24, 0)));
    assert_eq!(resolve_keysym(&keymap, 0x51), Some((24, SHIFT)));
    assert_eq!(resolve_keysym(&keymap, 0x40), Some((24, MOD5)));
    assert_eq!(resolve_keysym(&keymap, 0x20ac), Some((26, MOD5)));
    assert_eq!(resolve_keysym(&keymap, 0x52), Some((27, SHIFT | MOD1)));
}

#[test]
fn level_without_masks_needs_no_modifiers() {
    assert_eq!(resolve_keysym(&keymap(), 0xff0d), Some((36, 0)));
}

#[test]
fn first_key_wins() {
    assert_eq!(resolve_keysym(&keymap(), 0x72), Some((27, 0)));
}

#[test]
fn first_level_wins() {
    let keymap = Keymap {
        keys: vec![key(10, vec![level(&[1], &[3]), level(&[1], &[0])], 0)],
        mod_names: names(),
    };
    assert_eq!(resolve_keysym(&keymap, 1), Some((10, 3)));
}

#[test]
fn keysym_not_in_the_keymap_does_not_resolve() {
    assert_eq!(resolve_keysym(&keymap(), 0x3b1), None);
    // A level of several keysyms produces none of them alone.
    assert_eq!(resolve_keysym(&keymap(), 0x61), None);
}

#[test]
fn modifier_keys_skip_lock_and_keys_of_several_modifiers() {
    let codes = modifier_keycodes(&keymap());
    assert_eq!(codes.get(&0), Some(&50));
    assert_eq!(codes.get(&1), None);
    assert_eq!(codes.get(&2), Some(&37));
    assert_eq!(codes.get(&3), None);
    assert_eq!(codes.get(&7), Some(&92));
    assert_eq!(codes.len(), 3);
}

#[test]
fn lock_is_found_by_name_whatever_its_case() {
    let mut keymap = keymap();
    keymap.mod_names = vec!["LOCK".to_string(), "lock".to_string()];
    let codes = modifier_keycodes(&keymap);
    // The first modifier of that name is the one left out.
    assert_eq!(codes.get(&0), None);
    assert_eq!(codes.get(&1), Some(&66));
    keymap.mod_names = vec!["NumLock".to_string()];
    let codes = modifier_keycodes(&keymap);
    assert_eq!(codes.get(&0), Some(&50));
    assert_eq!(codes.get(&1), Some(&66));
}

#[test]
fn plain_key_is_pressed_and_released() {
    assert_eq!(build_plan(&keymap(), &[vec![0x71]]), vec![vec![down(24), up(24)]]);
}

#[test]
fn needed_modifiers_are_pressed_first_and_released_last() {
    assert_eq!(
        build_plan(&keymap(), &[vec![0x51]]),
        vec![vec![down(50), down(24), up(24), up(50)]],
    );
}

#[test]
fn chord_is_pressed_in_order_and_released_in_reverse() {
    assert_eq!(
        build_plan(&keymap(), &[vec![CONTROL_L, 0x72]]),
        vec![vec![down(37), down(27), up(27), up(37)]],
    );
    assert_eq!(
        build_plan(&keymap(), &[vec![CONTROL_L, 0x51]]),
        vec![vec![down(50), down(37), down(24), up(24), up(37), up(50)]],
    );
}

#[test]
fn modifier_needed_twice_is_pressed_once() {
    assert_eq!(
        build_plan(&keymap(), &[vec![0x51, 0x45, 0x20ac]]),
        vec![vec![
            down(50), down(92), down(24), down(26), down(26),
            up(26), up(26), up(24), up(92), up(50),
        ]],
    );
}

#[test]
fn modifiers_come_lowest_first_within_a_key() {
    let mut keymap = keymap();
    keymap.keys.push(key(95, vec![level(&[5], &[MOD5 | CONTROL | SHIFT])], 0));
    assert_eq!(
        build_plan(&keymap, &[vec![5]]),
        vec![vec![
            down(50), down(37), down(92), down(95), up(95), up(92), up(37), up(50),
        ]],
    );
}

#[test]
fn chord_that_cannot_be_typed_is_skipped() {
    let keymap = keymap();
    // A keysym that is not in the keymap, and a modifier that no key activates alone.
    let chords = [vec![0x71], vec![CONTROL_L, 0x3b1], vec![0x52], vec![0x65]];
    assert_eq!(
        build_plan(&keymap, &chords),
        vec![vec![down(24), up(24)], vec![down(26), up(26)]],
    );
    assert_eq!(
        build_plan(&keymap, &chords),
        build_plan(&keymap, &[vec![0x71], vec![0x65]]),
    );
}

#[test]
fn level_behind_lock_alone_cannot_be_typed() {
    let keymap = Keymap {
        keys: vec![key(10, vec![level(&[1], &[LOCK])], 0), key(66, vec![], LOCK)],
        mod_names: names(),
    };
    assert_eq!(build_plan(&keymap, &[vec![1]]), Vec::<Vec<(u32, KeyState)>>::new());
}

#[test]
fn lock_key_asked_for_by_name_is_a_key_like_any_other() {
    assert_eq!(build_plan(&keymap(), &[vec![CAPS_LOCK]]), vec![vec![down(66), up(66)]]);
}

#[test]
fn highest_modifier_bit_is_handled() {
    let keymap = Keymap {
        keys: vec![
            key(10, vec![level(&[1], &[0x8000_0000])], 0),
            key(11, vec![], 0x8000_0000),
        ],
        mod_names: vec![],
    };
    assert_eq!(
        build_plan(&keymap, &[vec![1]]),
        vec![vec![down(11), down(10), up(10), up(11)]],
    );
}

#[test]
fn empty_chord_has_no_events() {
    assert_eq!(build_plan(&keymap(), &[vec![]]), vec![Vec::<(u32, KeyState)>::new()]);
    assert_eq!(build_plan(&keymap(), &[]), Vec::<Vec<(u32, KeyState)>>::new());
}

#[test]
fn plans_of_two_lists_of_chords_join() {
    let keymap = keymap();
    let first = [vec![0x71], vec![0x3b1]];
    let second = [vec![0x51], vec![CONTROL_L, 0x72]];
    let mut joined = build_plan(&keymap, &first);
    joined.extend(build_plan(&keymap, &second));
    let both: Vec<Vec<u32>> = first.iter().chain(second.iter()).cloned().collect();
    assert_eq!(build_plan(&keymap, &both), joined);
}

#[test]
fn plan_leaves_no_key_held() {
    let chords = [vec![0x51], vec![CONTROL_L, SHIFT_L, 0x20ac], vec![0x52], vec![0x71]];
    let mut held: Vec<u32> = Vec::new();
    for events in build_plan(&keymap(), &chords) {
        let n = events.len();
        for i in 0..n {
            assert_eq!(events[i].0, events[n - 1 - i].0);
            assert_ne!(events[i].1, events[n - 1 - i].1);
        }
        for (code, state) in events {
            match state {
                KeyState::Pressed => held.push(code),
                KeyState::Released => assert_eq!(held.pop(), Some(code)),
            }
        }
    }
    assert_eq!(held, Vec::<u32>::new());
}

#[test]
fn smallest_keycode_is_taken() {
    let keymap = keymap();
    for i in 1..keymap.keys.len() {
        assert!(keymap.keys[i - 1].code < keymap.keys[i].code);
    }
    // 27 and 94 produce the keysym; 50 and 62 activate Shift.
    assert_eq!(resolve_keysym(&keymap, 0x72), Some((27, 0)));
    assert_eq!(modifier_keycodes(&keymap).get(&0), Some(&50));
}
