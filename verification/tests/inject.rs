//! Sending input to a window.

use niri_input::keymap::{Key, Keymap, Level};
use niri_input::keysyms::{Keysyms, Lookup};
use niri_input::layout::{Layout, Output, Window};
use niri_input::plan::KeyState;
use niri_input::segments::{SegmentError, Stop};
use niri_input::state::{Effect, State};
use xkeysym::Keysym;

fn keymap() -> Keymap {
    let plain = |code: u32, keysym: u32, held_mods: u32| Key {
        code,
        levels: vec![Level { syms: vec![keysym], masks: vec![0] }],
        held_mods,
    };
    Keymap {
        keys: vec![
            plain(36, 0xff0d, 0),
            plain(37, 0xffe3, 4),
            Key {
                code: 38,
                levels: vec![
                    Level { syms: vec![0x61], masks: vec![0] },
                    Level { syms: vec![0x41], masks: vec![1] },
                ],
                held_mods: 0,
            },
            plain(50, 0xffe1, 1),
        ],
        mod_names: vec!["Shift".to_string(), "Lock".to_string(), "Control".to_string()],
    }
}

fn state() -> State {
    let layout = Layout {
        outputs: vec![Output { id: 1 }],
        active_output: Some(Output { id: 1 }),
        windows: vec![
            Window { id: 5, output: Some(Output { id: 1 }) },
            Window { id: 6, output: None },
        ],
        names: vec![],
        workspaces: vec![],
    };
    State::new(layout, keymap())
}

/// What keysyms the names and characters used here stand for.
fn keyboard(lookup: &Lookup) -> u32 {
    match lookup {
        Lookup::Name(name) | Lookup::FoldedName(name) => match name.as_str() {
            "Control_L" => Keysym::Control_L.raw(),
            "Return" => Keysym::Return.raw(),
            "a" => Keysym::a.raw(),
            "b" => Keysym::b.raw(),
            _ => Keysym::NoSymbol.raw(),
        },
        Lookup::Char(c) => Keysym::from_char(*c).raw(),
    }
}

fn strings(segments: &[&str]) -> Vec<String> {
    segments.iter().map(|segment| segment.to_string()).collect()
}

fn down(code: u32) -> Effect {
    Effect::InjectorKey { code, state: KeyState::Pressed }
}

fn up(code: u32) -> Effect {
    Effect::InjectorKey { code, state: KeyState::Released }
}

#[test]
fn everything_is_sent_in_one_focus_cycle() {
    let mut state = state();
    assert_eq!(state.send_into_window(5, &strings(&["text:aA\n", "key:ctrl+a"]), &keyboard), Ok(()));
    assert_eq!(
        state.take_effects(),
        vec![
            Effect::InjectorFocus { window: 5 },
            down(38), up(38),
            down(50), down(38), up(38), up(50),
            down(36), up(36),
            down(37), down(38), up(38), up(37),
            Effect::InjectorUnfocus,
        ],
    );
    assert_eq!(state.take_effects(), vec![]);
}

#[test]
fn window_without_an_output_can_be_typed_into() {
    let mut state = state();
    assert_eq!(state.send_into_window(6, &strings(&["text:a"]), &keyboard), Ok(()));
    assert_eq!(
        state.take_effects(),
        vec![Effect::InjectorFocus { window: 6 }, down(38), up(38), Effect::InjectorUnfocus],
    );
}

#[test]
fn malformed_segment_sends_nothing() {
    for (segment, error) in [
        ("bad", SegmentError::NoSeparator),
        ("nope:a", SegmentError::UnknownKind),
        ("key:hyper+a", SegmentError::UnknownCombo),
        ("key:", SegmentError::UnknownCombo),
    ] {
        let mut state = state();
        assert_eq!(
            state.send_into_window(5, &strings(&["text:a", segment, "text:a"]), &keyboard),
            Err(Stop::Malformed(error)),
        );
        assert_eq!(state.take_effects(), vec![]);
    }
}

#[test]
fn malformed_segment_comes_before_a_missing_window() {
    let mut state = state();
    assert_eq!(
        state.send_into_window(99, &strings(&["bad"]), &keyboard),
        Err(Stop::Malformed(SegmentError::NoSeparator)),
    );
}

#[test]
fn missing_window_gets_nothing() {
    let mut state = state();
    assert_eq!(state.send_into_window(99, &strings(&["text:a"]), &keyboard), Err(Stop::NoWindow));
    assert_eq!(state.take_effects(), vec![]);
}

#[test]
fn no_chords_ask_for_nothing() {
    let mut state = state();
    for segments in [vec![], vec!["text:"], vec!["text:\u{fdd0}"]] {
        // Not even the window is looked for.
        assert_eq!(state.send_into_window(99, &strings(&segments), &keyboard), Ok(()));
    }
    assert_eq!(state.take_effects(), vec![]);
}

#[test]
fn chords_that_cannot_be_typed_ask_for_nothing() {
    let mut state = state();
    assert_eq!(state.send_into_window(5, &strings(&["text:b", "key:ctrl+b"]), &keyboard), Ok(()));
    assert_eq!(state.take_effects(), vec![]);
}

#[test]
fn chord_that_cannot_be_typed_leaves_the_others() {
    let mut state = state();
    assert_eq!(state.send_into_window(5, &strings(&["text:aba"]), &keyboard), Ok(()));
    assert_eq!(
        state.take_effects(),
        vec![
            Effect::InjectorFocus { window: 5 },
            down(38), up(38), down(38), up(38),
            Effect::InjectorUnfocus,
        ],
    );
}

#[test]
fn unanswered_question_sends_nothing_until_answered() {
    let mut state = state();
    let mut keysyms = Keysyms::new();
    keysyms.insert(Lookup::Char('a'), 0x61);
    let segments = strings(&["text:ac"]);
    assert_eq!(state.send_answered(5, &segments, &keysyms), Err(Stop::Ask(Lookup::Char('c'))));
    assert_eq!(state.effects, vec![]);
    keysyms.insert(Lookup::Char('c'), 0xff0d);
    assert_eq!(state.send_answered(5, &segments, &keysyms), Ok(()));
    assert_eq!(
        state.take_effects(),
        vec![
            Effect::InjectorFocus { window: 5 },
            down(38), up(38), down(36), up(36),
            Effect::InjectorUnfocus,
        ],
    );
}

#[test]
fn given_answers_are_what_is_sent() {
    // Another keyboard library, another keysym.
    let mut state = state();
    let result = state.send_into_window(5, &strings(&["text:c"]), &|_: &Lookup| 0xff0d);
    assert_eq!(result, Ok(()));
    assert_eq!(
        state.take_effects(),
        vec![Effect::InjectorFocus { window: 5 }, down(36), up(36), Effect::InjectorUnfocus],
    );
}

#[test]
fn keys_of_two_lists_of_segments_join() {
    let keys = |segments: &[&str]| -> Vec<Effect> {
        let mut state = state();
        assert_eq!(state.send_into_window(5, &strings(segments), &keyboard), Ok(()));
        let effects = state.take_effects();
        effects.into_iter().filter(|effect| matches!(effect, Effect::InjectorKey { .. })).collect()
    };
    let mut joined = keys(&["text:aA", "text:b"]);
    joined.extend(keys(&["key:ctrl+a"]));
    assert_eq!(keys(&["text:aA", "text:b", "key:ctrl+a"]), joined);
}

#[test]
fn chords_can_be_injected_directly() {
    let mut state = state();
    assert_eq!(state.inject_into_window(5, &[vec![0x41], vec![0x62]]), Ok(()));
    assert_eq!(
        state.take_effects(),
        vec![
            Effect::InjectorFocus { window: 5 },
            down(50), down(38), up(38), up(50),
            Effect::InjectorUnfocus,
        ],
    );
    assert_eq!(state.inject_into_window(99, &[vec![0x41]]), Err(Stop::NoWindow));
    assert_eq!(state.inject_into_window(5, &[]), Ok(()));
    assert_eq!(state.take_effects(), vec![]);
}

#[test]
fn effects_add_up_until_taken() {
    let mut state = state();
    assert_eq!(state.send_into_window(5, &strings(&["text:a"]), &keyboard), Ok(()));
    assert_eq!(state.send_into_window(6, &strings(&["text:a"]), &keyboard), Ok(()));
    let effects = state.take_effects();
    assert_eq!(effects.len(), 8);
    assert_eq!(effects[0], Effect::InjectorFocus { window: 5 });
    assert_eq!(effects[4], Effect::InjectorFocus { window: 6 });
}

#[test]
fn sending_chords_looks_for_the_window_only_if_there_are_any() {
    let mut state = state();
    assert_eq!(state.send_chords(99, &[]), Ok(()));
    assert_eq!(state.send_chords(99, &[vec![0x61]]), Err(Stop::NoWindow));
    assert_eq!(state.take_effects(), vec![]);
    assert_eq!(state.send_chords(5, &[vec![0x61]]), Ok(()));
    assert_eq!(
        state.take_effects(),
        vec![Effect::InjectorFocus { window: 5 }, down(38), up(38), Effect::InjectorUnfocus],
    );
}
