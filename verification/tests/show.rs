//! Showing things on outputs other than the focused one.

use niri_input::keymap::Keymap;
use niri_input::layout::{Layout, Output, OutputName, Window, Workspace, WorkspaceReference};
use niri_input::show::ShowError;
use niri_input::state::{Effect, State};

const LEFT: Output = Output { id: 1 };
const RIGHT: Output = Output { id: 2 };
const BEAMER: Output = Output { id: 3 };
const UNPLUGGED: Output = Output { id: 4 };

fn name(name: &str, output: Output) -> OutputName {
    OutputName { name: name.to_string(), output }
}

fn workspace(reference: WorkspaceReference, output: Option<Output>, index: usize) -> Workspace {
    Workspace { reference, output, index }
}

/// Three known outputs, of which `outputs` are driven, and `active` is focused.
fn state(outputs: &[Output], active: Option<Output>) -> State {
    let layout = Layout {
        outputs: outputs.to_vec(),
        active_output: active,
        windows: vec![
            Window { id: 10, output: Some(LEFT) },
            Window { id: 20, output: Some(RIGHT) },
            Window { id: 30, output: None },
        ],
        names: vec![
            name("DP-1", LEFT),
            name("dp-1", LEFT),
            name("DP-2", RIGHT),
            name("HDMI-A-1", BEAMER),
            name("gone", UNPLUGGED),
        ],
        workspaces: vec![
            workspace(WorkspaceReference::Name("mail".to_string()), Some(RIGHT), 3),
            workspace(WorkspaceReference::Name("code".to_string()), Some(LEFT), 1),
            workspace(WorkspaceReference::Name("old".to_string()), Some(UNPLUGGED), 0),
            workspace(WorkspaceReference::Index(2), None, 1),
            workspace(WorkspaceReference::Id(2), Some(RIGHT), 0),
        ],
    };
    let keymap = Keymap { keys: vec![], mod_names: vec![] };
    State::new(layout, keymap)
}

fn two_outputs() -> State {
    state(&[LEFT, RIGHT], Some(LEFT))
}

fn redraw(output: Output) -> Effect {
    Effect::QueueRedraw { output }
}

#[test]
fn window_on_another_output_is_shown() {
    let mut state = two_outputs();
    assert_eq!(state.show_window(20), Ok(()));
    assert_eq!(
        state.take_effects(),
        vec![Effect::ShowWindow { output: RIGHT, window: 20 }, redraw(RIGHT)],
    );
}

#[test]
fn window_on_the_focused_output_is_refused() {
    let mut state = two_outputs();
    assert_eq!(state.show_window(10), Err(ShowError::FocusedOutput));
    assert_eq!(state.take_effects(), vec![]);
}

#[test]
fn missing_window_is_refused() {
    let mut state = two_outputs();
    assert_eq!(state.show_window(11), Err(ShowError::NoWindow));
    // So is one that is on no output.
    assert_eq!(state.show_window(30), Err(ShowError::NoWindow));
    assert_eq!(state.take_effects(), vec![]);
}

#[test]
fn without_a_focused_output_every_window_is_shown() {
    let mut state = state(&[LEFT, RIGHT], None);
    assert_eq!(state.show_window(10), Ok(()));
    assert_eq!(
        state.take_effects(),
        vec![Effect::ShowWindow { output: LEFT, window: 10 }, redraw(LEFT)],
    );
}

#[test]
fn workspace_on_another_output_is_shown() {
    let mut state = two_outputs();
    assert_eq!(state.show_workspace(WorkspaceReference::Name("mail".to_string())), Ok(()));
    assert_eq!(state.show_workspace(WorkspaceReference::Id(2)), Ok(()));
    assert_eq!(
        state.take_effects(),
        vec![
            Effect::SwitchWorkspace { output: RIGHT, index: 3 },
            redraw(RIGHT),
            Effect::SwitchWorkspace { output: RIGHT, index: 0 },
            redraw(RIGHT),
        ],
    );
}

#[test]
fn workspace_on_the_focused_output_is_refused() {
    let mut state = two_outputs();
    assert_eq!(
        state.show_workspace(WorkspaceReference::Name("code".to_string())),
        Err(ShowError::FocusedOutput),
    );
    // A bare index is one on the focused output.
    assert_eq!(
        state.show_workspace(WorkspaceReference::Index(2)),
        Err(ShowError::FocusedOutput),
    );
    assert_eq!(state.take_effects(), vec![]);
}

#[test]
fn unknown_workspace_is_refused() {
    let mut state = two_outputs();
    for reference in [
        WorkspaceReference::Name("Mail".to_string()),
        WorkspaceReference::Index(3),
        WorkspaceReference::Id(3),
    ] {
        assert_eq!(state.show_workspace(reference), Err(ShowError::UnknownWorkspace));
    }
    assert_eq!(state.take_effects(), vec![]);
}

#[test]
fn workspace_on_an_output_without_monitor_asks_for_nothing() {
    let mut state = two_outputs();
    assert_eq!(state.show_workspace(WorkspaceReference::Name("old".to_string())), Ok(()));
    assert_eq!(state.take_effects(), vec![]);
}

#[test]
fn columns_scroll_on_the_only_other_output() {
    let mut state = two_outputs();
    assert_eq!(state.show_column_left(None), Ok(()));
    assert_eq!(state.show_column_right(None), Ok(()));
    assert_eq!(
        state.take_effects(),
        vec![
            Effect::FocusColumnLeft { output: RIGHT },
            redraw(RIGHT),
            Effect::FocusColumnRight { output: RIGHT },
            redraw(RIGHT),
        ],
    );
}

#[test]
fn workspaces_switch_on_the_only_other_output() {
    let mut state = two_outputs();
    assert_eq!(state.show_workspace_up(None), Ok(()));
    assert_eq!(state.show_workspace_down(None), Ok(()));
    assert_eq!(
        state.take_effects(),
        vec![
            Effect::SwitchWorkspaceUp { output: RIGHT },
            redraw(RIGHT),
            Effect::SwitchWorkspaceDown { output: RIGHT },
            redraw(RIGHT),
        ],
    );
}

#[test]
fn named_output_is_picked() {
    let mut state = state(&[LEFT, RIGHT, BEAMER], Some(LEFT));
    assert_eq!(state.show_column_right(Some("HDMI-A-1".to_string())), Ok(()));
    assert_eq!(state.show_workspace_down(Some("DP-2".to_string())), Ok(()));
    assert_eq!(
        state.take_effects(),
        vec![
            Effect::FocusColumnRight { output: BEAMER },
            redraw(BEAMER),
            Effect::SwitchWorkspaceDown { output: RIGHT },
            redraw(RIGHT),
        ],
    );
}

/// Tries all four directional actions with the same output name.
fn directional(state: &mut State, name: Option<&str>) -> Vec<Result<(), ShowError>> {
    let output = || name.map(|name| name.to_string());
    vec![
        state.show_column_left(output()),
        state.show_column_right(output()),
        state.show_workspace_up(output()),
        state.show_workspace_down(output()),
    ]
}

#[test]
fn focused_output_is_refused_by_name() {
    let mut state = two_outputs();
    for name in ["DP-1", "dp-1"] {
        assert_eq!(
            directional(&mut state, Some(name)),
            vec![Err(ShowError::FocusedOutput); 4],
        );
    }
    assert_eq!(state.take_effects(), vec![]);
}

#[test]
fn unknown_output_name_is_refused() {
    let mut state = two_outputs();
    assert_eq!(directional(&mut state, Some("VGA-1")), vec![Err(ShowError::NoOutput); 4]);
    assert_eq!(directional(&mut state, Some("")), vec![Err(ShowError::NoOutput); 4]);
    assert_eq!(state.take_effects(), vec![]);
}

#[test]
fn no_other_output_is_refused() {
    let mut alone = state(&[LEFT], Some(LEFT));
    assert_eq!(directional(&mut alone, None), vec![Err(ShowError::NoOtherOutput); 4]);
    let mut none = state(&[], None);
    assert_eq!(directional(&mut none, None), vec![Err(ShowError::NoOtherOutput); 4]);
    assert_eq!(alone.take_effects(), vec![]);
}

#[test]
fn several_other_outputs_are_refused() {
    let mut three = state(&[LEFT, RIGHT, BEAMER], Some(LEFT));
    assert_eq!(directional(&mut three, None), vec![Err(ShowError::SeveralOtherOutputs); 4]);
    // Without a focused output both are others.
    let mut unfocused = state(&[LEFT, RIGHT], None);
    assert_eq!(directional(&mut unfocused, None), vec![Err(ShowError::SeveralOtherOutputs); 4]);
    assert_eq!(three.take_effects(), vec![]);
}

#[test]
fn output_without_monitor_asks_for_nothing() {
    let mut state = two_outputs();
    assert_eq!(directional(&mut state, Some("gone")), vec![Ok(()); 4]);
    assert_eq!(state.take_effects(), vec![]);
}

#[test]
fn resolving_an_output() {
    let state = two_outputs();
    assert_eq!(state.resolve_show_output(None), Ok(RIGHT));
    assert_eq!(state.resolve_show_output(Some("DP-2".to_string())), Ok(RIGHT));
    assert_eq!(
        state.resolve_show_output(Some("DP-1".to_string())),
        Err(ShowError::FocusedOutput),
    );
}

#[test]
fn nothing_is_ever_asked_of_the_focused_output() {
    for active in [LEFT, RIGHT, BEAMER] {
        let mut state = state(&[LEFT, RIGHT, BEAMER], Some(active));
        for id in [10, 20, 30, 40] {
            let _ = state.show_window(id);
        }
        for reference in ["mail", "code", "old"] {
            let _ = state.show_workspace(WorkspaceReference::Name(reference.to_string()));
        }
        for name in [None, Some("DP-1"), Some("DP-2"), Some("HDMI-A-1"), Some("gone")] {
            directional(&mut state, name);
        }
        for effect in state.take_effects() {
            let output = match effect {
                Effect::ShowWindow { output, .. } => output,
                Effect::SwitchWorkspace { output, .. } => output,
                Effect::SwitchWorkspaceUp { output } => output,
                Effect::SwitchWorkspaceDown { output } => output,
                Effect::FocusColumnLeft { output } => output,
                Effect::FocusColumnRight { output } => output,
                Effect::QueueRedraw { output } => output,
                _ => panic!("no keys are sent"),
            };
            assert_ne!(output, active);
        }
    }
}

#[test]
fn first_match_counts() {
    let mut state = two_outputs();
    state.layout.windows.push(Window { id: 10, output: Some(RIGHT) });
    state.layout.names.push(name("DP-1", RIGHT));
    assert_eq!(state.show_window(10), Err(ShowError::FocusedOutput));
    assert_eq!(
        state.resolve_show_output(Some("DP-1".to_string())),
        Err(ShowError::FocusedOutput),
    );
}
