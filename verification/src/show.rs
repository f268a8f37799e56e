//! Non-focusing "show" actions.
//!
//! These actions change what a non-focused output displays, without moving the real keyboard
//! focus. Keyboard focus follows the active monitor, so the actions only ever act on an output
//! that is not the focused one; each refuses when its target is the focused output.

use crate::layout::{
    has_monitor, law_output_named, law_window_with_id, law_workspace_referred, other_outputs, output_named, window_with_id, workspace_referred, Layout, Output,
    Window, WorkspaceReference, WorkspaceReferenceView,
};
use crate::state::{Effect, State};
use vstd::prelude::*;

verus! {

/// Why a show action was refused.
#[derive(Clone, Copy, Debug, PartialEq, Eq, Structural)]
pub enum ShowError {
    /// There is no window with the given id on an output.
    NoWindow,
    /// The reference stands for no workspace.
    UnknownWorkspace,
    /// No output goes by the given name.
    NoOutput,
    /// The target is on the focused output, or is that output.
    FocusedOutput,
    /// There is no output but the focused one.
    NoOtherOutput,
    /// There is more than one output besides the focused one.
    SeveralOtherOutputs,
}

/// A show action.
pub enum ShowRequest {
    Window(u64),
    Workspace(WorkspaceReferenceView),
    Column { output: Option<Seq<char>>, right: bool },
    WorkspaceSwitch { output: Option<Seq<char>>, down: bool },
}

/// The contents of an optional name.
pub open spec fn name_contents(name: Option<String>) -> Option<Seq<char>> {
    match name {
        Some(name) => Some(name@),
        None => None,
    }
}

/// The output that a directional action acts on: the one that goes by the given name, else the
/// only one that is not the focused one. It is never the focused one.
pub open spec fn show_output(layout: Layout, name: Option<Seq<char>>) -> Result<
    Output,
    ShowError,
> {
    match name {
        Some(name) => match output_named(layout, name) {
            None => Err(ShowError::NoOutput),
            Some(output) => if layout.active_output == Some(output) {
                Err(ShowError::FocusedOutput)
            } else {
                Ok(output)
            },
        },
        None => {
            let others = other_outputs(layout);
            if others.len() == 0 {
                Err(ShowError::NoOtherOutput)
            } else if others.len() == 1 {
                Ok(others[0])
            } else {
                Err(ShowError::SeveralOtherOutputs)
            }
        },
    }
}

/// `effect` and a redraw, where a monitor drives the output.
pub open spec fn on_monitor(layout: Layout, output: Output, effect: Effect) -> Seq<Effect> {
    if has_monitor(layout, output) {
        seq![effect, Effect::QueueRedraw { output }]
    } else {
        seq![]
    }
}

/// What a show action asks for, or why it is refused.
pub open spec fn shown(layout: Layout, request: ShowRequest) -> Result<Seq<Effect>, ShowError> {
    match request {
        ShowRequest::Window(id) => match window_with_id(layout, id) {
            Some(window) => match window.output {
                Some(output) => if layout.active_output == Some(output) {
                    Err(ShowError::FocusedOutput)
                } else {
                    Ok(
                        seq![
                            Effect::ShowWindow { output, window: id },
                            Effect::QueueRedraw { output },
                        ],
                    )
                },
                None => Err(ShowError::NoWindow),
            },
            None => Err(ShowError::NoWindow),
        },
        ShowRequest::Workspace(reference) => match workspace_referred(layout, reference) {
            None => Err(ShowError::UnknownWorkspace),
            Some((None, _)) => Err(ShowError::FocusedOutput),
            Some((Some(output), index)) => if layout.active_output == Some(output) {
                Err(ShowError::FocusedOutput)
            } else {
                Ok(on_monitor(layout, output, Effect::SwitchWorkspace { output, index }))
            },
        },
        ShowRequest::Column { output, right } => match show_output(layout, output) {
            Err(error) => Err(error),
            Ok(output) => Ok(
                on_monitor(
                    layout,
                    output,
                    if right {
                        Effect::FocusColumnRight { output }
                    } else {
                        Effect::FocusColumnLeft { output }
                    },
                ),
            ),
        },
        ShowRequest::WorkspaceSwitch { output, down } => match show_output(layout, output) {
            Err(error) => Err(error),
            Ok(output) => Ok(
                on_monitor(
                    layout,
                    output,
                    if down {
                        Effect::SwitchWorkspaceDown { output }
                    } else {
                        Effect::SwitchWorkspaceUp { output }
                    },
                ),
            ),
        },
    }
}

/// Whether a show action took `before` to `after` as it should: what it asks for was added, or
/// it was refused and nothing changed.
pub open spec fn answered(
    before: State,
    after: State,
    request: ShowRequest,
    result: Result<(), ShowError>,
) -> bool {
    match shown(before.layout, request) {
        Ok(effects) => result == Ok::<(), ShowError>(()) && after.extends(before, effects),
        Err(error) => result == Err::<(), ShowError>(error) && after == before,
    }
}

impl State {
    /// Shows a window on its output without focusing it: makes its workspace the active one on
    /// its output and scrolls the window into view. Refused if the window does not exist or is
    /// on the focused output.
    pub fn show_window(&mut self, id: u64) -> (result: Result<(), ShowError>)
        ensures
            answered(*old(self), *final(self), ShowRequest::Window(id), result),
    {
        let output: Output = match self.layout.find_window(id) {
            Some(window) => match window.output {
                Some(output) => output,
                None => return Err(ShowError::NoWindow),
            },
            None => return Err(ShowError::NoWindow),
        };
        if self.layout.is_active(output) {
            return Err(ShowError::FocusedOutput);
        }
        self.effects.push(Effect::ShowWindow { output, window: id });
        self.effects.push(Effect::QueueRedraw { output });
        assert(self.effects@ =~= old(self).effects@ + seq![
            Effect::ShowWindow { output, window: id },
            Effect::QueueRedraw { output },
        ]);
        Ok(())
    }

    /// Shows a workspace on its output without focusing it. Refused if the reference is unknown
    /// or resolves to the focused output.
    pub fn show_workspace(&mut self, reference: WorkspaceReference) -> (result: Result<
        (),
        ShowError,
    >)
        ensures
            answered(*old(self), *final(self), ShowRequest::Workspace(reference@), result),
    {
        let (output, index) = match self.layout.find_workspace(&reference) {
            Some(found) => found,
            None => return Err(ShowError::UnknownWorkspace),
        };
        let output: Output = match output {
            Some(output) => output,
            None => return Err(ShowError::FocusedOutput),
        };
        if self.layout.is_active(output) {
            return Err(ShowError::FocusedOutput);
        }
        self.ask_monitor(output, Effect::SwitchWorkspace { output, index });
        Ok(())
    }

    /// Scrolls an output other than the focused one to the column on the left.
    pub fn show_column_left(&mut self, output: Option<String>) -> (result: Result<(), ShowError>)
        ensures
            answered(
                *old(self),
                *final(self),
                (ShowRequest::Column { output: name_contents(output), right: false }),
                result,
            ),
    {
        self.show_column(output, false)
    }

    /// Scrolls an output other than the focused one to the column on the right.
    pub fn show_column_right(&mut self, output: Option<String>) -> (result: Result<(), ShowError>)
        ensures
            answered(
                *old(self),
                *final(self),
                (ShowRequest::Column { output: name_contents(output), right: true }),
                result,
            ),
    {
        self.show_column(output, true)
    }

    /// Scrolls an output other than the focused one by a column.
    fn show_column(&mut self, output: Option<String>, right: bool) -> (result: Result<
        (),
        ShowError,
    >)
        ensures
            answered(
                *old(self),
                *final(self),
                (ShowRequest::Column { output: name_contents(output), right }),
                result,
            ),
    {
        let output: Output = match self.resolve_show_output(output) {
            Ok(output) => output,
            Err(error) => return Err(error),
        };
        if right {
            self.ask_monitor(output, Effect::FocusColumnRight { output });
        } else {
            self.ask_monitor(output, Effect::FocusColumnLeft { output });
        }
        Ok(())
    }

    /// Shows the workspace above on an output other than the focused one.
    pub fn show_workspace_up(&mut self, output: Option<String>) -> (result: Result<(), ShowError>)
        ensures
            answered(
                *old(self),
                *final(self),
                (ShowRequest::WorkspaceSwitch { output: name_contents(output), down: false }),
                result,
            ),
    {
        self.show_workspace_switch(output, false)
    }

    /// Shows the workspace below on an output other than the focused one.
    pub fn show_workspace_down(&mut self, output: Option<String>) -> (result: Result<
        (),
        ShowError,
    >)
        ensures
            answered(
                *old(self),
                *final(self),
                (ShowRequest::WorkspaceSwitch { output: name_contents(output), down: true }),
                result,
            ),
    {
        self.show_workspace_switch(output, true)
    }

    /// Shows the workspace above or below on an output other than the focused one.
    fn show_workspace_switch(&mut self, output: Option<String>, down: bool) -> (result: Result<
        (),
        ShowError,
    >)
        ensures
            answered(
                *old(self),
                *final(self),
                (ShowRequest::WorkspaceSwitch { output: name_contents(output), down }),
                result,
            ),
    {
        let output: Output = match self.resolve_show_output(output) {
            Ok(output) => output,
            Err(error) => return Err(error),
        };
        if down {
            self.ask_monitor(output, Effect::SwitchWorkspaceDown { output });
        } else {
            self.ask_monitor(output, Effect::SwitchWorkspaceUp { output });
        }
        Ok(())
    }

    /// Resolves which output a directional show action should act on. With an explicit name, looks
    /// it up; otherwise picks the unique output that is not the focused one. Refused if the output
    /// cannot be determined unambiguously or would be the focused output.
    pub fn resolve_show_output(&self, output: Option<String>) -> (found: Result<
        Output,
        ShowError,
    >)
        ensures
            found == show_output(self.layout, name_contents(output)),
    {
        match output {
            Some(name) => match self.layout.output_by_name(name.as_str()) {
                None => Err(ShowError::NoOutput),
                Some(output) => if self.layout.is_active(output) {
                    Err(ShowError::FocusedOutput)
                } else {
                    Ok(output)
                },
            },
            None => {
                let others: Vec<Output> = self.layout.inactive_outputs();
                if others.len() == 0 {
                    Err(ShowError::NoOtherOutput)
                } else if others.len() == 1 {
                    Ok(others[0])
                } else {
                    Err(ShowError::SeveralOtherOutputs)
                }
            },
        }
    }

    /// Asks for `effect` and a redraw, where a monitor drives the output.
    fn ask_monitor(&mut self, output: Output, effect: Effect)
        ensures
            final(self).extends(*old(self), on_monitor(old(self).layout, output, effect)),
    {
        if self.layout.is_driven(output) {
            self.effects.push(effect);
            self.effects.push(Effect::QueueRedraw { output });
        }
        assert(self.effects@ =~= old(self).effects@ + on_monitor(
            old(self).layout,
            output,
            effect,
        ));
    }
}

/// What a show action asks for is on one output, which is not the focused one: one action, and
/// then a redraw of that output, or nothing at all.
pub proof fn law_show_leaves_focused_output_alone(layout: Layout, request: ShowRequest)
    requires
        shown(layout, request) is Ok,
    ensures
        ({
            let effects = shown(layout, request)->Ok_0;
            effects.len() > 0 ==> {
                &&& effects.len() == 2
                &&& effects[0].output() is Some
                &&& effects[0].output() != layout.active_output
                &&& effects[0] !is QueueRedraw
                &&& effects[1] == (Effect::QueueRedraw { output: effects[0].output()->0 })
            }
        }),
{
    lemma_shown_output(layout, request);
}

/// An output to show something on is not the focused one.
proof fn lemma_show_output(layout: Layout, name: Option<Seq<char>>)
    ensures
        show_output(layout, name) matches Ok(output) ==> layout.active_output != Some(output),
{
    if name is None && other_outputs(layout).len() == 1 {
        let wanted = |output: Output| layout.active_output != Some(output);
        layout.outputs@.lemma_filter_pred(wanted, 0);
    }
}

/// What a directional action asks for is not on the focused output.
proof fn lemma_shown_output(layout: Layout, request: ShowRequest)
    ensures
        shown(layout, request) matches Ok(effects) ==> forall|i: int|
            0 <= i < effects.len() ==> (#[trigger] effects[i]).output() is Some
                && effects[i].output() != layout.active_output,
{
    match request {
        ShowRequest::Column { output, .. } => lemma_show_output(layout, output),
        ShowRequest::WorkspaceSwitch { output, .. } => lemma_show_output(layout, output),
        _ => {},
    }
}

/// What the outputs display once the given effects were performed, where `step` says what an
/// effect makes of what its own output displays.
pub open spec fn displayed<D>(
    step: spec_fn(Effect, D) -> D,
    displays: Map<Output, D>,
    effects: Seq<Effect>,
) -> Map<Output, D>
    decreases effects.len(),
{
    if effects.len() == 0 {
        displays
    } else {
        let before = displayed(step, displays, effects.drop_last());
        match effects.last().output() {
            Some(output) => before.insert(output, step(effects.last(), before[output])),
            None => before,
        }
    }
}

/// Effects on other outputs leave what an output displays as it is.
proof fn lemma_display_kept<D>(
    step: spec_fn(Effect, D) -> D,
    displays: Map<Output, D>,
    effects: Seq<Effect>,
    output: Output,
)
    requires
        forall|i: int|
            0 <= i < effects.len() ==> (#[trigger] effects[i]).output() != Some(output),
    ensures
        displayed(step, displays, effects).contains_key(output) == displays.contains_key(output),
        displayed(step, displays, effects)[output] == displays[output],
    decreases effects.len(),
{
    if effects.len() > 0 {
        let rest = effects.drop_last();
        assert forall|i: int| 0 <= i < rest.len() implies (#[trigger] rest[i]).output() != Some(
            output,
        ) by {
            assert(rest[i] == effects[i]);
        }
        lemma_display_kept(step, displays, rest, output);
        assert(effects[effects.len() - 1].output() != Some(output));
    }
}

/// Whatever a show action does to its output, the focused output displays what it did before, so
/// that the focused window stays where it is.
pub proof fn law_focused_output_displays_the_same<D>(
    layout: Layout,
    request: ShowRequest,
    step: spec_fn(Effect, D) -> D,
    displays: Map<Output, D>,
    focused: Output,
)
    requires
        layout.active_output == Some(focused),
        shown(layout, request) is Ok,
    ensures
        ({
            let after = displayed(step, displays, shown(layout, request)->Ok_0);
            &&& after.contains_key(focused) == displays.contains_key(focused)
            &&& after[focused] == displays[focused]
        }),
{
    lemma_shown_output(layout, request);
    lemma_display_kept(step, displays, shown(layout, request)->Ok_0, focused);
}

/// A window on the focused output is refused.
pub proof fn law_window_on_focused_output_is_refused(layout: Layout, id: u64, window: Window)
    requires
        window_with_id(layout, id) == Some(window),
        window.output is Some,
        window.output == layout.active_output,
    ensures
        shown(layout, ShowRequest::Window(id)) == Err::<Seq<Effect>, ShowError>(
            ShowError::FocusedOutput,
        ),
{
}

/// A workspace on the focused output is refused, whether the reference names that output or, as a
/// bare index does, stands for the focused one.
pub proof fn law_workspace_on_focused_output_is_refused(
    layout: Layout,
    reference: WorkspaceReferenceView,
    output: Option<Output>,
    index: usize,
)
    requires
        workspace_referred(layout, reference) == Some((output, index)),
        output is None || output == layout.active_output,
    ensures
        shown(layout, ShowRequest::Workspace(reference)) == Err::<Seq<Effect>, ShowError>(
            ShowError::FocusedOutput,
        ),
{
}

/// The focused output is refused under its own name, for every directional action.
pub proof fn law_focused_output_by_name_is_refused(layout: Layout, name: Seq<char>, flag: bool)
    requires
        output_named(layout, name) is Some,
        output_named(layout, name) == layout.active_output,
    ensures
        shown(layout, (ShowRequest::Column { output: Some(name), right: flag })) == Err::<
            Seq<Effect>,
            ShowError,
        >(ShowError::FocusedOutput),
        shown(layout, (ShowRequest::WorkspaceSwitch { output: Some(name), down: flag })) == Err::<
            Seq<Effect>,
            ShowError,
        >(ShowError::FocusedOutput),
{
}

/// A part of a sequence without repeats has none either.
proof fn lemma_filter_keeps_distinct(s: Seq<Output>, wanted: spec_fn(Output) -> bool)
    requires
        s.no_duplicates(),
    ensures
        s.filter(wanted).no_duplicates(),
    decreases s.len(),
{
    reveal(Seq::filter);
    if s.len() > 0 {
        let rest = s.drop_last();
        lemma_filter_keeps_distinct(rest, wanted);
        if rest.filter(wanted).contains(s.last()) {
            rest.lemma_filter_contains_rev(wanted, s.last());
        }
    }
}

/// Without a name, an output is picked exactly where it is the only one that is not focused.
pub proof fn law_unnamed_output_is_unambiguous(layout: Layout, output: Output)
    requires
        layout.outputs@.no_duplicates(),
    ensures
        show_output(layout, None) == Ok::<Output, ShowError>(output) <==> {
            &&& has_monitor(layout, output)
            &&& layout.active_output != Some(output)
            &&& forall|other: Output| #[trigger]
                has_monitor(layout, other) && layout.active_output != Some(other) ==> other
                    == output
        },
{
    let wanted = |o: Output| layout.active_output != Some(o);
    let outputs = layout.outputs@;
    let others = other_outputs(layout);
    assert(others == outputs.filter(wanted));
    assert forall|o: Output| others.contains(o) <==> #[trigger] has_monitor(layout, o) && wanted(
        o,
    ) by {
        if others.contains(o) {
            let i = choose|i: int| 0 <= i < others.len() && others[i] == o;
            outputs.lemma_filter_pred(wanted, i);
            outputs.lemma_filter_contains_rev(wanted, o);
        }
        if outputs.contains(o) && wanted(o) {
            let i = choose|i: int| 0 <= i < outputs.len() && outputs[i] == o;
            outputs.lemma_filter_contains(wanted, i);
        }
    }
    lemma_filter_keeps_distinct(outputs, wanted);
    assert(others.contains(output) <==> has_monitor(layout, output) && wanted(output));
    if others.len() >= 1 {
        assert(others.contains(others[0]));
        assert(has_monitor(layout, others[0]));
    }
    if others.len() >= 2 {
        assert(others.contains(others[1]));
        assert(has_monitor(layout, others[1]));
    }
}

/// The two directional actions pick and refuse outputs alike, in both directions.
pub proof fn law_directions_agree(layout: Layout, name: Option<Seq<char>>, right: bool, down: bool)
    ensures
        ({
            let column = shown(layout, ShowRequest::Column { output: name, right });
            let switch = shown(layout, ShowRequest::WorkspaceSwitch { output: name, down });
            match show_output(layout, name) {
                Err(error) => column == Err::<Seq<Effect>, ShowError>(error) && switch == Err::<
                    Seq<Effect>,
                    ShowError,
                >(error),
                Ok(output) => column is Ok && switch is Ok && (has_monitor(layout, output) ==> {
                    &&& column->Ok_0[0].output() == Some(output)
                    &&& switch->Ok_0[0].output() == Some(output)
                }),
            }
        }),
{
}

/// The window shown is the one asked for, on its own output: the first window with the id decides,
/// it is refused only where it is on no output or on the focused one, and on every other output
/// it is shown, whatever other windows there are.
pub proof fn law_asked_window_is_shown(layout: Layout, id: u64, i: int)
    requires
        0 <= i < layout.windows@.len(),
        layout.windows@[i].id == id,
        forall|j: int| 0 <= j < i ==> (#[trigger] layout.windows@[j]).id != id,
    ensures
        shown(layout, ShowRequest::Window(id)) == match layout.windows@[i].output {
            None => Err::<Seq<Effect>, ShowError>(ShowError::NoWindow),
            Some(output) => if layout.active_output == Some(output) {
                Err(ShowError::FocusedOutput)
            } else {
                Ok(
                    seq![
                        Effect::ShowWindow { output, window: id },
                        Effect::QueueRedraw { output },
                    ],
                )
            },
        },
{
    law_window_with_id(layout, id);
}

/// An id that no window has is refused.
pub proof fn law_missing_window_is_refused(layout: Layout, id: u64)
    requires
        forall|j: int| 0 <= j < layout.windows@.len() ==> (#[trigger] layout.windows@[j]).id != id,
    ensures
        shown(layout, ShowRequest::Window(id)) == Err::<Seq<Effect>, ShowError>(
            ShowError::NoWindow,
        ),
{
    law_window_with_id(layout, id);
}

/// What is asked for on an output is asked for exactly where a monitor drives it, with a redraw.
pub proof fn law_monitor_is_asked(layout: Layout, output: Output, effect: Effect)
    ensures
        (exists|i: int| 0 <= i < layout.outputs@.len() && #[trigger] layout.outputs@[i] == output)
            ==> on_monitor(layout, output, effect) == seq![
            effect,
            Effect::QueueRedraw { output },
        ],
        (forall|i: int| 0 <= i < layout.outputs@.len() ==> #[trigger] layout.outputs@[i] != output)
            ==> on_monitor(layout, output, effect) == Seq::<Effect>::empty(),
{
}

/// The workspace shown is the one that the reference stands for: its first entry decides, it is
/// refused only where it is on the focused output, and else the output is switched to its index.
pub proof fn law_asked_workspace_is_shown(
    layout: Layout,
    reference: WorkspaceReferenceView,
    i: int,
)
    requires
        0 <= i < layout.workspaces@.len(),
        layout.workspaces@[i].reference@ == reference,
        forall|j: int|
            0 <= j < i ==> (#[trigger] layout.workspaces@[j]).reference@ != reference,
    ensures
        shown(layout, ShowRequest::Workspace(reference)) == match layout.workspaces@[i].output {
            None => Err::<Seq<Effect>, ShowError>(ShowError::FocusedOutput),
            Some(output) => if layout.active_output == Some(output) {
                Err(ShowError::FocusedOutput)
            } else if layout.outputs@.contains(output) {
                Ok(
                    seq![
                        Effect::SwitchWorkspace { output, index: layout.workspaces@[i].index },
                        Effect::QueueRedraw { output },
                    ],
                )
            } else {
                Ok(seq![])
            },
        },
{
    law_workspace_referred(layout, reference);
}

/// A reference that no entry has is refused.
pub proof fn law_unknown_workspace_is_refused(layout: Layout, reference: WorkspaceReferenceView)
    requires
        forall|j: int|
            0 <= j < layout.workspaces@.len() ==> (#[trigger] layout.workspaces@[j]).reference@
                != reference,
    ensures
        shown(layout, ShowRequest::Workspace(reference)) == Err::<Seq<Effect>, ShowError>(
            ShowError::UnknownWorkspace,
        ),
{
    law_workspace_referred(layout, reference);
}

/// The output picked by name is the one that goes by the name: its first entry decides, and it is
/// refused only where it is the focused one.
pub proof fn law_named_output_is_picked(layout: Layout, name: Seq<char>, i: int)
    requires
        0 <= i < layout.names@.len(),
        layout.names@[i].name@ == name,
        forall|j: int| 0 <= j < i ==> (#[trigger] layout.names@[j]).name@ != name,
    ensures
        show_output(layout, Some(name)) == if layout.active_output == Some(
            layout.names@[i].output,
        ) {
            Err::<Output, ShowError>(ShowError::FocusedOutput)
        } else {
            Ok(layout.names@[i].output)
        },
{
    law_output_named(layout, name);
}

/// A name that no output goes by is refused.
pub proof fn law_unknown_name_is_refused(layout: Layout, name: Seq<char>)
    requires
        forall|j: int| 0 <= j < layout.names@.len() ==> (#[trigger] layout.names@[j]).name@ != name,
    ensures
        show_output(layout, Some(name)) == Err::<Output, ShowError>(ShowError::NoOutput),
{
    law_output_named(layout, name);
}

/// How many of the outputs are not focused.
proof fn lemma_other_outputs(outputs: Seq<Output>, active: Option<Output>)
    ensures
        ({
            let others = outputs.filter(|output: Output| active != Some(output));
            &&& others.len() == 0 <==> forall|i: int|
                0 <= i < outputs.len() ==> active == Some(#[trigger] outputs[i])
            &&& others.len() >= 2 <==> exists|i: int, j: int|
                0 <= i < j < outputs.len() && active != Some(#[trigger] outputs[i]) && active
                    != Some(#[trigger] outputs[j])
            &&& forall|i: int|
                others.len() == 1 && 0 <= i < outputs.len() && active != Some(
                    #[trigger] outputs[i],
                ) ==> others[0] == outputs[i]
        }),
    decreases outputs.len(),
{
    let wanted = |output: Output| active != Some(output);
    reveal(Seq::filter);
    if outputs.len() > 0 {
        let rest = outputs.drop_last();
        let before = rest.filter(wanted);
        let others = outputs.filter(wanted);
        lemma_other_outputs(rest, active);
        assert(forall|i: int| 0 <= i < rest.len() ==> rest[i] == #[trigger] outputs[i]);
        if before.len() >= 2 {
            let (i, j) = choose|i: int, j: int|
                0 <= i < j < rest.len() && active != Some(#[trigger] rest[i]) && active != Some(
                    #[trigger] rest[j],
                );
            assert(active != Some(outputs[i]) && active != Some(outputs[j]));
        }
        if before.len() == 1 {
            assert(exists|i: int| 0 <= i < rest.len() && active != Some(#[trigger] rest[i]));
            let i = choose|i: int| 0 <= i < rest.len() && active != Some(#[trigger] rest[i]);
            assert(active != Some(outputs[i]));
            assert(outputs[outputs.len() - 1] == outputs.last());
        }
        if exists|i: int, j: int|
            0 <= i < j < outputs.len() && active != Some(#[trigger] outputs[i]) && active != Some(
                #[trigger] outputs[j],
            ) {
            let (i, j) = choose|i: int, j: int|
                0 <= i < j < outputs.len() && active != Some(#[trigger] outputs[i]) && active
                    != Some(#[trigger] outputs[j]);
            assert(rest[i] == outputs[i]);
            if j < rest.len() {
                assert(rest[j] == outputs[j]);
            }
        }
        assert(outputs[outputs.len() - 1] == outputs.last());
    }
}

/// Without a name, the outcome goes by how many of the listed outputs are not the focused one:
/// none and several are refused, and the only one is picked.
pub proof fn law_only_other_output_is_picked(layout: Layout)
    ensures
        show_output(layout, None) == Err::<Output, ShowError>(ShowError::NoOtherOutput) <==> forall|
            i: int,
        |
            0 <= i < layout.outputs@.len() ==> layout.active_output == Some(
                #[trigger] layout.outputs@[i],
            ),
        show_output(layout, None) == Err::<Output, ShowError>(ShowError::SeveralOtherOutputs)
            <==> exists|i: int, j: int|
            0 <= i < j < layout.outputs@.len() && layout.active_output != Some(
                #[trigger] layout.outputs@[i],
            ) && layout.active_output != Some(#[trigger] layout.outputs@[j]),
        forall|i: int|
            0 <= i < layout.outputs@.len() && layout.active_output != Some(
                #[trigger] layout.outputs@[i],
            ) ==> show_output(layout, None) == Ok::<Output, ShowError>(layout.outputs@[i])
                || show_output(layout, None) == Err::<Output, ShowError>(
                ShowError::SeveralOtherOutputs,
            ),
        show_output(layout, None) matches Err(error) ==> error is NoOtherOutput || error
            is SeveralOtherOutputs,
{
    lemma_other_outputs(layout.outputs@, layout.active_output);
    let active = layout.active_output;
    assert((|output: Output| active != Some(output)) =~= (|output: Output|
        layout.active_output != Some(output)));
}

/// A directional action does what its name says on the output picked for it: columns go left or
/// right, workspaces up or down; where a monitor drives it there is a redraw, and else nothing.
pub proof fn law_directional_actions(layout: Layout, name: Option<Seq<char>>, output: Output)
    requires
        show_output(layout, name) == Ok::<Output, ShowError>(output),
    ensures
        layout.outputs@.contains(output) ==> {
            let redraw = Effect::QueueRedraw { output };
            &&& shown(layout, (ShowRequest::Column { output: name, right: false })) == Ok::<
                Seq<Effect>,
                ShowError,
            >(seq![Effect::FocusColumnLeft { output }, redraw])
            &&& shown(layout, (ShowRequest::Column { output: name, right: true })) == Ok::<
                Seq<Effect>,
                ShowError,
            >(seq![Effect::FocusColumnRight { output }, redraw])
            &&& shown(layout, (ShowRequest::WorkspaceSwitch { output: name, down: false })) == Ok::<
                Seq<Effect>,
                ShowError,
            >(seq![Effect::SwitchWorkspaceUp { output }, redraw])
            &&& shown(layout, (ShowRequest::WorkspaceSwitch { output: name, down: true })) == Ok::<
                Seq<Effect>,
                ShowError,
            >(seq![Effect::SwitchWorkspaceDown { output }, redraw])
        },
        forall|flag: bool|
            !layout.outputs@.contains(output) ==> #[trigger] shown(
                layout,
                (ShowRequest::Column { output: name, right: flag }),
            ) == Ok::<Seq<Effect>, ShowError>(seq![]),
        forall|flag: bool|
            !layout.outputs@.contains(output) ==> #[trigger] shown(
                layout,
                (ShowRequest::WorkspaceSwitch { output: name, down: flag }),
            ) == Ok::<Seq<Effect>, ShowError>(seq![]),
{
}

/// An answer is the outcome itself: what is asked for stands behind what was asked for before and
/// nothing else changes, or the refusal is handed back and nothing changes at all.
pub proof fn law_answered(
    before: State,
    after: State,
    request: ShowRequest,
    result: Result<(), ShowError>,
)
    requires
        answered(before, after, request, result),
    ensures
        shown(before.layout, request) matches Ok(effects) ==> {
            &&& result is Ok
            &&& after.layout == before.layout
            &&& after.keymap == before.keymap
            &&& after.effects@ == before.effects@ + effects
        },
        shown(before.layout, request) matches Err(error) ==> {
            &&& result == Err::<(), ShowError>(error)
            &&& after == before
        },
{
}

/// The contents of an optional name are those of the name, where there is one.
pub proof fn law_name_contents(name: Option<String>)
    ensures
        name matches Some(s) ==> name_contents(name) == Some(s@),
        name is None ==> name_contents(name) is None,
{
}

} // verus!
