//! The compositor as requests see it, and what they ask it to do.

use crate::keymap::Keymap;
use crate::layout::{Layout, Output};
use crate::plan::KeyState;
use vstd::prelude::*;

verus! {

/// Something that the compositor is asked to do.
#[derive(Clone, Copy, Debug, PartialEq, Eq, Structural)]
pub enum Effect {
    /// Make the window's workspace the active one on its output, and scroll the window into view.
    ShowWindow { output: Output, window: u64 },
    /// Make the workspace at `index` the active one on the output.
    SwitchWorkspace { output: Output, index: usize },
    /// Make the workspace above the active one the active one on the output.
    SwitchWorkspaceUp { output: Output },
    /// Make the workspace below the active one the active one on the output.
    SwitchWorkspaceDown { output: Output },
    /// Go one column to the left on the output's active workspace.
    FocusColumnLeft { output: Output },
    /// Go one column to the right on the output's active workspace.
    FocusColumnRight { output: Output },
    /// Draw the output anew.
    QueueRedraw { output: Output },
    /// Give the window the keyboard focus of the injector seat.
    InjectorFocus { window: u64 },
    /// Forward a key to the window that the injector seat has in focus.
    InjectorKey { code: u32, state: KeyState },
    /// Take the keyboard focus of the injector seat away.
    InjectorUnfocus,
}

impl Effect {
    /// The output that the effect acts on. Those on the injector seat act on none.
    pub open spec fn output(self) -> Option<Output> {
        match self {
            Effect::ShowWindow { output, .. } => Some(output),
            Effect::SwitchWorkspace { output, .. } => Some(output),
            Effect::SwitchWorkspaceUp { output } => Some(output),
            Effect::SwitchWorkspaceDown { output } => Some(output),
            Effect::FocusColumnLeft { output } => Some(output),
            Effect::FocusColumnRight { output } => Some(output),
            Effect::QueueRedraw { output } => Some(output),
            Effect::InjectorFocus { .. } => None,
            Effect::InjectorKey { .. } => None,
            Effect::InjectorUnfocus => None,
        }
    }
}

/// What requests are decided on, and the effects they have asked for so far.
#[derive(Debug)]
pub struct State {
    /// The layout.
    pub layout: Layout,
    /// The keymap of the injector seat.
    pub keymap: Keymap,
    /// The effects asked for and not taken yet, oldest first.
    pub effects: Vec<Effect>,
}

impl State {
    /// Whether `self` is `before` with `effects` asked for on top, and nothing else changed.
    pub open spec fn extends(self, before: State, effects: Seq<Effect>) -> bool {
        &&& self.layout == before.layout
        &&& self.keymap == before.keymap
        &&& self.effects@ == before.effects@ + effects
    }

    /// A state in which nothing was asked for yet.
    pub fn new(layout: Layout, keymap: Keymap) -> (state: State)
        ensures
            state.layout == layout,
            state.keymap == keymap,
            state.effects@ == Seq::<Effect>::empty(),
    {
        State { layout, keymap, effects: Vec::new() }
    }

    /// Hands out the effects asked for so far.
    pub fn take_effects(&mut self) -> (effects: Vec<Effect>)
        ensures
            effects@ == old(self).effects@,
            final(self).effects@ == Seq::<Effect>::empty(),
            final(self).layout == old(self).layout,
            final(self).keymap == old(self).keymap,
    {
        let mut effects: Vec<Effect> = Vec::new();
        effects.append(&mut self.effects);
        assert(effects@ =~= old(self).effects@);
        effects
    }
}

/// To extend a state is to ask for the given effects behind those asked for before, and to change
/// nothing else.
pub proof fn law_extends(before: State, after: State, effects: Seq<Effect>)
    requires
        after.extends(before, effects),
    ensures
        after.layout == before.layout,
        after.keymap == before.keymap,
        after.effects@.len() == before.effects@.len() + effects.len(),
        forall|i: int|
            0 <= i < before.effects@.len() ==> #[trigger] after.effects@[i] == before.effects@[i],
        forall|i: int|
            0 <= i < effects.len() ==> after.effects@[before.effects@.len() + i]
                == #[trigger] effects[i],
{
}

/// Effects on outputs act on the output that they name, and those on the injector seat on none.
pub proof fn law_effect_output(output: Output, window: u64, index: usize, code: u32, state: KeyState)
    ensures
        (Effect::ShowWindow { output, window }).output() == Some(output),
        (Effect::SwitchWorkspace { output, index }).output() == Some(output),
        (Effect::SwitchWorkspaceUp { output }).output() == Some(output),
        (Effect::SwitchWorkspaceDown { output }).output() == Some(output),
        (Effect::FocusColumnLeft { output }).output() == Some(output),
        (Effect::FocusColumnRight { output }).output() == Some(output),
        (Effect::QueueRedraw { output }).output() == Some(output),
        (Effect::InjectorFocus { window }).output() is None,
        (Effect::InjectorKey { code, state }).output() is None,
        Effect::InjectorUnfocus.output() is None,
{
}

} // verus!
