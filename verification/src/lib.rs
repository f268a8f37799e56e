//! Input requests of a tiling compositor that leave the keyboard focus where it is.
//!
//! Two kinds of requests are decided here. [`inject`] sends typed text and key combinations to a
//! window through a second seat, and [`show`] changes what outputs other than the focused one
//! display. Both work on a [`state::State`], a report of what the compositor knows, and leave
//! there the [`state::Effect`]s that the compositor is to perform.
//!
//! Sending input goes through three steps: [`segments`] turns segments into chords of keysyms,
//! [`plan`] turns chords into presses and releases of keys of a [`keymap`], and [`inject`] wraps
//! these into a focus cycle. What keysym a name or a character stands for is asked of the
//! [`keyboard`] library, one question at a time, and remembered in [`keysyms`].

pub mod bits;
pub mod inject;
pub mod keyboard;
pub mod keymap;
pub mod keysyms;
pub mod layout;
pub mod plan;
pub mod search;
pub mod segments;
pub mod show;
pub mod state;
pub mod text;
