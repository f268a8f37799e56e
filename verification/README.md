# niri_input

Input requests for a tiling Wayland compositor that leave the user's keyboard focus alone:

- `send_into_window` types text and key combinations into a window through a second,
  keyboard-only "injector" seat.
- `show_window`, `show_workspace`, `show_column_left` / `_right` and `show_workspace_up` / `_down`
  change what an output other than the focused one displays.

`src/` decides; every function in it has a contract that Verus proves, and the `law_*` proof
functions state what holds of the requests as a whole: one bad segment sends nothing, every key
pressed is released in reverse order, no show request ever touches the focused output.

`app/` is the compositor's side, on top of smithay and xkbcommon: it reports windows, outputs and
the keymap, makes the keyboard calls, and performs the effects that a request asks for.
