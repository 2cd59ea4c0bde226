# ironland-copositor

The decision-making core of a tiling Wayland compositor, written in Verus
and verified: what each operation does is stated in its contract and
proved, together with the laws that tie operations to one another.

## Layout

- `src/` — the verified library.
  - `geometry` — points, sizes and rectangles in logical coordinates.
  - `text` — character-level helpers (whitespace, ASCII case, trimming,
    substring tests, ordering of names).
  - `config` — settings: keyboard layout, shortcut parsing, the built-in
    shortcut table and how a settings file overrides it, output placement.
  - `shell` — per-output BSP tiling trees (`shell::tiling`) and workspaces
    (`shell::workspace`); operations return the actions the compositor
    carries out on its scene.
  - `launcher`, `drawing` — desktop-file parsing, `Exec=` splitting, the
    launcher's filtering and ordering, and the overlay's state.
  - `focus_grab`, `foreign_toplevel`, `workspace_windows` — state kept for
    the compositor's protocols.
  - `workspace_groups` — the workspace list as the bridge client sees it.
  - `wallpaper`, `session` — the integer part of the wallpaper's cover fit
    and its cache; the commands that announce the session.
- `app/` — the program around the library: reading the settings file and
  desktop files, resolving key names to keysyms, running session commands,
  decoding the wallpaper, and the workspace bridge's Wayland client.
- `tests/` — tests of the library.
