# nirimap

A lightweight minimap overlay for the niri Wayland compositor. It draws a small
map of the windows on the focused workspace, or of all workspaces, into a
layer-shell surface, and redraws only when the picture changes.

The logic is a library that Verus verifies; the program around it is ordinary
Rust.

## Layout

- `src/` is the library.
  - `state`, `ipc`: what the compositor reports, and the conversation that
    brings it.
  - `layout`: windows and workspaces as rows of tiles.
  - `render`: rows as a picture, frames, and what changed between two frames.
  - `sizing`, `model`, `app`: the widget as a state machine.
  - `shm`: the pool of buffers.
  - `signature`: the digest of everything that is drawn.
  - `alike`, `unchanged`: what has the same bytes there has the same picture.
  - `desktop`, `themes`, `icons`: how icons are found, decoded and kept.
  - `config`: the settings.
  - `scalar`, `order`, `seqs`, `text`, `paths`, `pixmap`: numbers, sorting,
    sequences, texts, paths and images.
- `tests/` runs the library.
- `app/` is the program: Wayland, the niri socket, files, and painting with
  tiny-skia and resvg.

Positions and sizes are of any number type that implements `Scalar`: the
program uses floating point, and every result is stated as the exact expression
that produces it.

## Configuration

`$XDG_CONFIG_HOME/nirimap/config.toml` is written on the first run and read
again when it changes. Its settings are in `config::DEFAULT_CONFIG`.
