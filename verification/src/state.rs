//! What the compositor reports: its windows, workspaces and outputs.

use vstd::prelude::*;

verus! {

/// Where a window is and how large it is, in logical pixels.
#[derive(Debug)]
pub struct WindowLayout<S> {
    /// Column and place within it, both counted from 1; `None` for a window
    /// that floats.
    pub pos_in_scrolling_layout: Option<(usize, usize)>,
    /// Size of the tile with its decorations.
    pub tile_size: (S, S),
    /// Size of the window itself.
    pub window_size: (i32, i32),
    /// Position of the tile in the view of its workspace, while it is known.
    pub tile_pos_in_workspace_view: Option<(S, S)>,
    /// Position of the window in its tile.
    pub window_offset_in_tile: (S, S),
}

#[derive(Debug)]
pub struct Window<S> {
    pub id: u64,
    pub app_id: Option<String>,
    pub workspace_id: Option<u64>,
    pub is_focused: bool,
    pub is_floating: bool,
    pub layout: WindowLayout<S>,
}

#[derive(Debug)]
pub struct Workspace {
    pub id: u64,
    /// Place of the workspace on its output.
    pub idx: u8,
    pub name: Option<String>,
    /// Name of the output that the workspace is on.
    pub output: Option<String>,
    /// Whether the output shows this workspace.
    pub is_active: bool,
    pub is_focused: bool,
    /// The window that had the focus last.
    pub active_window_id: Option<u64>,
}

#[derive(Debug)]
pub struct Output {
    pub name: String,
    /// Width and height in logical pixels, while the output is in use.
    pub logical: Option<(u32, u32)>,
}

} // verus!
