//! The widget as a state machine: what each event does to its state, and what is
//! to be done outside for it.
//!
//! Redraws are driven by events and paced by the compositor, so a burst of
//! events never costs more than one frame at a time.

use vstd::prelude::*;
use crate::config::{edges_of, Config, Edges};
use crate::icons::{lemma_asked_in_turn, looked_for, IconCache};
use crate::ipc::Snapshot;
use crate::layout::{first_focused, icon_filter, listed, row_ids, row_of, rows_ids,
    tiles_have_icons, RowModel};
use crate::pixmap::byte_count;
use crate::render::{are_known, can_render, column_of, damage_is_enough, differs, frame_fits,
    is_damage, is_known, lemma_lines_known, lemma_place, lemma_tiles_known, paddings, picture,
    picture_ids, repaired, row_models, row_of_byte, row_place, shared_height, shared_scale, within,
    Line, Shape, Style, PADDING};
use crate::scalar::{Scalar, Wide};
use crate::seqs::{first_index, lemma_first_index, text_of_option};
use crate::shm::BufferPool;
use crate::signature::{content_bytes, digest, Content, OFFSET};
use crate::sizing::{current_size, keeps_within, limit, lines_with, physical, row_with, stacked_size,
    surface_side, the_stack_keeps_its_height};
use crate::state::{Output, Window, Workspace};
use tiny_skia::Pixmap;

verus! {

/// Shortest time between two frames, in nanoseconds. While a window is dragged
/// the compositor reports changes with every frame; drawing about 30 of them a
/// second is enough.
pub const REDRAW_MIN_INTERVAL: u64 = 33_000_000;

/// An output of the compositor.
pub struct OutputInfo {
    /// Number under which it was announced.
    pub registry_name: u32,
    pub name: Option<String>,
    pub scale: i32,
    /// Number of its protocol object.
    pub handle: u64,
}

/// The surface of the widget.
pub struct Overlay {
    /// The generation of surfaces that it is.
    pub generation: u64,
    /// The output that it was put on.
    pub output: Option<u64>,
}

/// Distances from the edges of the output.
#[derive(Clone, Copy, Debug, PartialEq, Eq, Structural)]
pub struct Margins {
    pub top: i32,
    pub right: i32,
    pub bottom: i32,
    pub left: i32,
}

/// What is to be done outside.
#[derive(Clone, Copy, Debug, PartialEq, Eq, Structural)]
pub enum Effect {
    /// Destroy the surface.
    DestroySurface,
    /// Create a surface that takes no input, on this output, held to these
    /// edges at these distances.
    CreateSurface {
        generation: u64,
        output: Option<u64>,
        edges: Edges,
        margins: Margins,
    },
    /// Set the scale of the buffers of the surface.
    SetBufferScale(i32),
    /// Ask for this size, and commit.
    RequestSize(u32, u32),
    /// Acknowledge the size that the compositor configured.
    AckConfigure,
    /// Arm the timer that goes off once after the shortest time between frames.
    ArmTimer,
    /// Draw a frame with this signature.
    Draw(u64),
}

/// The state of the widget, as a value.
pub struct Model<S: Wide, B> {
    pub outputs: Seq<OutputInfo>,
    pub overlay: Option<Overlay>,
    pub config: Config<S>,
    pub pool: BufferPool<B>,
    pub dirty: bool,
    pub frame_cb: Option<u64>,
    pub surface_scale: i32,
    pub configured: Option<(u32, u32)>,
    pub desired_size: (u32, u32),
    pub size_pending: bool,
    pub size_requested: bool,
    pub scratch: Seq<u8>,
    pub needed_phys: (u32, u32),
    pub last_sig: u64,
    pub surface_generation: u64,
    pub last_draw_at: Option<u64>,
    pub deferred_redraw: bool,
    pub focused: Option<Seq<char>>,
    pub viewport_width: S::Narrow,
    pub output_height: S::Narrow,
    pub view_left: Map<u64, S>,
    pub last_committed: Seq<u8>,
}

/// The outputs with this name.
pub open spec fn is_named(name: Seq<char>) -> spec_fn(OutputInfo) -> bool {
    |o: OutputInfo| text_of_option(o.name) == Some(name)
}

/// The output of a protocol object.
pub open spec fn has_handle(handle: u64) -> spec_fn(OutputInfo) -> bool {
    |o: OutputInfo| o.handle == handle
}

/// The name of the output that has the focus.
pub open spec fn focused_name<S>(snap: Snapshot<S>) -> Option<Seq<char>> {
    match first_focused(snap.workspaces@) {
        Some(ws) => text_of_option(ws.output),
        None => None,
    }
}

/// The reported outputs with this name.
pub open spec fn is_called(name: Seq<char>) -> spec_fn(Output) -> bool {
    |o: Output| o.name@ == name
}

/// The logical size of the output with this name.
pub open spec fn logical_size(outputs: Seq<Output>, name: Seq<char>) -> Option<(u32, u32)> {
    match first_index(outputs, is_called(name)) {
        Some(i) => outputs[i].logical,
        None => None,
    }
}

/// The applications whose icons are needed to tell what is drawn: in icon mode,
/// those of all windows of the workspaces that are drawn.
pub open spec fn content_ids<S>(config: Config<S>, snap: Snapshot<S>) -> Set<Seq<char>> {
    if !config.appearance.show_icons {
        Set::empty()
    } else if config.display.mode@ == "all"@ {
        rows_ids(listed(snap.workspaces@, snap.windows@), snap.windows@)
    } else {
        match first_focused(snap.workspaces@) {
            Some(ws) => row_ids(ws, snap.windows@),
            None => Set::empty(),
        }
    }
}

impl<S: Wide, B> Model<S, B> {
    /// The applications whose icons are looked for, where what is drawn has to be
    /// `told`.
    pub open spec fn asked(self, told: bool, snap: Snapshot<S>) -> Set<Seq<char>> {
        if told {
            content_ids(self.config, snap)
        } else {
            Set::empty()
        }
    }

    /// Whether a change of the state has the size reconsidered.
    pub open spec fn resizes(self, snap: Snapshot<S>) -> bool {
        ||| self.must_move(snap)
        ||| self.overlay is Some && self.measured(snap).signature(snap) != self.last_sig
    }

    /// Whether another configuration has the size reconsidered.
    pub open spec fn resizes_for(self, new: Config<S>, snap: Snapshot<S>) -> bool {
        ||| self.overlay is Some
        ||| new.moves_widget(self.config)
        ||| new.display.follow_focus != self.config.display.follow_focus && (Model {
            config: new,
            ..self
        }).must_move(snap)
    }

    /// What would be drawn from now.
    pub open spec fn drawn_from(self, snap: Snapshot<S>) -> Content<S> {
        Content {
            cfg: self.config,
            surface_generation: self.surface_generation,
            surface_scale: self.surface_scale,
            configured: self.configured,
            focused_output_name: self.focused,
            viewport_width: self.viewport_width,
            output_height: self.output_height,
            workspaces: snap.workspaces@,
            windows: snap.windows@,
            outputs: snap.outputs@,
        }
    }

    /// The signature of what would be drawn now.
    pub open spec fn signature(self, snap: Snapshot<S>) -> u64 {
        digest(OFFSET, content_bytes(self.drawn_from(snap)))
    }

    /// What is drawn: the row of the focused workspace or the rows of the
    /// stacked view, with what is known of the views after that.
    pub open spec fn content(self, snap: Snapshot<S>, icons: IconCache) -> (
        Option<RowModel<S>>,
        Seq<Line<S>>,
        Map<u64, S>,
    ) {
        let filter = icon_filter(
            if self.config.appearance.show_icons {
                Some(&icons)
            } else {
                None
            },
        );
        if self.config.spec_is_stacked() {
            let (lines, known) = lines_with(
                listed(snap.workspaces@, snap.windows@),
                snap.windows@,
                filter,
                self.view_left,
            );
            (None, lines, known)
        } else {
            match first_focused(snap.workspaces@) {
                Some(ws) => {
                    let (row, known) = row_with(ws, snap.windows@, filter, self.view_left);
                    (Some(row), Seq::empty(), known)
                },
                None => (None, Seq::empty(), self.view_left),
            }
        }
    }

    /// The size that the widget should have.
    pub open spec fn wanted_size(self, snap: Snapshot<S>, icons: IconCache) -> (u32, u32) {
        let (focused, lines, known) = self.content(snap, icons);
        let (w, h) = if self.config.spec_is_stacked() {
            stacked_size(self.config, row_models(lines), self.viewport_width, self.output_height)
        } else {
            current_size(self.config, focused, self.viewport_width)
        };
        (surface_side(w), surface_side(h))
    }

    /// The size is asked for where it changed, or where the surface never had
    /// one.
    pub open spec fn resized(self, snap: Snapshot<S>, icons: IconCache) -> (Self, Seq<Effect>) {
        let size = self.wanted_size(snap, icons);
        let known = self.content(snap, icons).2;
        if self.overlay is None {
            (self, Seq::empty())
        } else if !self.size_requested || size != self.desired_size {
            (
                Model {
                    desired_size: size,
                    size_requested: true,
                    size_pending: true,
                    view_left: known,
                    ..self
                },
                seq![Effect::RequestSize(size.0, size.1)],
            )
        } else {
            (Model { view_left: known, ..self }, Seq::empty())
        }
    }

    /// The output to put the surface on: the focused one, where it follows the
    /// focus and that output is known, or else the first.
    pub open spec fn home_output(self) -> Option<u64> {
        let named = match self.focused {
            Some(name) => if self.config.display.follow_focus {
                first_index(self.outputs, is_named(name))
            } else {
                None
            },
            None => None,
        };
        match named {
            Some(i) => Some(self.outputs[i].handle),
            None => if self.outputs.len() > 0 {
                Some(self.outputs[0].handle)
            } else {
                None
            },
        }
    }

    /// The scale that the surface should have: that of the focused output, or,
    /// where it does not follow the focus or none has it, of the one that it is
    /// on.
    pub open spec fn wanted_scale(self) -> i32 {
        let on = match self.overlay {
            Some(overlay) => overlay.output,
            None => None,
        };
        let led = if self.config.display.follow_focus {
            self.focused
        } else {
            None
        };
        let found = match (led, on) {
            (Some(name), _) => first_index(self.outputs, is_named(name)),
            (None, Some(handle)) => first_index(self.outputs, has_handle(handle)),
            (None, None) => None,
        };
        match found {
            Some(i) => if self.outputs[i].scale < 1 {
                1
            } else {
                self.outputs[i].scale
            },
            None => 1,
        }
    }

    /// The surface takes on the scale that it should have.
    pub open spec fn rescaled(self) -> (Self, Seq<Effect>) {
        self.with_scale(self.wanted_scale())
    }

    /// The surface takes on a scale.
    pub open spec fn with_scale(self, scale: i32) -> (Self, Seq<Effect>) {
        if scale == self.surface_scale {
            (self, Seq::empty())
        } else {
            (
                Model { surface_scale: scale, dirty: true, ..self },
                if self.overlay is Some {
                    seq![Effect::SetBufferScale(scale)]
                } else {
                    Seq::empty()
                },
            )
        }
    }

    /// A blank surface, of which nothing is known to be shown.
    pub open spec fn fresh(self) -> Self {
        let generation = self.surface_generation.wrapping_add(1);
        Model {
            overlay: Some(Overlay { generation, output: self.home_output() }),
            frame_cb: None,
            configured: None,
            desired_size: (0, 0),
            size_pending: false,
            size_requested: false,
            last_committed: Seq::empty(),
            surface_generation: generation,
            last_sig: 0,
            dirty: true,
            ..self
        }
    }

    /// The surface is made anew, and asks for a size.
    pub open spec fn recreated(self, snap: Snapshot<S>, icons: IconCache) -> (Self, Seq<Effect>) {
        let gone = if self.overlay is Some {
            seq![Effect::DestroySurface]
        } else {
            Seq::empty()
        };
        let fresh = self.fresh();
        let made = Effect::CreateSurface {
            generation: fresh.surface_generation,
            output: self.home_output(),
            edges: edges_of(vstd::utf8::encode_utf8(self.config.display.anchor@)),
            margins: Margins {
                top: self.config.display.margin_y,
                right: self.config.display.margin_x,
                bottom: self.config.display.margin_y,
                left: self.config.display.margin_x,
            },
        };
        let (scaled, first) = fresh.rescaled();
        let scale = if scaled.surface_scale < 1 {
            1
        } else {
            scaled.surface_scale
        };
        let (sized, last) = scaled.resized(snap, icons);
        (sized, gone.push(made) + first.push(Effect::SetBufferScale(scale)) + last)
    }

    /// The name of the output that the widget should be on: the focused one, or,
    /// where the settings say so, always the first.
    pub open spec fn wanted_output(self, snap: Snapshot<S>) -> Option<Seq<char>> {
        if self.config.display.follow_focus {
            focused_name(snap)
        } else if self.outputs.len() > 0 {
            text_of_option(self.outputs[0].name)
        } else {
            None
        }
    }

    /// Whether the surface has to go to another output: another one got the
    /// focus, or it belongs on the first and is on another.
    pub open spec fn must_move(self, snap: Snapshot<S>) -> bool {
        ||| self.wanted_output(snap) != self.focused
        ||| self.is_astray()
    }

    /// Whether the surface belongs on the first output and is on another.
    pub open spec fn is_astray(self) -> bool {
        &&& !self.config.display.follow_focus
        &&& self.outputs.len() > 0
        &&& self.overlay matches Some(o) && o.output != self.home_output()
    }

    /// The surface goes to the output that it should be on.
    pub open spec fn refocused(self, snap: Snapshot<S>, icons: IconCache) -> (Self, Seq<Effect>) {
        if self.must_move(snap) {
            (Model { focused: self.wanted_output(snap), ..self }).recreated(snap, icons)
        } else {
            (self, Seq::empty())
        }
    }

    /// The size of the focused output, as far as it is known.
    pub open spec fn measured(self, snap: Snapshot<S>) -> Self {
        let size = match self.focused {
            Some(name) => logical_size(snap.outputs@, name),
            None => None,
        };
        match size {
            Some((w, h)) => Model {
                viewport_width: <S::Narrow as Scalar>::spec_from_u64(w as u64),
                output_height: <S::Narrow as Scalar>::spec_from_u64(h as u64),
                ..self
            },
            None => self,
        }
    }

    /// Whether a redraw has to wait for the compositor: for the callback of a
    /// frame, or for a size.
    pub open spec fn must_wait(self) -> bool {
        self.frame_cb is Some || self.configured is None || self.size_pending
    }

    /// Whether the last frame is so recent that the next has to wait.
    pub open spec fn too_early(self, now: u64) -> bool {
        self.last_draw_at matches Some(t) && now < t + REDRAW_MIN_INTERVAL
    }

    /// A redraw is made where it is due, content changed, and the last one is
    /// long enough ago.
    pub open spec fn pumped(self, snap: Snapshot<S>, now: u64) -> (Self, Seq<Effect>) {
        let sig = self.signature(snap);
        if !self.dirty || self.must_wait() {
            (self, Seq::empty())
        } else if sig != 0 && sig == self.last_sig {
            (Model { dirty: false, ..self }, Seq::empty())
        } else if self.too_early(now) {
            (
                Model { deferred_redraw: true, ..self },
                if self.deferred_redraw {
                    Seq::empty()
                } else {
                    seq![Effect::ArmTimer]
                },
            )
        } else {
            (self, seq![Effect::Draw(sig)])
        }
    }

    /// What is shown is out of date: the size is reconsidered, and a redraw made
    /// where it can be.
    pub open spec fn renewed(self, snap: Snapshot<S>, icons: IconCache, now: u64) -> (
        Self,
        Seq<Effect>,
    ) {
        let (sized, first) = (Model { dirty: true, ..self }).resized(snap, icons);
        let (done, last) = sized.pumped(snap, now);
        (done, first + last)
    }

    /// The state of the compositor changed.
    pub open spec fn state_changed(self, snap: Snapshot<S>, icons: IconCache, now: u64) -> (
        Self,
        Seq<Effect>,
    ) {
        let (focused, first) = self.refocused(snap, icons);
        let seen = focused.measured(snap);
        if seen.signature(snap) == seen.last_sig {
            (seen, first)
        } else {
            let (done, last) = seen.renewed(snap, icons, now);
            (done, first + last)
        }
    }

    /// Another configuration is in force.
    pub open spec fn reconfigured(
        self,
        new: Config<S>,
        snap: Snapshot<S>,
        icons: IconCache,
        now: u64,
    ) -> (Self, Seq<Effect>) {
        let (placed, first) = self.placed(new, snap, icons);
        let (led, second) = placed.led(
            new.display.follow_focus != self.config.display.follow_focus,
            snap,
            icons,
        );
        let (done, last) = led.renewed(snap, icons, now);
        (done, first + second + last)
    }

    /// A configuration comes into force, with a new surface where the widget
    /// moves.
    pub open spec fn placed(self, new: Config<S>, snap: Snapshot<S>, icons: IconCache) -> (
        Self,
        Seq<Effect>,
    ) {
        let changed = Model { config: new, ..self };
        if new.moves_widget(self.config) {
            changed.recreated(snap, icons)
        } else {
            (changed, Seq::empty())
        }
    }

    /// The surface goes to the output that it should be on, where it `must`.
    pub open spec fn led(self, must: bool, snap: Snapshot<S>, icons: IconCache) -> (
        Self,
        Seq<Effect>,
    ) {
        if must {
            let (followed, effects) = self.refocused(snap, icons);
            (followed.measured(snap), effects)
        } else {
            (self, Seq::empty())
        }
    }

    /// The compositor configured a size. Surfaces that are gone do not count.
    pub open spec fn sized(
        self,
        generation: u64,
        w: u32,
        h: u32,
        snap: Snapshot<S>,
        now: u64,
    ) -> (Self, Seq<Effect>) {
        if self.overlay matches Some(o) && o.generation == generation {
            let size = (
                if w == 0 {
                    1
                } else {
                    w
                },
                if h == 0 {
                    1
                } else {
                    h
                },
            );
            let (done, last) = (Model {
                configured: Some(size),
                size_pending: false,
                dirty: true,
                ..self
            }).pumped(snap, now);
            (done, seq![Effect::AckConfigure] + last)
        } else {
            (self, Seq::empty())
        }
    }

    /// A frame was shown. Frames of surfaces that are gone do not count.
    pub open spec fn frame_shown(self, frame: u64, snap: Snapshot<S>, now: u64) -> (
        Self,
        Seq<Effect>,
    ) {
        if self.frame_cb == Some(frame) {
            (Model { frame_cb: None, ..self }).pumped(snap, now)
        } else {
            (self, Seq::empty())
        }
    }

    /// The timer went off.
    pub open spec fn timed(self, snap: Snapshot<S>, now: u64) -> (Self, Seq<Effect>) {
        (Model { deferred_redraw: false, ..self }).pumped(snap, now)
    }

    /// An output appeared.
    pub open spec fn with_output(self, registry_name: u32, handle: u64) -> Self {
        Model {
            outputs: self.outputs.push(OutputInfo { registry_name, name: None, scale: 1, handle }),
            ..self
        }
    }

    /// The scale of an output was reported.
    pub open spec fn output_scaled(self, handle: u64, factor: i32, snap: Snapshot<S>, now: u64) -> (
        Self,
        Seq<Effect>,
    ) {
        let known = match first_index(self.outputs, has_handle(handle)) {
            Some(i) => Model {
                outputs: self.outputs.update(
                    i,
                    OutputInfo { scale: factor, ..self.outputs[i] },
                ),
                ..self
            },
            None => self,
        };
        let (scaled, first) = known.rescaled();
        let (done, last) = (Model { dirty: true, ..scaled }).pumped(snap, now);
        (done, first + last)
    }

    /// The surface came to be on an output.
    pub open spec fn entered(self, handle: u64, snap: Snapshot<S>, now: u64) -> (
        Self,
        Seq<Effect>,
    ) {
        match first_index(self.outputs, has_handle(handle)) {
            Some(i) => if self.outputs[i].scale == self.surface_scale {
                (self, Seq::empty())
            } else {
                let scale = if self.outputs[i].scale < 1 {
                    1
                } else {
                    self.outputs[i].scale
                };
                let set = if self.overlay is Some {
                    seq![Effect::SetBufferScale(scale)]
                } else {
                    Seq::empty()
                };
                let (done, last) = (Model {
                    surface_scale: scale,
                    dirty: true,
                    ..self
                }).pumped(snap, now);
                (done, set + last)
            },
            None => (self, Seq::empty()),
        }
    }

    /// The size of a frame in pixels of the buffer.
    pub open spec fn frame_size(self) -> (u32, u32) {
        let (w, h) = self.configured->0;
        (physical::<S::Narrow>(w, self.frame_scale()), physical::<S::Narrow>(h, self.frame_scale()))
    }

    /// The scale of a frame.
    pub open spec fn frame_scale(self) -> i32 {
        if self.surface_scale < 1 {
            1
        } else {
            self.surface_scale
        }
    }
}

/// The state before the first surface.
pub open spec fn is_start<S: Wide, B>(m: Model<S, B>, config: Config<S>) -> bool {
    &&& m.outputs.len() == 0
    &&& m.overlay is None
    &&& m.config == config
    &&& m.pool.wf() && m.pool.slots().len() == 0 && m.pool.next() == 1
    &&& m.dirty
    &&& m.frame_cb is None
    &&& m.surface_scale == 1
    &&& m.configured is None
    &&& m.desired_size == (0u32, 0u32)
    &&& !m.size_pending && !m.size_requested
    &&& m.scratch.len() == 0
    &&& m.needed_phys == (0u32, 0u32)
    &&& m.last_sig == 0
    &&& m.surface_generation == 0
    &&& m.last_draw_at is None
    &&& !m.deferred_redraw
    &&& m.focused is None
    &&& m.viewport_width == <S::Narrow as Scalar>::spec_from_u64(1920)
    &&& m.output_height == <S::Narrow as Scalar>::spec_from_u64(1080)
    &&& m.view_left == Map::<u64, S>::empty()
    &&& m.last_committed.len() == 0
}

/// The state after some outputs were announced.
pub open spec fn with_outputs<S: Wide, B>(m: Model<S, B>, outputs: Seq<(u32, u64)>) -> Model<S, B>
    decreases outputs.len(),
{
    if outputs.len() == 0 {
        m
    } else {
        let (registry_name, handle) = outputs.last();
        with_outputs(m, outputs.drop_last()).with_output(registry_name, handle)
    }
}

/// Whether `known` is the state `m` with the output of a protocol object named.
pub open spec fn is_renamed<S: Wide, B>(
    m: Model<S, B>,
    known: Model<S, B>,
    handle: u64,
    name: Seq<char>,
) -> bool {
    match first_index(m.outputs, has_handle(handle)) {
        Some(i) => {
            let o = known.outputs[i];
            &&& known == (Model { outputs: m.outputs.update(i, o), ..m })
            &&& o == (OutputInfo { name: o.name, ..m.outputs[i] })
            &&& text_of_option(o.name) == Some(name)
        },
        None => known == m,
    }
}

/// A frame that is ready to be shown.
pub struct Frame {
    /// The place of its buffer in the pool.
    pub slot: usize,
    /// The buffer gets the whole frame; else only `area`.
    pub full: bool,
    /// The part that changed (left, top, width, height), in pixels of the buffer.
    pub area: (u32, u32, u32, u32),
    /// Width and height in pixels of the buffer.
    pub size: (u32, u32),
}

/// The part of the surface that changed.
#[derive(Clone, Copy, Debug, PartialEq, Eq, Structural)]
pub enum Damage {
    /// In pixels of the buffer.
    Buffer { x: i32, y: i32, w: i32, h: i32 },
    /// In logical pixels.
    Surface { x: i32, y: i32, w: i32, h: i32 },
}

/// The scale that a surface of this scale is drawn in.
pub open spec fn scale_at_least_one(scale: i32) -> int {
    if scale < 1 {
        1
    } else {
        scale as int
    }
}

/// The logical pixels that a stretch of pixels of the buffer touches: the first
/// of them, and how many they are.
pub open spec fn touched(start: u32, len: u32, scale: int) -> (int, int) {
    let first = start as int / scale;
    let end = (start + len + scale - 1) / scale;
    (first, end - first)
}

/// How changes are reported: in pixels of the buffer, or, to surfaces of a
/// version below 4, as all logical pixels that they touch.
pub open spec fn reported(area: (u32, u32, u32, u32), scale: i32, version: u32) -> Damage {
    if version >= 4 {
        Damage::Buffer {
            x: area.0 as i32,
            y: area.1 as i32,
            w: area.2 as i32,
            h: area.3 as i32,
        }
    } else {
        let (x, w) = touched(area.0, area.2, scale_at_least_one(scale));
        let (y, h) = touched(area.1, area.3, scale_at_least_one(scale));
        Damage::Surface { x: x as i32, y: y as i32, w: w as i32, h: h as i32 }
    }
}

fn touched_pixels(start: u32, len: u32, scale: i32) -> (r: (i32, i32))
    requires
        scale >= 1,
    ensures
        r == (touched(start, len, scale as int).0 as i32, touched(
            start,
            len,
            scale as int,
        ).1 as i32),
{
    let s: u64 = scale as u64;
    let first: u64 = start as u64 / s;
    let end: u64 = (start as u64 + len as u64 + s - 1) / s;
    proof {
        vstd::arithmetic::div_mod::lemma_div_is_ordered(
            start as int,
            start + len + s - 1,
            s as int,
        );
    }
    (first as i32, (end - first) as i32)
}

/// How changes are reported to a surface of this version.
pub fn damage_of(area: (u32, u32, u32, u32), scale: i32, version: u32) -> (r: Damage)
    ensures
        r == reported(area, scale, version),
{
    if version >= 4 {
        Damage::Buffer {
            x: area.0 as i32,
            y: area.1 as i32,
            w: area.2 as i32,
            h: area.3 as i32,
        }
    } else {
        let s: i32 = if scale < 1 {
            1
        } else {
            scale
        };
        let (x, w): (i32, i32) = touched_pixels(area.0, area.2, s);
        let (y, h): (i32, i32) = touched_pixels(area.1, area.3, s);
        Damage::Surface { x, y, w, h }
    }
}

/// Whether a report of changes holds a pixel of the buffer.
pub open spec fn covers(damage: Damage, scale: int, column: int, row: int) -> bool {
    match damage {
        Damage::Buffer { x, y, w, h } => x <= column < x + w && y <= row < y + h,
        Damage::Surface { x, y, w, h } => x * scale <= column < (x + w) * scale && y * scale <= row
            < (y + h) * scale,
    }
}

proof fn lemma_touched(start: u32, len: u32, scale: int, c: int)
    requires
        scale >= 1,
        start + len <= i32::MAX,
        start <= c < start + len,
    ensures
        ({
            let (first, n) = touched(start, len, scale);
            &&& first * scale <= c < (first + n) * scale
            &&& 0 <= first <= i32::MAX && 0 <= n <= i32::MAX
        }),
{
    let (first, n) = touched(start, len, scale);
    let end = first + n;
    let stop = start + len + scale - 1;
    vstd::arithmetic::div_mod::lemma_fundamental_div_mod(start as int, scale);
    vstd::arithmetic::div_mod::lemma_fundamental_div_mod(stop, scale);
    vstd::arithmetic::mul::lemma_mul_is_commutative(first, scale);
    vstd::arithmetic::mul::lemma_mul_is_commutative(end, scale);
    vstd::arithmetic::div_mod::lemma_div_pos_is_pos(start as int, scale);
    vstd::arithmetic::div_mod::lemma_div_is_ordered(start as int, stop, scale);
    vstd::arithmetic::div_mod::lemma_div_is_ordered_by_denominator(start as int, 1, scale);
    assert(end <= start + len) by (nonlinear_arith)
        requires
            end * scale <= start + len + scale - 1,
            scale >= 1,
            start + len >= 1,
    ;
}

/// Every pixel of the changed area is in what is reported, whatever the version
/// and the scale of the surface.
pub proof fn reports_cover_the_area(
    area: (u32, u32, u32, u32),
    scale: i32,
    version: u32,
    column: int,
    row: int,
)
    requires
        area.0 + area.2 <= i32::MAX,
        area.1 + area.3 <= i32::MAX,
        area.0 <= column < area.0 + area.2,
        area.1 <= row < area.1 + area.3,
    ensures
        covers(reported(area, scale, version), scale_at_least_one(scale), column, row),
{
    if version < 4 {
        lemma_touched(area.0, area.2, scale_at_least_one(scale), column);
        lemma_touched(area.1, area.3, scale_at_least_one(scale), row);
    }
}

/// Whether a frame of this size shows what changed against the last one: all of
/// it where there was none of its size.
pub open spec fn shows_change(frame: Frame, last: Seq<u8>, new: Seq<u8>, size: (u32, u32)) -> bool {
    &&& frame.size == size
    &&& frame.full == (last.len() != new.len())
    &&& if frame.full {
        frame.area == (0u32, 0u32, size.0, size.1)
    } else {
        is_damage(last, new, size.0, size.1, frame.area)
    }
}

impl<S: Wide, B> Model<S, B> {
    /// The picture that is drawn.
    pub open spec fn drawing(self, snap: Snapshot<S>, icons: IconCache) -> Seq<Shape<S::Narrow>> {
        let (focused, lines, known) = self.content(snap, icons);
        let (w, h) = self.frame_size();
        picture(
            Style {
                cfg: &self.config.appearance,
                icons: &icons,
                show_icons: self.config.appearance.show_icons,
            },
            w,
            h,
            <S::Narrow as Scalar>::spec_from_i64(self.frame_scale() as i64),
            self.config.display.mode@,
            focused,
            lines,
        )
    }

    /// The state with a frame rendered.
    pub open spec fn rendered(self, snap: Snapshot<S>, icons: IconCache, frame: Seq<u8>) -> Self {
        Model {
            view_left: self.content(snap, icons).2,
            scratch: frame,
            needed_phys: self.frame_size(),
            ..self
        }
    }

    /// The state after a frame could not be held.
    pub open spec fn failed(self, snap: Snapshot<S>, icons: IconCache) -> Self {
        let (w, h) = self.frame_size();
        Model {
            last_sig: 0,
            view_left: self.content(snap, icons).2,
            scratch: if byte_count(w, h) > u32::MAX {
                self.scratch
            } else {
                Seq::empty()
            },
            ..self
        }
    }

    /// Whether a frame can be drawn at all.
    pub open spec fn can_draw(self) -> bool {
        self.overlay is Some && self.configured is Some && can_render(
            self.config.appearance,
            self.frame_size().0,
            self.frame_size().1,
            <S::Narrow as Scalar>::spec_from_i64(self.frame_scale() as i64),
        )
    }

    /// What drawing a frame comes to, once it is rendered: nothing to show where
    /// it is the same as the last one, nothing yet where there is no buffer for
    /// it, else a frame. `after` is the state, `r` the frame.
    pub open spec fn settled(
        self,
        sig: u64,
        after: Self,
        r: Option<Frame>,
        slot: Option<usize>,
    ) -> bool {
        if self.scratch == self.last_committed {
            r is None && after == (Model { last_sig: sig, dirty: false, ..self })
        } else {
            match (r, slot) {
                (Some(frame), Some(i)) => {
                    &&& frame.slot == i
                    &&& shows_change(frame, self.last_committed, self.scratch, self.needed_phys)
                    &&& after == (Model { pool: after.pool, ..self })
                },
                (None, None) => after == (Model {
                    pool: after.pool,
                    last_sig: 0,
                    dirty: true,
                    ..self
                }),
                _ => false,
            }
        }
    }

    /// The state after a frame was committed.
    pub open spec fn presented(self, sig: u64, frame: u64, now: u64) -> Self {
        Model {
            last_committed: self.scratch,
            last_sig: sig,
            dirty: false,
            last_draw_at: Some(now),
            frame_cb: Some(frame),
            ..self
        }
    }
}

proof fn lemma_row_is_known<S: Wide>(
    ws: Workspace,
    windows: Seq<Window<S>>,
    icons: IconCache,
    previous: Option<S>,
)
    ensures
        are_known(row_of(ws, windows, icon_filter(Some(&icons)), previous).tiles, icons),
{
    let has = |id: Seq<char>| icons.has(id);
    assert(icon_filter(Some(&icons)) == Some(has));
    let tiles = row_of(ws, windows, Some(has), previous).tiles;
    assert forall|i: int| 0 <= i < tiles.len() implies is_known(#[trigger] tiles[i], icons) by {
        tiles_have_icons(ws, windows, has, previous, i);
    }
}

proof fn lemma_lines_are_known<S: Wide>(
    list: Seq<Workspace>,
    windows: Seq<Window<S>>,
    icons: IconCache,
    view_left: Map<u64, S>,
)
    ensures
        forall|i: int|
            #![trigger lines_with(list, windows, icon_filter(Some(&icons)), view_left).0[i]]
            0 <= i < lines_with(list, windows, icon_filter(Some(&icons)), view_left).0.len()
                ==> are_known(
                lines_with(list, windows, icon_filter(Some(&icons)), view_left).0[i].row.tiles,
                icons,
            ),
    decreases list.len(),
{
    if list.len() > 0 {
        let filter = icon_filter(Some(&icons));
        let (rows, known) = lines_with(list.drop_last(), windows, filter, view_left);
        lemma_lines_are_known(list.drop_last(), windows, icons, view_left);
        let ws = list.last();
        let previous = if known.contains_key(ws.id) {
            Some(known[ws.id])
        } else {
            None
        };
        lemma_row_is_known(ws, windows, icons, previous);
        let all = lines_with(list, windows, filter, view_left).0;
        assert forall|i: int|
            #![trigger lines_with(list, windows, filter, view_left).0[i]]
            0 <= i < all.len() implies are_known(
            lines_with(list, windows, filter, view_left).0[i].row.tiles,
            icons,
        ) by {
            if i < rows.len() {
                assert(all[i] == rows[i]);
            }
        }
    }
}

/// What is drawn needs no icon that the content did not need.
pub proof fn lemma_drawing_is_known<S: Wide, B>(
    m: Model<S, B>,
    snap: Snapshot<S>,
    icons: IconCache,
)
    ensures
        ({
            let (focused, lines, known) = m.content(snap, icons);
            let (w, h) = m.frame_size();
            picture_ids(
                m.config.appearance,
                m.config.appearance.show_icons,
                w,
                h,
                <S::Narrow as Scalar>::spec_from_i64(m.frame_scale() as i64),
                m.config.display.mode@,
                focused,
                lines,
            ).subset_of(icons.known().dom())
        }),
{
    let show = m.config.appearance.show_icons;
    let style = Style { cfg: &m.config.appearance, icons: &icons, show_icons: show };
    let scale = <S::Narrow as Scalar>::spec_from_i64(m.frame_scale() as i64);
    let (w, h) = m.frame_size();
    let log_w = <S::Narrow as Scalar>::spec_from_u64(w as u64).spec_over(scale);
    let log_h = <S::Narrow as Scalar>::spec_from_u64(h as u64).spec_over(scale);
    let (focused, lines, known) = m.content(snap, icons);
    if m.config.spec_is_stacked() {
        if show {
            lemma_lines_are_known(
                listed(snap.workspaces@, snap.windows@),
                snap.windows@,
                icons,
                m.view_left,
            );
        }
        let gap = m.config.appearance.workspace_gap.spec_narrow();
        let row_h = shared_height(lines.len(), log_h, gap);
        let inner_w = log_w.spec_minus(paddings()).spec_greater(
            <S::Narrow as Scalar>::spec_from_u64(0),
        );
        lemma_lines_known(
            style,
            lines,
            shared_scale(row_models(lines), row_h),
            inner_w,
            row_h,
            gap,
        );
    } else if let Some(ws) = first_focused(snap.workspaces@) {
        let previous = if m.view_left.contains_key(ws.id) {
            Some(m.view_left[ws.id])
        } else {
            None
        };
        if show {
            lemma_row_is_known(ws, snap.windows@, icons, previous);
        }
        let row = focused->0;
        let (x0, k) = row_place(row, log_w, log_h);
        let y0 = <S::Narrow as Scalar>::spec_from_u64(PADDING);
        lemma_tiles_known(style, row.tiles, x0, y0, k, None);
    }
}

/// A new surface asks for its size, as the last thing that is done for it, and
/// nothing is taken to be shown on it. It is told apart from the one before.
pub proof fn new_surfaces_ask_for_a_size<S: Wide, B>(
    m: Model<S, B>,
    snap: Snapshot<S>,
    icons: IconCache,
)
    ensures
        ({
            let (after, effects) = m.recreated(snap, icons);
            &&& after.overlay matches Some(o) && o.generation == after.surface_generation
            &&& after.surface_generation != m.surface_generation
            &&& after.size_requested && after.size_pending && after.configured is None
            &&& after.last_sig == 0 && after.dirty && after.last_committed.len() == 0
            &&& effects.last() == Effect::RequestSize(after.desired_size.0, after.desired_size.1)
            &&& 8 <= after.desired_size.0 <= 4096 && 8 <= after.desired_size.1 <= 4096
        }),
{
    let g = m.surface_generation;
    assert(g.wrapping_add(1) != g);
}

/// A widget with the stacked view never asks for more than the greatest height,
/// or the least that a surface can have.
pub proof fn stacked_widgets_keep_their_height<S: Wide, B>(
    m: Model<S, B>,
    snap: Snapshot<S>,
    icons: IconCache,
)
    requires
        m.config.spec_is_stacked(),
        keeps_within(limit(m.output_height, m.config.display.max_height_percent)),
    ensures
        m.wanted_size(snap, icons).1 <= surface_side(
            limit(m.output_height, m.config.display.max_height_percent).spec_greater(
                <S::Narrow as Scalar>::spec_from_u64(8),
            ).spec_to_u32(),
        ),
{
    the_stack_keeps_its_height(
        m.config,
        row_models(m.content(snap, icons).1),
        m.viewport_width,
        m.output_height,
    );
}

/// A new surface gets a frame as soon as it is configured, whatever is drawn on
/// it; at the latest when the timer goes off.
pub proof fn new_surfaces_get_a_frame<S: Wide, B>(
    m: Model<S, B>,
    snap: Snapshot<S>,
    icons: IconCache,
    w: u32,
    h: u32,
    later: Snapshot<S>,
    now: u64,
)
    ensures
        ({
            let fresh = m.recreated(snap, icons).0;
            let (after, effects) = fresh.sized(fresh.surface_generation, w, h, later, now);
            after.deferred_redraw || effects.last() == Effect::Draw(after.signature(later))
        }),
{
}

/// Where the signature is that of what is shown, nothing is drawn.
pub proof fn unchanged_content_is_not_drawn<S: Wide, B>(m: Model<S, B>, snap: Snapshot<S>, now: u64)
    requires
        m.signature(snap) == m.last_sig,
        m.last_sig != 0,
    ensures
        m.pumped(snap, now).1.len() == 0,
        !m.must_wait() ==> !m.pumped(snap, now).0.dirty,
{
}

/// An event that changes neither the output to be on nor what is drawn does
/// nothing at all.
pub proof fn irrelevant_events_do_nothing<S: Wide, B>(
    m: Model<S, B>,
    snap: Snapshot<S>,
    icons: IconCache,
    now: u64,
)
    requires
        !m.must_move(snap),
        m.measured(snap) == m,
        m.signature(snap) == m.last_sig,
    ensures
        m.state_changed(snap, icons, now) == (m, Seq::<Effect>::empty()),
{
}

/// Two frames are never drawn in shorter time than the shortest.
pub proof fn frames_keep_their_distance<S: Wide, B>(
    m: Model<S, B>,
    sig: u64,
    frame: u64,
    then: u64,
    later: Model<S, B>,
    snap: Snapshot<S>,
    now: u64,
    drawn: u64,
)
    requires
        later.last_draw_at == m.presented(sig, frame, then).last_draw_at,
        later.pumped(snap, now).1.contains(Effect::Draw(drawn)),
    ensures
        now >= then + REDRAW_MIN_INTERVAL,
{
}

/// No frame is drawn before the compositor showed the one before.
pub proof fn one_frame_at_a_time<S: Wide, B>(
    m: Model<S, B>,
    sig: u64,
    frame: u64,
    then: u64,
    snap: Snapshot<S>,
    now: u64,
)
    ensures
        m.presented(sig, frame, then).pumped(snap, now).1.len() == 0,
        (Model { dirty: true, ..m.presented(sig, frame, then) }).pumped(snap, now).1.len() == 0,
{
}

/// A redraw that is due is never lost: it is made, or the compositor owes a
/// callback or a size, or the timer is armed.
pub proof fn redraws_are_not_lost<S: Wide, B>(m: Model<S, B>, snap: Snapshot<S>, now: u64)
    requires
        m.dirty,
    ensures
        ({
            let (after, effects) = m.pumped(snap, now);
            ||| after.must_wait()
            ||| after.deferred_redraw
            ||| effects == seq![Effect::Draw(m.signature(snap))]
            ||| !after.dirty && m.signature(snap) == m.last_sig
        }),
{
}

/// What is owed to surfaces that are gone is ignored.
pub proof fn stale_events_are_ignored<S: Wide, B>(
    m: Model<S, B>,
    snap: Snapshot<S>,
    icons: IconCache,
    now: u64,
    w: u32,
    h: u32,
    frame: u64,
)
    ensures
        ({
            let fresh = m.recreated(snap, icons).0;
            &&& fresh.sized(m.surface_generation, w, h, snap, now) == (
                fresh,
                Seq::<Effect>::empty(),
            )
            &&& fresh.frame_shown(frame, snap, now) == (fresh, Seq::<Effect>::empty())
        }),
{
    let g = m.surface_generation;
    assert(g.wrapping_add(1) != g);
}

/// The widget is on the output that it should be on: after each change of the
/// state it knows the one that has the focus, or the first, as the settings say,
/// and a change of it puts the surface there.
pub proof fn the_focus_is_followed<S: Wide, B>(
    m: Model<S, B>,
    snap: Snapshot<S>,
    icons: IconCache,
    now: u64,
)
    ensures
        ({
            let after = m.state_changed(snap, icons, now).0;
            &&& m.config.display.follow_focus ==> after.focused == focused_name(snap)
            &&& !m.config.display.follow_focus && m.outputs.len() > 0 ==> after.focused
                == text_of_option(m.outputs[0].name)
            &&& m.focused != after.focused ==> (after.overlay matches Some(o) && o.output
                == after.home_output())
        }),
{
    lemma_recreated_keeps(
        (Model { focused: m.wanted_output(snap), ..m }),
        snap,
        icons,
    );
    let seen = m.refocused(snap, icons).0.measured(snap);
    lemma_renewed_keeps(seen, snap, icons, now);
}

proof fn lemma_recreated_keeps<S: Wide, B>(m: Model<S, B>, snap: Snapshot<S>, icons: IconCache)
    ensures
        ({
            let after = m.recreated(snap, icons).0;
            &&& after.focused == m.focused
            &&& after.outputs == m.outputs
            &&& after.overlay matches Some(o) && o.output == m.home_output()
        }),
{
}

proof fn lemma_renewed_keeps<S: Wide, B>(
    m: Model<S, B>,
    snap: Snapshot<S>,
    icons: IconCache,
    now: u64,
)
    ensures
        ({
            let after = m.renewed(snap, icons, now).0;
            after.focused == m.focused && after.outputs == m.outputs && after.overlay == m.overlay
        }),
{
}

/// A widget that does not follow the focus is always put on the first output,
/// and after each change of the state it is there.
pub proof fn unled_surfaces_stay_on_the_first_output<S: Wide, B>(
    m: Model<S, B>,
    snap: Snapshot<S>,
    icons: IconCache,
    now: u64,
)
    requires
        !m.config.display.follow_focus,
        m.outputs.len() > 0,
    ensures
        m.home_output() == Some(m.outputs[0].handle),
        m.recreated(snap, icons).0.overlay matches Some(o) && o.output == Some(
            m.outputs[0].handle,
        ),
        m.state_changed(snap, icons, now).0.overlay matches Some(o) ==> o.output == Some(
            m.outputs[0].handle,
        ),
{
    let led = Model { focused: m.wanted_output(snap), ..m };
    lemma_recreated_keeps(m, snap, icons);
    lemma_recreated_keeps(led, snap, icons);
    assert(led.home_output() == m.home_output());
    let seen = m.refocused(snap, icons).0.measured(snap);
    lemma_renewed_keeps(seen, snap, icons, now);
}

/// What is reported of a frame covers every pixel in which it differs from the
/// last one of its size, whatever the version and the scale of the surface.
pub proof fn reports_cover_the_change(
    frame: Frame,
    last: Seq<u8>,
    new: Seq<u8>,
    size: (u32, u32),
    scale: i32,
    version: u32,
    i: int,
)
    requires
        shows_change(frame, last, new, size),
        frame_fits(size.0, size.1),
        new.len() == byte_count(size.0, size.1),
        0 <= i < new.len(),
        last.len() == new.len() ==> last[i] != new[i],
    ensures
        covers(
            reported(frame.area, scale, version),
            scale_at_least_one(scale),
            column_of(i, size.0),
            row_of_byte(i, size.0),
        ),
{
    lemma_place(i, size.0, size.1);
    assert(size.1 <= i32::MAX) by (nonlinear_arith)
        requires
            size.0 * size.1 * 4 <= u32::MAX,
            size.0 > 0,
    ;
    if !frame.full {
        assert(differs(last, new, i));
    }
    reports_cover_the_area(
        frame.area,
        scale,
        version,
        column_of(i, size.0),
        row_of_byte(i, size.0),
    );
}

/// Where the surface shows the last frame, it shows the new one after the part
/// that is reported as changed was shown anew.
pub proof fn the_surface_shows_the_frame(
    frame: Frame,
    last: Seq<u8>,
    new: Seq<u8>,
    size: (u32, u32),
)
    requires
        shows_change(frame, last, new, size),
        size.0 > 0,
        new.len() == byte_count(size.0, size.1),
    ensures
        !frame.full ==> repaired(last, new, size.0, frame.area) == new,
        frame.full ==> forall|i: int|
            0 <= i < new.len() ==> #[trigger] within(i, size.0, frame.area),
{
    if frame.full {
        assert forall|i: int| 0 <= i < new.len() implies #[trigger] within(
            i,
            size.0,
            frame.area,
        ) by {
            lemma_place(i, size.0, size.1);
        }
    } else {
        damage_is_enough(last, new, size.0, size.1, frame.area);
    }
}

impl<S: Wide, B> Model<S, B> {
    /// What holds of the widget at all times: there is a surface, of the current
    /// generation, that was asked for a size; a surface without a size waits for
    /// one, and nothing was drawn on it; there are no more buffers than are kept.
    pub open spec fn sound(self) -> bool {
        &&& self.overlay matches Some(o) && o.generation == self.surface_generation
        &&& self.size_requested
        &&& 8 <= self.desired_size.0 <= 4096
        &&& 8 <= self.desired_size.1 <= 4096
        &&& self.surface_scale >= 1
        &&& self.configured is None ==> {
            &&& self.size_pending
            &&& self.frame_cb is None
            &&& self.last_committed.len() == 0
        }
        &&& self.configured matches Some((w, h)) ==> w >= 1 && h >= 1
        &&& self.pool.wf()
    }
}

proof fn lemma_recreated_sound<S: Wide, B>(m: Model<S, B>, snap: Snapshot<S>, icons: IconCache)
    requires
        m.surface_scale >= 1,
        m.pool.wf(),
    ensures
        m.recreated(snap, icons).0.sound(),
{
}

proof fn lemma_pumped_sound<S: Wide, B>(m: Model<S, B>, snap: Snapshot<S>, now: u64)
    requires
        m.sound(),
    ensures
        m.pumped(snap, now).0.sound(),
{
}

proof fn lemma_renewed_sound<S: Wide, B>(
    m: Model<S, B>,
    snap: Snapshot<S>,
    icons: IconCache,
    now: u64,
)
    requires
        m.sound(),
    ensures
        m.renewed(snap, icons, now).0.sound(),
{
    let due = Model { dirty: true, ..m };
    assert(due.resized(snap, icons).0.sound());
    lemma_pumped_sound(due.resized(snap, icons).0, snap, now);
}

/// The widget is sound from its first surface on.
pub proof fn the_widget_starts_sound<S: Wide, B>(
    start: Model<S, B>,
    config: Config<S>,
    snap: Snapshot<S>,
    icons: IconCache,
)
    requires
        is_start(start, config),
    ensures
        start.recreated(snap, icons).0.sound(),
{
    lemma_recreated_sound(start, snap, icons);
}

proof fn lemma_refocused_sound<S: Wide, B>(m: Model<S, B>, snap: Snapshot<S>, icons: IconCache)
    requires
        m.sound(),
    ensures
        m.refocused(snap, icons).0.measured(snap).sound(),
{
    lemma_recreated_sound((Model { focused: m.wanted_output(snap), ..m }), snap, icons);
}

proof fn lemma_placed_sound<S: Wide, B>(
    m: Model<S, B>,
    new: Config<S>,
    snap: Snapshot<S>,
    icons: IconCache,
)
    requires
        m.sound(),
    ensures
        m.placed(new, snap, icons).0.sound(),
{
    lemma_recreated_sound((Model { config: new, ..m }), snap, icons);
}

/// The widget stays sound when the state of the compositor changes.
pub proof fn changes_keep_the_widget_sound<S: Wide, B>(
    m: Model<S, B>,
    snap: Snapshot<S>,
    icons: IconCache,
    now: u64,
)
    requires
        m.sound(),
    ensures
        m.state_changed(snap, icons, now).0.sound(),
{
    lemma_refocused_sound(m, snap, icons);
    lemma_renewed_sound(m.refocused(snap, icons).0.measured(snap), snap, icons, now);
}

/// The widget stays sound when its settings change.
pub proof fn settings_keep_the_widget_sound<S: Wide, B>(
    m: Model<S, B>,
    new: Config<S>,
    snap: Snapshot<S>,
    icons: IconCache,
    now: u64,
)
    requires
        m.sound(),
    ensures
        m.reconfigured(new, snap, icons, now).0.sound(),
{
    let must = new.display.follow_focus != m.config.display.follow_focus;
    let placed = m.placed(new, snap, icons).0;
    lemma_placed_sound(m, new, snap, icons);
    lemma_refocused_sound(placed, snap, icons);
    lemma_renewed_sound(placed.led(must, snap, icons).0, snap, icons, now);
}

/// The widget stays sound whatever the compositor does with its surface and its
/// frames.
pub proof fn surface_events_keep_the_widget_sound<S: Wide, B>(
    m: Model<S, B>,
    generation: u64,
    w: u32,
    h: u32,
    frame: u64,
    sig: u64,
    pool: BufferPool<B>,
    snap: Snapshot<S>,
    icons: IconCache,
    now: u64,
)
    requires
        m.sound(),
        pool.wf(),
    ensures
        m.sized(generation, w, h, snap, now).0.sound(),
        (Model { pool, ..m }).pumped(snap, now).0.sound(),
        m.frame_shown(frame, snap, now).0.sound(),
        m.timed(snap, now).0.sound(),
        m.recreated(snap, icons).0.sound(),
        m.configured is Some ==> m.presented(sig, frame, now).sound(),
{
    let size = (
        if w == 0 {
            1
        } else {
            w
        },
        if h == 0 {
            1
        } else {
            h
        },
    );
    lemma_pumped_sound(
        (Model { configured: Some(size), size_pending: false, dirty: true, ..m }),
        snap,
        now,
    );
    lemma_pumped_sound((Model { pool, ..m }), snap, now);
    lemma_pumped_sound((Model { frame_cb: None, ..m }), snap, now);
    lemma_pumped_sound((Model { deferred_redraw: false, ..m }), snap, now);
    lemma_recreated_sound(m, snap, icons);
}

/// The widget stays sound whatever happens to the outputs.
pub proof fn output_events_keep_the_widget_sound<S: Wide, B>(
    m: Model<S, B>,
    registry_name: u32,
    handle: u64,
    factor: i32,
    known: Model<S, B>,
    name: Seq<char>,
    fewer: Seq<OutputInfo>,
    snap: Snapshot<S>,
    icons: IconCache,
    now: u64,
)
    requires
        m.sound(),
        is_renamed(m, known, handle, name),
    ensures
        (Model { outputs: fewer, ..m }).sound(),
        m.with_output(registry_name, handle).rescaled().0.sound(),
        m.output_scaled(handle, factor, snap, now).0.sound(),
        m.entered(handle, snap, now).0.sound(),
        known.rescaled().0.sound(),
        known.rescaled().0.recreated(snap, icons).0.sound(),
{
    let scaled = match first_index(m.outputs, has_handle(handle)) {
        Some(i) => Model {
            outputs: m.outputs.update(i, OutputInfo { scale: factor, ..m.outputs[i] }),
            ..m
        },
        None => m,
    };
    lemma_pumped_sound((Model { dirty: true, ..scaled.rescaled().0 }), snap, now);
    if let Some(i) = first_index(m.outputs, has_handle(handle)) {
        let scale = if m.outputs[i].scale < 1 {
            1
        } else {
            m.outputs[i].scale
        };
        lemma_pumped_sound((Model { surface_scale: scale, dirty: true, ..m }), snap, now);
    }
    lemma_recreated_sound(known.rescaled().0, snap, icons);
}

/// Drawing keeps the widget sound.
pub proof fn drawing_keeps_the_widget_sound<S: Wide, B>(
    m: Model<S, B>,
    snap: Snapshot<S>,
    icons: IconCache,
    frame: Seq<u8>,
    sig: u64,
    after: Model<S, B>,
    r: Option<Frame>,
    slot: Option<usize>,
)
    requires
        m.sound(),
        m.can_draw(),
        m.rendered(snap, icons, frame).settled(sig, after, r, slot),
        after.pool.wf(),
    ensures
        after.sound(),
        m.failed(snap, icons).sound(),
{
}

/// Another configuration has the icons of the content looked for where the size
/// is reconsidered, and every step of it sees the same icons.
pub proof fn lemma_reload_asks<S: Wide, B, L: Fn(&str) -> Option<Pixmap>>(
    start: Model<S, B>,
    new: Config<S>,
    snap: Snapshot<S>,
    held: IconCache,
    icons_placed: IconCache,
    icons_led: IconCache,
    icons: IconCache,
    look_up: L,
)
    requires
        looked_for(
            held,
            (Model { config: new, ..start }).asked(new.moves_widget(start.config), snap),
            look_up,
            icons_placed,
        ),
        ({
            let must = new.display.follow_focus != start.config.display.follow_focus;
            let placed = start.placed(new, snap, icons_placed).0;
            let led = placed.led(must, snap, icons_led).0;
            &&& looked_for(
                icons_placed,
                placed.asked(must && placed.must_move(snap), snap),
                look_up,
                icons_led,
            )
            &&& looked_for(icons_led, led.asked(led.overlay is Some, snap), look_up, icons)
        }),
    ensures
        looked_for(
            held,
            (Model { config: new, ..start }).asked(start.resizes_for(new, snap), snap),
            look_up,
            icons,
        ),
        start.placed(new, snap, icons_placed) == start.placed(new, snap, icons),
        ({
            let must = new.display.follow_focus != start.config.display.follow_focus;
            let placed = start.placed(new, snap, icons_placed).0;
            placed.led(must, snap, icons_led) == placed.led(must, snap, icons)
        }),
{
    let must = new.display.follow_focus != start.config.display.follow_focus;
    let changed = Model { config: new, ..start };
    let placed = start.placed(new, snap, icons_placed).0;
    let led = placed.led(must, snap, icons_led).0;
    let first = changed.asked(new.moves_widget(start.config), snap);
    let second = placed.asked(must && placed.must_move(snap), snap);
    let third = led.asked(led.overlay is Some, snap);
    lemma_asked_in_turn(held, first, icons_placed, second, look_up, icons_led);
    lemma_asked_in_turn(held, first.union(second), icons_led, third, look_up, icons);
    assert(placed.config == new && led.config == new);
    assert(first.union(second).union(third) =~= changed.asked(
        start.resizes_for(new, snap),
        snap,
    ));
}

} // verus!
