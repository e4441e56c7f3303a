//! The widget: what it does on each event.
//!
//! The functions here decide; what is to be done outside comes back as
//! `Effect`s, in order.

use vstd::prelude::*;
use crate::config::{anchor_bits, Config};
use crate::icons::{lemma_asked_in_turn, lemma_nothing_asked, looked_for, IconCache};
use crate::ipc::{Snapshot, UiMsg};
use crate::layout::{all_rows, focused_workspace, look_for_icons, row_ids, rows_ids, Row};
use crate::model::{content_ids, has_handle, is_named, is_renamed, is_start, lemma_drawing_is_known,
    lemma_reload_asks, logical_size, with_outputs, Effect, Frame, Margins, Model, OutputInfo, Overlay,
    REDRAW_MIN_INTERVAL};
use crate::render::{column_of, diff_bbox, differs, is_painted, is_painter, lines, painted,
    render_into, RowView, Shape};
use crate::scalar::{Scalar, Wide};
use crate::seqs::{first_index, lemma_first_index, same_option, text_of_option};
use crate::shm::{acquired, given_back, makes_whole_buffers, reclaimed, released, BufferPool, Made,
    Slot};
use crate::signature::content_signature;
use crate::sizing::{clamp_side, physical_side, row_for_workspace, rows_for, size_for_current,
    size_for_stack, viewed};
use crate::state::Output;
use crate::text::same_text;
use std::collections::HashMap;
use tiny_skia::Pixmap;

verus! {

/// The state of the widget.
pub struct App<S: Wide, B> {
    pub outputs: Vec<OutputInfo>,
    pub overlay: Option<Overlay>,
    pub config: Config<S>,
    pub pool: BufferPool<B>,
    /// What is shown may be out of date.
    pub dirty: bool,
    /// The frame whose callback has not come yet.
    pub frame_cb: Option<u64>,
    pub surface_scale: i32,
    /// The size that the compositor configured last (logical pixels).
    pub configured: Option<(u32, u32)>,
    /// The size that was asked for last.
    pub desired_size: (u32, u32),
    /// A size was asked for, and not configured yet.
    pub size_pending: bool,
    /// The surface was ever given a size. The first commit of a surface must
    /// carry one.
    pub size_requested: bool,
    /// Memory that frames are rendered in.
    pub render_scratch: Vec<u8>,
    /// Size of the frame that was rendered last.
    pub needed_phys: (u32, u32),
    /// Signature of what is shown; 0 where that is not known.
    pub last_sig: u64,
    /// Counts the surfaces, so that a new one always gets a frame.
    pub surface_generation: u64,
    /// When the last frame was committed, in nanoseconds.
    pub last_draw_at: Option<u64>,
    /// The timer is armed.
    pub deferred_redraw: bool,
    pub focused_output_name: Option<String>,
    pub viewport_width: S::Narrow,
    pub output_height: S::Narrow,
    /// For each workspace, the left edge of its view as it was known last. It
    /// keeps floating windows in place while no tiled window tells it.
    pub view_left: HashMap<u64, S>,
    /// The frame that was committed last.
    pub last_committed: Vec<u8>,
}

impl<S: Wide, B> View for App<S, B> {
    type V = Model<S, B>;

    open spec fn view(&self) -> Model<S, B> {
        Model {
            outputs: self.outputs@,
            overlay: self.overlay,
            config: self.config,
            pool: self.pool,
            dirty: self.dirty,
            frame_cb: self.frame_cb,
            surface_scale: self.surface_scale,
            configured: self.configured,
            desired_size: self.desired_size,
            size_pending: self.size_pending,
            size_requested: self.size_requested,
            scratch: self.render_scratch@,
            needed_phys: self.needed_phys,
            last_sig: self.last_sig,
            surface_generation: self.surface_generation,
            last_draw_at: self.last_draw_at,
            deferred_redraw: self.deferred_redraw,
            focused: text_of_option(self.focused_output_name),
            viewport_width: self.viewport_width,
            output_height: self.output_height,
            view_left: self.view_left@,
            last_committed: self.last_committed@,
        }
    }
}

impl<S: Wide, B> App<S, B> {
    /// The widget before its first surface.
    fn blank(config: Config<S>) -> (r: Self)
        ensures
            r@.outputs.len() == 0,
            r@.overlay is None,
            r@.config == config,
            r@.pool.wf(),
            r@.pool.slots().len() == 0,
            r@.pool.next() == 1,
            r@.dirty,
            r@.frame_cb is None,
            r@.surface_scale == 1,
            r@.configured is None,
            r@.desired_size == (0u32, 0u32),
            !r@.size_pending,
            !r@.size_requested,
            r@.scratch.len() == 0,
            r@.needed_phys == (0u32, 0u32),
            r@.last_sig == 0,
            r@.surface_generation == 0,
            r@.last_draw_at is None,
            !r@.deferred_redraw,
            r@.focused is None,
            r@.viewport_width == <S::Narrow as Scalar>::spec_from_u64(1920),
            r@.output_height == <S::Narrow as Scalar>::spec_from_u64(1080),
            r@.view_left == Map::<u64, S>::empty(),
            r@.last_committed.len() == 0,
    {
        App {
            outputs: Vec::new(),
            overlay: None,
            config,
            pool: BufferPool::new(),
            dirty: true,
            frame_cb: None,
            surface_scale: 1,
            configured: None,
            desired_size: (0, 0),
            size_pending: false,
            size_requested: false,
            render_scratch: Vec::new(),
            needed_phys: (0, 0),
            last_sig: 0,
            surface_generation: 0,
            last_draw_at: None,
            deferred_redraw: false,
            focused_output_name: None,
            viewport_width: <S::Narrow as Scalar>::from_u64(1920),
            output_height: <S::Narrow as Scalar>::from_u64(1080),
            view_left: HashMap::new(),
            last_committed: Vec::new(),
        }
    }

    /// Starts the widget, with its first surface.
    pub fn new<L: Fn(&str) -> Option<Pixmap>>(
        config: Config<S>,
        snap: &Snapshot<S>,
        icons: &mut IconCache,
        look_up: &L,
        todo: &mut Vec<Effect>,
    ) -> (r: Self)
        requires
            forall|id: &str| #[trigger] look_up.requires((id,)),
        ensures
            looked_for(*old(icons), content_ids(config, *snap), *look_up, *final(icons)),
            exists|start: Model<S, B>| #[trigger]
                is_start(start, config) && (r@, final(todo)@) == (
                    start.recreated(*snap, *final(icons)).0,
                    old(todo)@ + start.recreated(*snap, *final(icons)).1,
                ),
    {
        let mut app = App::blank(config);
        assert(is_start(app@, config));
        app.recreate_overlay(snap, icons, look_up, todo);
        app
    }

    /// Takes up the outputs that were announced at the start, each by its number
    /// and that of its protocol object.
    pub fn init_outputs(&mut self, outputs: &[(u32, u64)], todo: &mut Vec<Effect>)
        ensures
            (final(self)@, final(todo)@) == (
                with_outputs(old(self)@, outputs@).rescaled().0,
                old(todo)@ + with_outputs(old(self)@, outputs@).rescaled().1,
            ),
    {
        let mut i: usize = 0;
        assert(outputs@.take(0) =~= Seq::empty());
        while i < outputs.len()
            invariant
                i <= outputs@.len(),
                self@ == with_outputs(old(self)@, outputs@.take(i as int)),
                todo@ == old(todo)@,
            decreases outputs@.len() - i,
        {
            let (registry_name, handle) = outputs[i];
            self.outputs.push(OutputInfo { registry_name, name: None, scale: 1, handle });
            assert(outputs@.take(i + 1).drop_last() =~= outputs@.take(i as int));
            i = i + 1;
        }
        assert(outputs@.take(i as int) =~= outputs@);
        self.update_surface_scale(todo);
    }

    fn compute_signature(&self, snap: &Snapshot<S>) -> (r: u64)
        ensures
            r == self@.signature(*snap),
    {
        let name: Option<&str> = match &self.focused_output_name {
            Some(name) => Some(name.as_str()),
            None => None,
        };
        content_signature(
            &self.config,
            self.surface_generation,
            self.surface_scale,
            self.configured,
            name,
            self.viewport_width,
            self.output_height,
            snap.workspaces.as_slice(),
            snap.windows.as_slice(),
            snap.outputs.as_slice(),
        )
    }

    /// Looks for the icons that are needed to tell what is drawn.
    fn look_for_content<L: Fn(&str) -> Option<Pixmap>>(
        &self,
        snap: &Snapshot<S>,
        icons: &mut IconCache,
        look_up: &L,
    )
        requires
            forall|id: &str| #[trigger] look_up.requires((id,)),
        ensures
            looked_for(
                *old(icons),
                content_ids(self@.config, *snap),
                *look_up,
                *final(icons),
            ),
    {
        proof {
            lemma_nothing_asked(*icons, *look_up);
        }
        if !self.config.appearance.show_icons {
            return;
        }
        if !self.config.is_stacked() {
            if let Some(ws) = focused_workspace(snap.workspaces.as_slice()) {
                look_for_icons(ws, snap.windows.as_slice(), icons, look_up);
            }
            return;
        }
        let list = all_rows(snap.workspaces.as_slice(), snap.windows.as_slice());
        let ghost all = list@.unref();
        let mut i: usize = 0;
        assert(all.take(0) =~= Seq::empty());
        while i < list.len()
            invariant
                i <= list@.len(),
                all == list@.unref(),
                looked_for(
                    *old(icons),
                    rows_ids(all.take(i as int), snap.windows@),
                    *look_up,
                    *icons,
                ),
                forall|id: &str| #[trigger] look_up.requires((id,)),
            decreases list@.len() - i,
        {
            let ghost between = *icons;
            look_for_icons(list[i], snap.windows.as_slice(), icons, look_up);
            proof {
                assert(all.take(i + 1).drop_last() =~= all.take(i as int));
                lemma_asked_in_turn(
                    *old(icons),
                    rows_ids(all.take(i as int), snap.windows@),
                    between,
                    row_ids(all[i as int], snap.windows@),
                    *look_up,
                    *icons,
                );
            }
            i = i + 1;
        }
        assert(all.take(i as int) =~= all);
    }

    /// Builds the rows that are drawn.
    fn build_content<L: Fn(&str) -> Option<Pixmap>>(
        &mut self,
        snap: &Snapshot<S>,
        icons: &mut IconCache,
        look_up: &L,
    ) -> (r: (Option<Row<S>>, Vec<RowView<S>>))
        requires
            forall|id: &str| #[trigger] look_up.requires((id,)),
        ensures
            looked_for(
                *old(icons),
                old(self)@.asked(true, *snap),
                *look_up,
                *final(icons),
            ),
            (viewed(r.0), lines(r.1@), final(self)@.view_left) == old(self)@.content(
                *snap,
                *final(icons),
            ),
            final(self)@ == (Model { view_left: final(self)@.view_left, ..old(self)@ }),
    {
        self.look_for_content(snap, icons, look_up);
        let shown: Option<&IconCache> = if self.config.appearance.show_icons {
            Some(&*icons)
        } else {
            None
        };
        if self.config.is_stacked() {
            let list = all_rows(snap.workspaces.as_slice(), snap.windows.as_slice());
            let rows = rows_for(
                &mut self.view_left,
                snap.windows.as_slice(),
                list.as_slice(),
                shown,
            );
            (None, rows)
        } else {
            let none: Vec<RowView<S>> = Vec::new();
            assert(lines(none@) =~= Seq::empty());
            match focused_workspace(snap.workspaces.as_slice()) {
                Some(ws) => {
                    let row = row_for_workspace(
                        &mut self.view_left,
                        snap.windows.as_slice(),
                        ws,
                        shown,
                    );
                    (Some(row), none)
                },
                None => (None, none),
            }
        }
    }

    fn compute_desired_size<L: Fn(&str) -> Option<Pixmap>>(
        &mut self,
        snap: &Snapshot<S>,
        icons: &mut IconCache,
        look_up: &L,
    ) -> (r: (u32, u32))
        requires
            forall|id: &str| #[trigger] look_up.requires((id,)),
        ensures
            looked_for(
                *old(icons),
                old(self)@.asked(true, *snap),
                *look_up,
                *final(icons),
            ),
            r == old(self)@.wanted_size(*snap, *final(icons)),
            final(self)@ == (Model {
                view_left: old(self)@.content(*snap, *final(icons)).2,
                ..old(self)@
            }),
    {
        let (focused, rows) = self.build_content(snap, icons, look_up);
        let (w, h) = if self.config.is_stacked() {
            size_for_stack(
                &self.config,
                rows.as_slice(),
                self.viewport_width,
                self.output_height,
            )
        } else {
            size_for_current(&self.config, &focused, self.viewport_width)
        };
        (clamp_side(w), clamp_side(h))
    }

    fn update_desired_size<L: Fn(&str) -> Option<Pixmap>>(
        &mut self,
        snap: &Snapshot<S>,
        icons: &mut IconCache,
        look_up: &L,
        todo: &mut Vec<Effect>,
    )
        requires
            forall|id: &str| #[trigger] look_up.requires((id,)),
        ensures
            looked_for(
                *old(icons),
                old(self)@.asked(old(self)@.overlay is Some, *snap),
                *look_up,
                *final(icons),
            ),
            (final(self)@, final(todo)@) == (
                old(self)@.resized(*snap, *final(icons)).0,
                old(todo)@ + old(self)@.resized(*snap, *final(icons)).1,
            ),
    {
        if self.overlay.is_none() {
            assert(todo@ =~= old(todo)@ + Seq::<Effect>::empty());
            proof {
                lemma_nothing_asked(*icons, *look_up);
            }
            return;
        }
        let (w, h) = self.compute_desired_size(snap, icons, look_up);
        if !self.size_requested || w != self.desired_size.0 || h != self.desired_size.1 {
            self.desired_size = (w, h);
            self.size_requested = true;
            self.size_pending = true;
            todo.push(Effect::RequestSize(w, h));
            assert(todo@ =~= old(todo)@ + seq![Effect::RequestSize(w, h)]);
        } else {
            assert(todo@ =~= old(todo)@ + Seq::<Effect>::empty());
        }
    }

    fn output_named(&self, name: &str) -> (r: Option<usize>)
        ensures
            match (r, first_index(self@.outputs, is_named(name@))) {
                (Some(i), Some(j)) => i == j && i < self@.outputs.len(),
                (None, None) => true,
                _ => false,
            },
    {
        proof {
            lemma_first_index(self.outputs@, is_named(name@));
        }
        let mut i: usize = 0;
        while i < self.outputs.len()
            invariant
                i <= self.outputs@.len(),
                forall|j: int| 0 <= j < i ==> !is_named(name@)(#[trigger] self.outputs@[j]),
                match first_index(self.outputs@, is_named(name@)) {
                    Some(k) => 0 <= k < self.outputs@.len() && is_named(name@)(self.outputs@[k])
                        && forall|j: int|
                        0 <= j < k ==> !is_named(name@)(#[trigger] self.outputs@[j]),
                    None => forall|j: int|
                        0 <= j < self.outputs@.len() ==> !is_named(name@)(
                            #[trigger] self.outputs@[j],
                        ),
                },
            decreases self.outputs@.len() - i,
        {
            if let Some(n) = &self.outputs[i].name {
                if same_text(n.as_str(), name) {
                    assert(is_named(name@)(self.outputs@[i as int]));
                    return Some(i);
                }
            }
            i = i + 1;
        }
        None
    }

    fn output_with(&self, handle: u64) -> (r: Option<usize>)
        ensures
            match (r, first_index(self@.outputs, has_handle(handle))) {
                (Some(i), Some(j)) => i == j && i < self@.outputs.len(),
                (None, None) => true,
                _ => false,
            },
    {
        proof {
            lemma_first_index(self.outputs@, has_handle(handle));
        }
        let mut i: usize = 0;
        while i < self.outputs.len()
            invariant
                i <= self.outputs@.len(),
                forall|j: int| 0 <= j < i ==> !has_handle(handle)(#[trigger] self.outputs@[j]),
                match first_index(self.outputs@, has_handle(handle)) {
                    Some(k) => 0 <= k < self.outputs@.len() && has_handle(handle)(
                        self.outputs@[k],
                    ) && forall|j: int|
                        0 <= j < k ==> !has_handle(handle)(#[trigger] self.outputs@[j]),
                    None => forall|j: int|
                        0 <= j < self.outputs@.len() ==> !has_handle(handle)(
                            #[trigger] self.outputs@[j],
                        ),
                },
            decreases self.outputs@.len() - i,
        {
            if self.outputs[i].handle == handle {
                assert(has_handle(handle)(self.outputs@[i as int]));
                return Some(i);
            }
            i = i + 1;
        }
        None
    }

    fn focused_output_proxy(&self) -> (r: Option<u64>)
        ensures
            r == self@.home_output(),
    {
        if self.config.display.follow_focus {
            if let Some(name) = &self.focused_output_name {
                if let Some(i) = self.output_named(name.as_str()) {
                    return Some(self.outputs[i].handle);
                }
            }
        }
        if self.outputs.len() > 0 {
            Some(self.outputs[0].handle)
        } else {
            None
        }
    }

    fn set_scale(&mut self, scale: i32, todo: &mut Vec<Effect>)
        ensures
            (final(self)@, final(todo)@) == (
                old(self)@.with_scale(scale).0,
                old(todo)@ + old(self)@.with_scale(scale).1,
            ),
    {
        if scale != self.surface_scale {
            self.surface_scale = scale;
            if self.overlay.is_some() {
                todo.push(Effect::SetBufferScale(scale));
            }
            self.dirty = true;
        }
        assert(todo@ =~= old(todo)@ + old(self)@.with_scale(scale).1);
    }

    fn update_surface_scale(&mut self, todo: &mut Vec<Effect>)
        ensures
            (final(self)@, final(todo)@) == (
                old(self)@.rescaled().0,
                old(todo)@ + old(self)@.rescaled().1,
            ),
    {
        let found: Option<usize> = match (
            self.config.display.follow_focus,
            &self.focused_output_name,
        ) {
            (true, Some(name)) => self.output_named(name.as_str()),
            _ => match &self.overlay {
                Some(overlay) => match overlay.output {
                    Some(handle) => self.output_with(handle),
                    None => None,
                },
                None => None,
            },
        };
        let scale: i32 = match found {
            Some(i) => if self.outputs[i].scale < 1 {
                1
            } else {
                self.outputs[i].scale
            },
            None => 1,
        };
        self.set_scale(scale, todo);
    }

    fn recreate_overlay<L: Fn(&str) -> Option<Pixmap>>(
        &mut self,
        snap: &Snapshot<S>,
        icons: &mut IconCache,
        look_up: &L,
        todo: &mut Vec<Effect>,
    )
        requires
            forall|id: &str| #[trigger] look_up.requires((id,)),
        ensures
            looked_for(
                *old(icons),
                old(self)@.asked(true, *snap),
                *look_up,
                *final(icons),
            ),
            (final(self)@, final(todo)@) == (
                old(self)@.recreated(*snap, *final(icons)).0,
                old(todo)@ + old(self)@.recreated(*snap, *final(icons)).1,
            ),
    {
        let ghost start = self@;
        let ghost before = todo@;
        if self.overlay.is_some() {
            todo.push(Effect::DestroySurface);
        }
        self.frame_cb = None;
        self.configured = None;
        self.desired_size = (0, 0);
        self.size_pending = false;
        self.size_requested = false;
        self.last_committed.clear();
        self.surface_generation = self.surface_generation.wrapping_add(1);
        self.last_sig = 0;
        self.dirty = true;
        let output: Option<u64> = self.focused_output_proxy();
        let generation: u64 = self.surface_generation;
        let edges = anchor_bits(self.config.display.anchor.as_str());
        let margins = Margins {
            top: self.config.display.margin_y,
            right: self.config.display.margin_x,
            bottom: self.config.display.margin_y,
            left: self.config.display.margin_x,
        };
        todo.push(Effect::CreateSurface { generation, output, edges, margins });
        self.overlay = Some(Overlay { generation, output });
        assert(self@ == start.fresh());
        let ghost opened = todo@;
        self.update_surface_scale(todo);
        let ghost scaled = todo@;
        let scale: i32 = if self.surface_scale < 1 {
            1
        } else {
            self.surface_scale
        };
        todo.push(Effect::SetBufferScale(scale));
        self.update_desired_size(snap, icons, look_up, todo);
        assert(todo@ =~= before + start.recreated(*snap, *icons).1);
    }

    fn update_focused_output<L: Fn(&str) -> Option<Pixmap>>(
        &mut self,
        snap: &Snapshot<S>,
        icons: &mut IconCache,
        look_up: &L,
        todo: &mut Vec<Effect>,
    )
        requires
            forall|id: &str| #[trigger] look_up.requires((id,)),
        ensures
            looked_for(
                *old(icons),
                old(self)@.asked(old(self)@.must_move(*snap), *snap),
                *look_up,
                *final(icons),
            ),
            (final(self)@, final(todo)@) == (
                old(self)@.refocused(*snap, *final(icons)).0,
                old(todo)@ + old(self)@.refocused(*snap, *final(icons)).1,
            ),
    {
        let wanted: &Option<String> = if self.config.display.follow_focus {
            match focused_workspace(snap.workspaces.as_slice()) {
                Some(ws) => &ws.output,
                None => &None,
            }
        } else if self.outputs.len() > 0 {
            &self.outputs[0].name
        } else {
            &None
        };
        let name: Option<String> = match wanted {
            Some(output) => Some(output.clone()),
            None => None,
        };
        assert(text_of_option(name) == self@.wanted_output(*snap));
        if !same_option(&name, &self.focused_output_name) || self.is_astray() {
            self.focused_output_name = name;
            self.recreate_overlay(snap, icons, look_up, todo);
        } else {
            assert(todo@ =~= old(todo)@ + Seq::<Effect>::empty());
            proof {
                lemma_nothing_asked(*icons, *look_up);
            }
        }
    }

    fn is_astray(&self) -> (r: bool)
        ensures
            r == self@.is_astray(),
    {
        if self.config.display.follow_focus || self.outputs.len() == 0 {
            return false;
        }
        match &self.overlay {
            Some(overlay) => overlay.output != self.focused_output_proxy(),
            None => false,
        }
    }

    fn update_viewport(&mut self, snap: &Snapshot<S>)
        ensures
            final(self)@ == old(self)@.measured(*snap),
    {
        let size: Option<(u32, u32)> = match &self.focused_output_name {
            Some(name) => find_logical_size(snap.outputs.as_slice(), name.as_str()),
            None => None,
        };
        if let Some((w, h)) = size {
            self.viewport_width = <S::Narrow as Scalar>::from_u64(w as u64);
            self.output_height = <S::Narrow as Scalar>::from_u64(h as u64);
        }
    }

    fn pump(&mut self, snap: &Snapshot<S>, now: u64, todo: &mut Vec<Effect>)
        ensures
            (final(self)@, final(todo)@) == (
                old(self)@.pumped(*snap, now).0,
                old(todo)@ + old(self)@.pumped(*snap, now).1,
            ),
    {
        let ghost start = self@;
        if !self.dirty || self.frame_cb.is_some() || self.configured.is_none() || self.size_pending {
            assert(todo@ =~= old(todo)@ + Seq::<Effect>::empty());
            return;
        }
        let sig: u64 = self.compute_signature(snap);
        if sig != 0 && sig == self.last_sig {
            self.dirty = false;
            assert(todo@ =~= old(todo)@ + Seq::<Effect>::empty());
            return;
        }
        let early: bool = match self.last_draw_at {
            Some(t) => now < t || now - t < REDRAW_MIN_INTERVAL,
            None => false,
        };
        if early {
            self.defer_draw(todo);
        } else {
            todo.push(Effect::Draw(sig));
        }
        assert(todo@ =~= old(todo)@ + start.pumped(*snap, now).1);
    }

    fn defer_draw(&mut self, todo: &mut Vec<Effect>)
        ensures
            final(self)@ == (Model { deferred_redraw: true, ..old(self)@ }),
            final(todo)@ == if old(self)@.deferred_redraw {
                old(todo)@
            } else {
                old(todo)@.push(Effect::ArmTimer)
            },
    {
        if !self.deferred_redraw {
            self.deferred_redraw = true;
            todo.push(Effect::ArmTimer);
        }
    }

    fn renew<L: Fn(&str) -> Option<Pixmap>>(
        &mut self,
        snap: &Snapshot<S>,
        icons: &mut IconCache,
        look_up: &L,
        now: u64,
        todo: &mut Vec<Effect>,
    )
        requires
            forall|id: &str| #[trigger] look_up.requires((id,)),
        ensures
            looked_for(
                *old(icons),
                old(self)@.asked(old(self)@.overlay is Some, *snap),
                *look_up,
                *final(icons),
            ),
            (final(self)@, final(todo)@) == (
                old(self)@.renewed(*snap, *final(icons), now).0,
                old(todo)@ + old(self)@.renewed(*snap, *final(icons), now).1,
            ),
    {
        let ghost start = self@;
        self.dirty = true;
        self.update_desired_size(snap, icons, look_up, todo);
        self.pump(snap, now, todo);
        assert(todo@ =~= old(todo)@ + start.renewed(*snap, *icons, now).1);
    }

    /// The state of the compositor changed.
    pub fn on_state_changed<L: Fn(&str) -> Option<Pixmap>>(
        &mut self,
        snap: &Snapshot<S>,
        icons: &mut IconCache,
        look_up: &L,
        now: u64,
        todo: &mut Vec<Effect>,
    )
        requires
            forall|id: &str| #[trigger] look_up.requires((id,)),
        ensures
            looked_for(
                *old(icons),
                old(self)@.asked(old(self)@.resizes(*snap), *snap),
                *look_up,
                *final(icons),
            ),
            (final(self)@, final(todo)@) == (
                old(self)@.state_changed(*snap, *final(icons), now).0,
                old(todo)@ + old(self)@.state_changed(*snap, *final(icons), now).1,
            ),
    {
        let ghost start = self@;
        let ghost held = *icons;
        self.update_focused_output(snap, icons, look_up, todo);
        self.update_viewport(snap);
        let ghost seen = self@;
        let ghost between = *icons;
        let ghost first = start.asked(start.must_move(*snap), *snap);
        let ghost second = seen.asked(
            seen.overlay is Some && seen.signature(*snap) != seen.last_sig,
            *snap,
        );
        proof {
            lemma_nothing_asked(between, *look_up);
        }
        if self.compute_signature(snap) != self.last_sig {
            self.renew(snap, icons, look_up, now, todo);
        }
        proof {
            lemma_asked_in_turn(held, first, between, second, *look_up, *icons);
            assert(first.union(second) =~= start.asked(start.resizes(*snap), *snap));
            assert(start.refocused(*snap, between) == start.refocused(*snap, *icons));
        }
        assert(todo@ =~= old(todo)@ + start.state_changed(*snap, *icons, now).1);
    }

    /// The configuration was read again.
    #[verifier::rlimit(40)]
    pub fn on_config_reload<L: Fn(&str) -> Option<Pixmap>>(
        &mut self,
        new: Config<S>,
        snap: &Snapshot<S>,
        icons: &mut IconCache,
        look_up: &L,
        now: u64,
        todo: &mut Vec<Effect>,
    )
        requires
            forall|id: &str| #[trigger] look_up.requires((id,)),
        ensures
            looked_for(
                *old(icons),
                (Model { config: new, ..old(self)@ }).asked(
                    old(self)@.resizes_for(new, *snap),
                    *snap,
                ),
                *look_up,
                *final(icons),
            ),
            (final(self)@, final(todo)@) == (
                old(self)@.reconfigured(new, *snap, *final(icons), now).0,
                old(todo)@ + old(self)@.reconfigured(new, *snap, *final(icons), now).1,
            ),
    {
        let ghost start = self@;
        let ghost before = todo@;
        let must: bool = new.display.follow_focus != self.config.display.follow_focus;
        let ghost held = *icons;
        self.place(new, snap, icons, look_up, todo);
        let ghost icons_placed = *icons;
        self.lead(must, snap, icons, look_up, todo);
        let ghost icons_led = *icons;
        self.renew(snap, icons, look_up, now, todo);
        proof {
            lemma_reload_asks(start, new, *snap, held, icons_placed, icons_led, *icons, *look_up);
        }
        assert(todo@ =~= before + start.reconfigured(new, *snap, *icons, now).1);
    }

    fn place<L: Fn(&str) -> Option<Pixmap>>(
        &mut self,
        new: Config<S>,
        snap: &Snapshot<S>,
        icons: &mut IconCache,
        look_up: &L,
        todo: &mut Vec<Effect>,
    )
        requires
            forall|id: &str| #[trigger] look_up.requires((id,)),
        ensures
            looked_for(
                *old(icons),
                (Model { config: new, ..old(self)@ }).asked(
                    new.moves_widget(old(self)@.config),
                    *snap,
                ),
                *look_up,
                *final(icons),
            ),
            (final(self)@, final(todo)@) == (
                old(self)@.placed(new, *snap, *final(icons)).0,
                old(todo)@ + old(self)@.placed(new, *snap, *final(icons)).1,
            ),
    {
        let moved: bool = new.placement_changed(&self.config);
        self.config = new;
        proof {
            lemma_nothing_asked(*icons, *look_up);
        }
        if moved {
            self.recreate_overlay(snap, icons, look_up, todo);
        } else {
            assert(todo@ =~= old(todo)@ + Seq::<Effect>::empty());
        }
    }

    fn lead<L: Fn(&str) -> Option<Pixmap>>(
        &mut self,
        must: bool,
        snap: &Snapshot<S>,
        icons: &mut IconCache,
        look_up: &L,
        todo: &mut Vec<Effect>,
    )
        requires
            forall|id: &str| #[trigger] look_up.requires((id,)),
        ensures
            looked_for(
                *old(icons),
                old(self)@.asked(must && old(self)@.must_move(*snap), *snap),
                *look_up,
                *final(icons),
            ),
            (final(self)@, final(todo)@) == (
                old(self)@.led(must, *snap, *final(icons)).0,
                old(todo)@ + old(self)@.led(must, *snap, *final(icons)).1,
            ),
    {
        proof {
            lemma_nothing_asked(*icons, *look_up);
        }
        if must {
            self.update_focused_output(snap, icons, look_up, todo);
            self.update_viewport(snap);
        } else {
            assert(todo@ =~= old(todo)@ + Seq::<Effect>::empty());
        }
    }

    /// A message came; `config` is the configuration that was read for it, where
    /// one could be.
    pub fn on_msg<L: Fn(&str) -> Option<Pixmap>>(
        &mut self,
        msg: UiMsg,
        config: Option<Config<S>>,
        snap: &Snapshot<S>,
        icons: &mut IconCache,
        look_up: &L,
        now: u64,
        todo: &mut Vec<Effect>,
    )
        requires
            forall|id: &str| #[trigger] look_up.requires((id,)),
        ensures
            looked_for(
                *old(icons),
                match (msg, config) {
                    (UiMsg::StateChanged { .. }, _) => old(self)@.asked(
                        old(self)@.resizes(*snap),
                        *snap,
                    ),
                    (UiMsg::ConfigReload, Some(new)) => (Model {
                        config: new,
                        ..old(self)@
                    }).asked(old(self)@.resizes_for(new, *snap), *snap),
                    (UiMsg::ConfigReload, None) => Set::empty(),
                },
                *look_up,
                *final(icons),
            ),
            match (msg, config) {
                (UiMsg::StateChanged { .. }, _) => (final(self)@, final(todo)@) == (
                    old(self)@.state_changed(*snap, *final(icons), now).0,
                    old(todo)@ + old(self)@.state_changed(*snap, *final(icons), now).1,
                ),
                (UiMsg::ConfigReload, Some(new)) => (final(self)@, final(todo)@) == (
                    old(self)@.reconfigured(new, *snap, *final(icons), now).0,
                    old(todo)@ + old(self)@.reconfigured(new, *snap, *final(icons), now).1,
                ),
                (UiMsg::ConfigReload, None) => (final(self)@, final(todo)@) == (
                    old(self)@,
                    old(todo)@,
                ),
            },
    {
        proof {
            lemma_nothing_asked(*icons, *look_up);
        }
        match (msg, config) {
            (UiMsg::StateChanged { .. }, _) => {
                self.on_state_changed(snap, icons, look_up, now, todo);
            },
            (UiMsg::ConfigReload, Some(new)) => {
                self.on_config_reload(new, snap, icons, look_up, now, todo);
            },
            (UiMsg::ConfigReload, None) => {},
        }
    }

    /// The compositor configured a size for the surface of some generation.
    pub fn on_configure(
        &mut self,
        generation: u64,
        w: u32,
        h: u32,
        snap: &Snapshot<S>,
        now: u64,
        todo: &mut Vec<Effect>,
    )
        ensures
            (final(self)@, final(todo)@) == (
                old(self)@.sized(generation, w, h, *snap, now).0,
                old(todo)@ + old(self)@.sized(generation, w, h, *snap, now).1,
            ),
    {
        let ghost start = self@;
        let current: bool = match &self.overlay {
            Some(overlay) => overlay.generation == generation,
            None => false,
        };
        if current {
            todo.push(Effect::AckConfigure);
            self.configured = Some(
                (
                    if w == 0 {
                        1
                    } else {
                        w
                    },
                    if h == 0 {
                        1
                    } else {
                        h
                    },
                ),
            );
            self.size_pending = false;
            self.dirty = true;
            self.pump(snap, now, todo);
        }
        assert(todo@ =~= old(todo)@ + start.sized(generation, w, h, *snap, now).1);
    }

    /// The compositor closed the surface.
    pub fn on_closed<L: Fn(&str) -> Option<Pixmap>>(
        &mut self,
        snap: &Snapshot<S>,
        icons: &mut IconCache,
        look_up: &L,
        todo: &mut Vec<Effect>,
    )
        requires
            forall|id: &str| #[trigger] look_up.requires((id,)),
        ensures
            looked_for(
                *old(icons),
                old(self)@.asked(true, *snap),
                *look_up,
                *final(icons),
            ),
            (final(self)@, final(todo)@) == (
                old(self)@.recreated(*snap, *final(icons)).0,
                old(todo)@ + old(self)@.recreated(*snap, *final(icons)).1,
            ),
    {
        self.recreate_overlay(snap, icons, look_up, todo);
    }

    /// The callback of a frame came.
    pub fn on_frame_done(&mut self, frame: u64, snap: &Snapshot<S>, now: u64, todo: &mut Vec<Effect>)
        ensures
            (final(self)@, final(todo)@) == (
                old(self)@.frame_shown(frame, *snap, now).0,
                old(todo)@ + old(self)@.frame_shown(frame, *snap, now).1,
            ),
    {
        let awaited: bool = match self.frame_cb {
            Some(f) => f == frame,
            None => false,
        };
        if awaited {
            self.frame_cb = None;
            self.pump(snap, now, todo);
        } else {
            assert(todo@ =~= old(todo)@ + Seq::<Effect>::empty());
        }
    }

    /// The timer went off.
    pub fn on_timer(&mut self, snap: &Snapshot<S>, now: u64, todo: &mut Vec<Effect>)
        ensures
            (final(self)@, final(todo)@) == (
                old(self)@.timed(*snap, now).0,
                old(todo)@ + old(self)@.timed(*snap, now).1,
            ),
    {
        self.deferred_redraw = false;
        self.pump(snap, now, todo);
    }

    /// The compositor released a buffer. What comes back is to be destroyed.
    pub fn on_buffer_release(
        &mut self,
        proxy_id: u32,
        snap: &Snapshot<S>,
        now: u64,
        todo: &mut Vec<Effect>,
    ) -> (r: Vec<Slot<B>>)
        requires
            old(self)@.pool.wf(),
        ensures
            final(self)@.pool.wf(),
            final(self)@.pool.slots() == reclaimed(
                released(old(self)@.pool.slots(), proxy_id),
                old(self)@.needed_phys,
            ),
            final(self)@.pool.next() == old(self)@.pool.next(),
            r@ == given_back(
                released(old(self)@.pool.slots(), proxy_id),
                old(self)@.needed_phys,
            ),
            (final(self)@, final(todo)@) == ({
                let freed = Model { pool: final(self)@.pool, ..old(self)@ };
                (freed.pumped(*snap, now).0, old(todo)@ + freed.pumped(*snap, now).1)
            }),
    {
        let gone = self.pool.release(proxy_id, self.needed_phys);
        self.pump(snap, now, todo);
        gone
    }

    /// An output was announced, by its number and that of its protocol object.
    pub fn on_output_added(&mut self, registry_name: u32, handle: u64, todo: &mut Vec<Effect>)
        ensures
            (final(self)@, final(todo)@) == (
                old(self)@.with_output(registry_name, handle).rescaled().0,
                old(todo)@ + old(self)@.with_output(registry_name, handle).rescaled().1,
            ),
    {
        self.outputs.push(OutputInfo { registry_name, name: None, scale: 1, handle });
        self.update_surface_scale(todo);
    }

    /// The output with this number is gone.
    pub fn on_output_removed(&mut self, registry_name: u32)
        ensures
            final(self)@ == (Model {
                outputs: old(self)@.outputs.filter(
                    |o: OutputInfo| o.registry_name != registry_name,
                ),
                ..old(self)@
            }),
    {
        let ghost all = self.outputs@;
        let ghost stays = |o: OutputInfo| o.registry_name != registry_name;
        let ghost mut done: int = 0;
        let mut i: usize = 0;
        proof {
            reveal(Seq::filter);
        }
        assert(all.take(0).filter(stays) + all.skip(0) =~= all);
        while i < self.outputs.len()
            invariant
                all == old(self)@.outputs,
                stays == (|o: OutputInfo| o.registry_name != registry_name),
                0 <= done <= all.len(),
                i == all.take(done).filter(stays).len(),
                self.outputs@ == all.take(done).filter(stays) + all.skip(done),
                self@ == (Model { outputs: self.outputs@, ..old(self)@ }),
            decreases all.len() - done,
        {
            assert(self.outputs@[i as int] == all[done]);
            proof {
                reveal(Seq::filter);
                assert(all.take(done + 1).drop_last() =~= all.take(done));
                assert(all.take(done + 1).last() == all[done]);
            }
            if self.outputs[i].registry_name != registry_name {
                assert(all.take(done).filter(stays) + all.skip(done) =~= all.take(done).filter(
                    stays,
                ).push(all[done]) + all.skip(done + 1));
                i = i + 1;
            } else {
                let _gone = self.outputs.remove(i);
                assert(self.outputs@ =~= all.take(done).filter(stays) + all.skip(done + 1));
            }
            proof {
                done = done + 1;
            }
        }
        assert(all.take(done) =~= all);
        assert(self.outputs@ =~= all.filter(stays));
    }

    /// The scale of an output was reported.
    pub fn on_output_scale(
        &mut self,
        handle: u64,
        factor: i32,
        snap: &Snapshot<S>,
        now: u64,
        todo: &mut Vec<Effect>,
    )
        ensures
            (final(self)@, final(todo)@) == (
                old(self)@.output_scaled(handle, factor, *snap, now).0,
                old(todo)@ + old(self)@.output_scaled(handle, factor, *snap, now).1,
            ),
    {
        let ghost start = self@;
        if let Some(i) = self.output_with(handle) {
            self.outputs[i].scale = factor;
        }
        self.update_surface_scale(todo);
        self.dirty = true;
        self.pump(snap, now, todo);
        assert(todo@ =~= old(todo)@ + start.output_scaled(handle, factor, *snap, now).1);
    }

    /// The name of an output was reported. It may be the focused one, of which
    /// the compositor told before.
    pub fn on_output_name<L: Fn(&str) -> Option<Pixmap>>(
        &mut self,
        handle: u64,
        name: String,
        snap: &Snapshot<S>,
        icons: &mut IconCache,
        look_up: &L,
        todo: &mut Vec<Effect>,
    )
        requires
            forall|id: &str| #[trigger] look_up.requires((id,)),
        ensures
            looked_for(
                *old(icons),
                old(self)@.asked(old(self)@.focused == Some(name@), *snap),
                *look_up,
                *final(icons),
            ),
            exists|known: Model<S, B>|
                {
                    &&& #[trigger] is_renamed(old(self)@, known, handle, name@)
                    &&& (final(self)@, final(todo)@) == if old(self)@.focused == Some(name@) {
                        let (scaled, first) = known.rescaled();
                        let (done, last) = scaled.recreated(*snap, *final(icons));
                        (done, old(todo)@ + (first + last))
                    } else {
                        (known.rescaled().0, old(todo)@ + known.rescaled().1)
                    }
                },
    {
        let focused: bool = match &self.focused_output_name {
            Some(f) => same_text(f.as_str(), name.as_str()),
            None => false,
        };
        if let Some(i) = self.output_with(handle) {
            self.outputs[i].name = Some(name);
        }
        let ghost known = self@;
        assert(is_renamed(old(self)@, known, handle, name@));
        proof {
            lemma_nothing_asked(*icons, *look_up);
        }
        self.update_surface_scale(todo);
        if focused {
            self.recreate_overlay(snap, icons, look_up, todo);
            assert(todo@ =~= old(todo)@ + (known.rescaled().1 + known.rescaled().0.recreated(
                *snap,
                *icons,
            ).1));
        }
    }

    /// The surface came to be on an output.
    pub fn on_surface_enter(&mut self, handle: u64, snap: &Snapshot<S>, now: u64, todo: &mut Vec<Effect>)
        ensures
            (final(self)@, final(todo)@) == (
                old(self)@.entered(handle, *snap, now).0,
                old(todo)@ + old(self)@.entered(handle, *snap, now).1,
            ),
    {
        let ghost start = self@;
        if let Some(i) = self.output_with(handle) {
            let scale: i32 = self.outputs[i].scale;
            if scale != self.surface_scale {
                self.surface_scale = if scale < 1 {
                    1
                } else {
                    scale
                };
                if self.overlay.is_some() {
                    todo.push(Effect::SetBufferScale(self.surface_scale));
                }
                self.dirty = true;
                self.pump(snap, now, todo);
            }
        }
        assert(todo@ =~= old(todo)@ + start.entered(handle, *snap, now).1);
    }
}

fn find_logical_size(outputs: &[Output], name: &str) -> (r: Option<(u32, u32)>)
    ensures
        r == logical_size(outputs@, name@),
{
    let ghost pred = |o: Output| o.name@ == name@;
    proof {
        lemma_first_index(outputs@, pred);
    }
    let mut i: usize = 0;
    while i < outputs.len()
        invariant
            i <= outputs@.len(),
            pred == (|o: Output| o.name@ == name@),
            forall|j: int| 0 <= j < i ==> !pred(#[trigger] outputs@[j]),
            match first_index(outputs@, pred) {
                Some(k) => 0 <= k < outputs@.len() && pred(outputs@[k]) && forall|j: int|
                    0 <= j < k ==> !pred(#[trigger] outputs@[j]),
                None => forall|j: int| 0 <= j < outputs@.len() ==> !pred(#[trigger] outputs@[j]),
            },
        decreases outputs@.len() - i,
    {
        if same_text(outputs[i].name.as_str(), name) {
            assert(pred(outputs@[i as int]));
            return outputs[i].logical;
        }
        i = i + 1;
    }
    None
}

impl<S: Wide, B> App<S, B> {
    /// Renders a frame of this size, if it can be held.
    fn render_frame<
        L: Fn(&str) -> Option<Pixmap>,
        P: FnOnce(Pixmap, Vec<Shape<S::Narrow>>, &IconCache) -> Pixmap,
    >(
        &mut self,
        size: (u32, u32),
        scale: i32,
        snap: &Snapshot<S>,
        icons: &mut IconCache,
        look_up: &L,
        paint: P,
    ) -> (r: bool)
        requires
            old(self)@.overlay is Some,
            old(self)@.configured is Some,
            size == old(self)@.frame_size(),
            scale == old(self)@.frame_scale(),
            forall|id: &str| #[trigger] look_up.requires((id,)),
            is_painter(paint),
        ensures
            looked_for(*old(icons), old(self)@.asked(true, *snap), *look_up, *final(icons)),
            r == old(self)@.can_draw(),
            !r ==> final(self)@ == (Model {
                last_sig: old(self)@.last_sig,
                ..old(self)@.failed(*snap, *final(icons))
            }),
            r ==> {
                let shown = old(self)@.drawing(*snap, *final(icons));
                let frame = painted(paint, shown, &*final(icons), size.0, size.1);
                &&& is_painted(paint, shown, &*final(icons), size.0, size.1, frame)
                &&& final(self)@ == old(self)@.rendered(*snap, *final(icons), frame)
            },
    {
        let ghost start = self@;
        let (focused, rows) = self.build_content(snap, icons, look_up);
        let focused_row: Option<&Row<S>> = match &focused {
            Some(row) => Some(row),
            None => None,
        };
        let ghost known = *icons;
        proof {
            lemma_drawing_is_known(start, *snap, known);
        }
        let done = render_into(
            &mut self.render_scratch,
            size.0,
            size.1,
            <S::Narrow as Scalar>::from_i64(scale as i64),
            &self.config.appearance,
            self.config.display.mode.as_str(),
            focused_row,
            rows.as_slice(),
            icons,
            self.config.appearance.show_icons,
            look_up,
            paint,
        );
        assert(*icons == known);
        if done.is_none() {
            assert(self@.scratch =~= start.failed(*snap, *icons).scratch);
            return false;
        }
        self.needed_phys = size;
        true
    }

    /// Draws a frame with this signature; `paint` paints the picture, `create`
    /// makes a buffer. What comes back is to be copied into its buffer,
    /// attached and committed; then `on_presented` is due.
    ///
    /// A frame that is the same as the last one is dropped. Where the compositor
    /// has all buffers, the widget stays out of date until one is released.
    pub fn draw<
        L: Fn(&str) -> Option<Pixmap>,
        P: FnOnce(Pixmap, Vec<Shape<S::Narrow>>, &IconCache) -> Pixmap,
        C: FnOnce(Option<&B>, u32, u32, u64) -> Option<Made<B>>,
    >(
        &mut self,
        sig: u64,
        snap: &Snapshot<S>,
        icons: &mut IconCache,
        look_up: &L,
        paint: P,
        create: C,
    ) -> (r: Option<Frame>)
        requires
            old(self)@.pool.wf(),
            forall|id: &str| #[trigger] look_up.requires((id,)),
            is_painter(paint),
            forall|b: Option<&B>, w: u32, h: u32, id: u64| #[trigger] create.requires((b, w, h, id)),
            makes_whole_buffers(create),
        ensures
            final(self)@.pool.wf(),
            looked_for(
                *old(icons),
                old(self)@.asked(
                    old(self)@.overlay is Some && old(self)@.configured is Some,
                    *snap,
                ),
                *look_up,
                *final(icons),
            ),
            old(self)@.overlay is None || old(self)@.configured is None ==> {
                &&& r is None
                &&& final(self)@ == (Model { last_sig: 0, ..old(self)@ })
            },
            old(self)@.overlay is Some && old(self)@.configured is Some && !old(self)@.can_draw()
                ==> {
                &&& r is None
                &&& final(self)@ == old(self)@.failed(*snap, *final(icons))
            },
            old(self)@.can_draw() ==> {
                let (w, h) = old(self)@.frame_size();
                let shown = old(self)@.drawing(*snap, *final(icons));
                let frame = painted(paint, shown, &*final(icons), w, h);
                &&& is_painted(paint, shown, &*final(icons), w, h, frame)
                &&& exists|slot: Option<usize>|
                    {
                        &&& #[trigger] old(self)@.rendered(
                            *snap,
                            *final(icons),
                            frame,
                        ).settled(sig, final(self)@, r, slot)
                        &&& frame != old(self)@.last_committed ==> acquired(
                            old(self)@.pool,
                            final(self)@.pool,
                            w,
                            h,
                            create,
                            slot,
                        )
                    }
            },
    {
        let ghost start = self@;
        proof {
            lemma_nothing_asked(*icons, *look_up);
        }
        if self.overlay.is_none() {
            self.last_sig = 0;
            return None;
        }
        let (log_w, log_h): (u32, u32) = match self.configured {
            Some(size) => size,
            None => {
                self.last_sig = 0;
                return None;
            },
        };
        let scale: i32 = if self.surface_scale < 1 {
            1
        } else {
            self.surface_scale
        };
        let w: u32 = physical_side::<S::Narrow>(log_w, scale);
        let h: u32 = physical_side::<S::Narrow>(log_h, scale);
        let done: bool = self.render_frame((w, h), scale, snap, icons, look_up, paint);
        if !done {
            self.last_sig = 0;
            return None;
        }
        let ghost rendered = self@;
        let area = match diff_bbox(
            self.last_committed.as_slice(),
            self.render_scratch.as_slice(),
            w,
            h,
        ) {
            Some(area) => area,
            None => {
                self.last_sig = sig;
                self.dirty = false;
                assert(rendered.settled(sig, self@, None, None));
                return None;
            },
        };
        let full: bool = self.last_committed.len() != self.render_scratch.len();
        proof {
            if !full && rendered.scratch == rendered.last_committed {
                let i = choose|i: int| #[trigger]
                    differs(rendered.last_committed, rendered.scratch, i) && column_of(i, w)
                        == area.0;
                assert(differs(rendered.last_committed, rendered.scratch, i));
            }
        }
        let slot = self.pool.acquire(w, h, create);
        match slot {
            Some(i) => {
                let frame = Frame { slot: i, full, area, size: (w, h) };
                assert(rendered.settled(sig, self@, Some(frame), slot));
                Some(frame)
            },
            None => {
                self.last_sig = 0;
                self.dirty = true;
                assert(rendered.settled(sig, self@, None, slot));
                None
            },
        }
    }

    /// The frame with this signature was committed; `frame` is the number of its
    /// callback.
    pub fn on_presented(&mut self, sig: u64, frame: u64, now: u64)
        ensures
            final(self)@ == old(self)@.presented(sig, frame, now),
    {
        copy_into(&mut self.last_committed, self.render_scratch.as_slice());
        self.last_sig = sig;
        self.dirty = false;
        self.last_draw_at = Some(now);
        self.frame_cb = Some(frame);
    }
}

/// Makes `dst` a copy of `src`, in the memory that it has.
fn copy_into(dst: &mut Vec<u8>, src: &[u8])
    ensures
        final(dst)@ == src@,
{
    dst.clear();
    dst.extend_from_slice(src);
    assert(dst@ =~= src@);
}

} // verus!
