//! Turns windows and workspaces into the rows of the minimap.

use vstd::prelude::*;
use crate::icons::{has_icon, lemma_asked_in_turn, lemma_nothing_asked, looked_for, IconCache};
use crate::order::{optional_at_most, optional_bytes, optional_le, optional_le_total,
    optional_le_transitive, sort, sorted, Order};
use crate::scalar::{Px, Scalar};
use crate::state::{Window, Workspace};
use tiny_skia::Pixmap;

verus! {

/// One window in the coordinates of its workspace (logical pixels).
#[derive(Clone, Debug)]
pub struct Tile<S> {
    pub x: S,
    pub y: S,
    pub w: S,
    pub h: S,
    pub focused: bool,
    /// The window of the workspace that had the focus last.
    pub is_last_focused: bool,
    /// Names the application, and so its desktop icon.
    pub app_id: Option<String>,
}

/// A workspace laid out in its own coordinates.
#[derive(Clone, Debug)]
pub struct Row<S> {
    pub tiles: Vec<Tile<S>>,
    /// Sum of the widths of the tiled columns (floating windows left out).
    pub total_width: S,
    /// Height of the tallest tiled column (floating windows left out).
    pub max_height: S,
    /// Right edge of the floating windows.
    pub float_width: S,
    /// Bottom edge of the floating windows.
    pub float_height: S,
    /// Workspace coordinate of the left edge of the view, when some tiled
    /// window tells it.
    pub view_left: Option<S>,
}

/// What a row holds, as a value.
pub struct RowModel<S> {
    pub tiles: Seq<Tile<S>>,
    pub total_width: S,
    pub max_height: S,
    pub float_width: S,
    pub float_height: S,
    pub view_left: Option<S>,
}

impl<S> View for Row<S> {
    type V = RowModel<S>;

    open spec fn view(&self) -> RowModel<S> {
        RowModel {
            tiles: self.tiles@,
            total_width: self.total_width,
            max_height: self.max_height,
            float_width: self.float_width,
            float_height: self.float_height,
            view_left: self.view_left,
        }
    }
}

/// Windows of the scrolling layout, from left to right and from top to bottom.
pub struct ByPosition;

/// Column and place of a window of the scrolling layout.
pub open spec fn position<S>(w: Window<S>) -> (usize, usize) {
    match w.layout.pos_in_scrolling_layout {
        Some(p) => p,
        None => (0, 0),
    }
}

impl<S> Order<Window<S>> for ByPosition {
    open spec fn le(a: Window<S>, b: Window<S>) -> bool {
        position(a).0 < position(b).0 || (position(a).0 == position(b).0 && position(a).1
            <= position(b).1)
    }

    proof fn total(a: Window<S>, b: Window<S>) {
    }

    proof fn transitive(a: Window<S>, b: Window<S>, c: Window<S>) {
    }

    fn at_most(a: &Window<S>, b: &Window<S>) -> (r: bool) {
        let p: (usize, usize) = match a.layout.pos_in_scrolling_layout {
            Some(p) => p,
            None => (0, 0),
        };
        let q: (usize, usize) = match b.layout.pos_in_scrolling_layout {
            Some(q) => q,
            None => (0, 0),
        };
        p.0 < q.0 || (p.0 == q.0 && p.1 <= q.1)
    }
}

/// Workspaces by output, by place on it, and by id.
pub struct ByOutput;

impl Order<Workspace> for ByOutput {
    open spec fn le(a: Workspace, b: Workspace) -> bool {
        let x = optional_bytes(a.output);
        let y = optional_bytes(b.output);
        optional_le(x, y) && (optional_le(y, x) ==> a.idx < b.idx || (a.idx == b.idx && a.id
            <= b.id))
    }

    proof fn total(a: Workspace, b: Workspace) {
        optional_le_total(optional_bytes(a.output), optional_bytes(b.output));
    }

    proof fn transitive(a: Workspace, b: Workspace, c: Workspace) {
        let x = optional_bytes(a.output);
        let y = optional_bytes(b.output);
        let z = optional_bytes(c.output);
        optional_le_transitive(x, y, z);
        if optional_le(z, x) {
            optional_le_transitive(z, x, y);
            optional_le_transitive(y, z, x);
        }
    }

    fn at_most(a: &Workspace, b: &Workspace) -> (r: bool) {
        if !optional_at_most(&a.output, &b.output) {
            false
        } else if !optional_at_most(&b.output, &a.output) {
            true
        } else {
            a.idx < b.idx || (a.idx == b.idx && a.id <= b.id)
        }
    }
}

/// The window that had the focus last: the active one of the workspace, or,
/// where none is known, one that has the focus.
pub open spec fn last_focused<S>(ws: Workspace, w: Window<S>) -> bool {
    match ws.active_window_id {
        Some(id) => id == w.id,
        None => w.is_focused,
    }
}

/// Whether a window lies on the workspace and may be drawn; `icons` tells of
/// each application whether it has an icon, in icon mode.
pub open spec fn belongs<S>(
    ws: Workspace,
    w: Window<S>,
    icons: Option<spec_fn(Seq<char>) -> bool>,
) -> bool {
    &&& w.workspace_id == Some(ws.id)
    &&& icons matches Some(has) ==> (w.app_id matches Some(id) && has(id@))
}

/// Whether a window takes part in the scrolling layout. Positions count from
/// 1; a position with a 0 is malformed.
pub open spec fn is_tiled<S>(w: Window<S>) -> bool {
    w.layout.pos_in_scrolling_layout matches Some(p) && p.0 != 0 && p.1 != 0
}

/// Whether a window floats where it can be seen.
pub open spec fn is_overlay<S>(w: Window<S>) -> bool {
    &&& w.layout.pos_in_scrolling_layout is None
    &&& w.layout.tile_pos_in_workspace_view is Some
    &&& w.layout.window_size.0 > 0
    &&& w.layout.window_size.1 > 0
}

/// The tiled windows of a workspace, in layout order.
pub open spec fn tiled_windows<S>(
    ws: Workspace,
    windows: Seq<Window<S>>,
    icons: Option<spec_fn(Seq<char>) -> bool>,
) -> Seq<Window<S>> {
    sorted::<Window<S>, ByPosition>(
        windows.filter(|w: Window<S>| belongs(ws, w, icons) && is_tiled(w)),
    )
}

/// The floating windows of a workspace, in the order in which they came.
pub open spec fn floating_windows<S>(
    ws: Workspace,
    windows: Seq<Window<S>>,
    icons: Option<spec_fn(Seq<char>) -> bool>,
) -> Seq<Window<S>> {
    windows.filter(|w: Window<S>| belongs(ws, w, icons) && is_overlay(w))
}

/// Cuts windows in layout order into columns.
pub open spec fn columns<S>(s: Seq<Window<S>>) -> Seq<Seq<Window<S>>>
    decreases s.len(),
{
    if s.len() == 0 {
        Seq::empty()
    } else {
        let front = columns(s.drop_last());
        if s.len() > 1 && position(s[s.len() - 2]).0 == position(s.last()).0 {
            front.update(front.len() - 1, front.last().push(s.last()))
        } else {
            front.push(seq![s.last()])
        }
    }
}

/// A column is as wide as its widest tile.
pub open spec fn width_of<S: Scalar>(column: Seq<Window<S>>) -> S {
    column.fold_left(
        S::spec_from_u64(0),
        |width: S, w: Window<S>| width.spec_greater(w.layout.tile_size.0),
    )
}

/// A column is as high as its tiles together.
pub open spec fn height_of<S: Scalar>(column: Seq<Window<S>>) -> S {
    column.fold_left(S::spec_from_u64(0), |y: S, w: Window<S>| y.spec_plus(w.layout.tile_size.1))
}

/// The columns stand side by side.
pub open spec fn total_width<S: Scalar>(columns: Seq<Seq<Window<S>>>) -> S {
    columns.fold_left(S::spec_from_u64(0), |x: S, c: Seq<Window<S>>| x.spec_plus(width_of(c)))
}

/// The height of the tallest column.
pub open spec fn tallest<S: Scalar>(columns: Seq<Seq<Window<S>>>) -> S {
    columns.fold_left(S::spec_from_u64(0), |h: S, c: Seq<Window<S>>| h.spec_greater(height_of(c)))
}

/// The tile of a window of the scrolling layout.
pub open spec fn tile_of<S: Scalar>(ws: Workspace, w: Window<S>, x: S, y: S) -> Tile<S> {
    Tile {
        x,
        y,
        w: w.layout.tile_size.0,
        h: w.layout.tile_size.1,
        focused: w.is_focused,
        is_last_focused: last_focused(ws, w),
        app_id: w.app_id,
    }
}

/// The tiles of one column, one below the other.
pub open spec fn column_tiles<S: Scalar>(
    ws: Workspace,
    column: Seq<Window<S>>,
    x: S,
) -> Seq<Tile<S>> {
    Seq::new(column.len(), |i: int| tile_of(ws, column[i], x, height_of(column.take(i))))
}

/// The tiles of all columns, from left to right.
pub open spec fn tiles_of<S: Scalar>(ws: Workspace, columns: Seq<Seq<Window<S>>>) -> Seq<Tile<S>>
    decreases columns.len(),
{
    if columns.len() == 0 {
        Seq::empty()
    } else {
        tiles_of(ws, columns.drop_last()) + column_tiles(
            ws,
            columns.last(),
            total_width(columns.drop_last()),
        )
    }
}

/// Left edge of the view, as the first tile of a column at `x` tells it that
/// knows its position in the view.
pub open spec fn view_left_in<S: Scalar>(column: Seq<Window<S>>, x: S) -> Option<S>
    decreases column.len(),
{
    if column.len() == 0 {
        None
    } else {
        match view_left_in(column.drop_last(), x) {
            Some(left) => Some(left),
            None => match column.last().layout.tile_pos_in_workspace_view {
                Some(p) => Some(x.spec_minus(p.0)),
                None => None,
            },
        }
    }
}

/// Left edge of the view, as the first tile tells it that knows its position
/// in the view.
pub open spec fn view_left_of<S: Scalar>(columns: Seq<Seq<Window<S>>>) -> Option<S>
    decreases columns.len(),
{
    if columns.len() == 0 {
        None
    } else {
        match view_left_of(columns.drop_last()) {
            Some(left) => Some(left),
            None => view_left_in(columns.last(), total_width(columns.drop_last())),
        }
    }
}

/// The tile of a floating window, with the left edge of the view at `left`.
pub open spec fn overlay_of<S: Scalar>(ws: Workspace, w: Window<S>, left: S) -> Tile<S> {
    let p = w.layout.tile_pos_in_workspace_view->0;
    Tile {
        x: left.spec_plus(p.0),
        y: p.1,
        w: S::spec_from_i64(w.layout.window_size.0 as i64),
        h: S::spec_from_i64(w.layout.window_size.1 as i64),
        focused: w.is_focused,
        is_last_focused: last_focused(ws, w),
        app_id: w.app_id,
    }
}

/// The right edge of the tiles.
pub open spec fn right_edge<S: Scalar>(tiles: Seq<Tile<S>>) -> S {
    tiles.fold_left(S::spec_from_u64(0), |m: S, t: Tile<S>| m.spec_greater(t.x.spec_plus(t.w)))
}

/// The bottom edge of the tiles.
pub open spec fn bottom_edge<S: Scalar>(tiles: Seq<Tile<S>>) -> S {
    tiles.fold_left(S::spec_from_u64(0), |m: S, t: Tile<S>| m.spec_greater(t.y.spec_plus(t.h)))
}

/// The row of a workspace with these tiled windows (in layout order) and
/// floating windows.
pub open spec fn laid_out<S: Scalar>(
    ws: Workspace,
    tiled: Seq<Window<S>>,
    floating: Seq<Window<S>>,
    previous_view_left: Option<S>,
) -> RowModel<S> {
    let cols = columns(tiled);
    let left = match (view_left_of(cols), previous_view_left) {
        (Some(left), _) => left,
        (None, Some(left)) => left,
        (None, None) => S::spec_from_u64(0),
    };
    let overlays = floating.map_values(|w: Window<S>| overlay_of(ws, w, left));
    RowModel {
        tiles: tiles_of(ws, cols) + overlays,
        total_width: total_width(cols),
        max_height: tallest(cols),
        float_width: right_edge(overlays),
        float_height: bottom_edge(overlays),
        view_left: view_left_of(cols),
    }
}

impl<S: Scalar> RowModel<S> {
    /// Whether the row has tiled windows.
    pub open spec fn has_tiled(self) -> bool {
        S::spec_from_u64(0).spec_below(self.total_width) && S::spec_from_u64(0).spec_below(
            self.max_height,
        )
    }

    /// The width that the row is scaled by.
    pub open spec fn scale_w(self) -> S {
        if self.has_tiled() {
            self.total_width
        } else {
            self.float_width
        }
    }

    /// The height that the row is scaled by.
    pub open spec fn scale_h(self) -> S {
        if self.has_tiled() {
            self.max_height
        } else {
            self.float_height
        }
    }
}

impl<S: Scalar> Row<S> {
    /// Whether there is anything to draw.
    pub fn has_content(&self) -> (r: bool)
        ensures
            r == (self@.tiles.len() > 0),
    {
        self.tiles.len() > 0
    }

    /// Whether the row has tiled windows, which then set its scale.
    pub fn has_tiled(&self) -> (r: bool)
        ensures
            r == self@.has_tiled(),
    {
        let zero = S::from_u64(0);
        zero.below(self.total_width) && zero.below(self.max_height)
    }

    /// The width that the row is scaled by: that of the tiled windows, or,
    /// where there are none, of the floating ones.
    pub fn scale_w(&self) -> (r: S)
        ensures
            r == self@.scale_w(),
    {
        if self.has_tiled() {
            self.total_width
        } else {
            self.float_width
        }
    }

    /// The height that the row is scaled by; see `scale_w`.
    pub fn scale_h(&self) -> (r: S)
        ensures
            r == self@.scale_h(),
    {
        if self.has_tiled() {
            self.max_height
        } else {
            self.float_height
        }
    }
}

/// The row of a workspace; `icons` tells of each application whether it has an
/// icon, in icon mode.
pub open spec fn row_of<S: Scalar>(
    ws: Workspace,
    windows: Seq<Window<S>>,
    icons: Option<spec_fn(Seq<char>) -> bool>,
    previous_view_left: Option<S>,
) -> RowModel<S> {
    laid_out(
        ws,
        tiled_windows(ws, windows, icons),
        floating_windows(ws, windows, icons),
        previous_view_left,
    )
}

/// In icon mode, which applications have an icon.
pub open spec fn icon_filter(icons: Option<&IconCache>) -> Option<spec_fn(Seq<char>) -> bool> {
    match icons {
        Some(cache) => Some(|id: Seq<char>| cache.has(id)),
        None => None,
    }
}

/// Appending `w` to windows in layout order either widens the last column or
/// starts one.
proof fn lemma_columns_step<S>(s: Seq<Window<S>>, start: int, end: int)
    requires
        0 <= start < end <= s.len(),
        start > 0 ==> position(s[start - 1]).0 != position(s[start]).0,
        forall|i: int| start <= i < end ==> position(#[trigger] s[i]).0 == position(s[start]).0,
    ensures
        columns(s.take(end)) == columns(s.take(start)).push(s.subrange(start, end)),
    decreases end - start,
{
    let t = s.take(end);
    assert(t.drop_last() =~= s.take(end - 1));
    assert(t.last() == s[end - 1]);
    if end == start + 1 {
        assert(s.subrange(start, end) =~= seq![s[start]]);
        if t.len() > 1 {
            assert(t[t.len() - 2] == s[start - 1]);
        }
    } else {
        lemma_columns_step(s, start, end - 1);
        assert(t[t.len() - 2] == s[end - 2]);
        assert(position(s[end - 2]).0 == position(s[start]).0);
        assert(position(s[end - 1]).0 == position(s[start]).0);
        let front = columns(s.take(end - 1));
        assert(front.last() == s.subrange(start, end - 1));
        assert(s.subrange(start, end - 1).push(s[end - 1]) =~= s.subrange(start, end));
        assert(front.update(front.len() - 1, s.subrange(start, end)) =~= columns(
            s.take(start),
        ).push(s.subrange(start, end)));
    }
}

/// The tile of a window at `x`, `y`.
fn make_tile<S: Scalar>(ws: &Workspace, w: &Window<S>, x: S, y: S, size: (S, S)) -> (t: Tile<S>)
    ensures
        t == (Tile {
            x,
            y,
            w: size.0,
            h: size.1,
            focused: w.is_focused,
            is_last_focused: last_focused(*ws, *w),
            app_id: w.app_id,
        }),
{
    let is_last_focused: bool = match ws.active_window_id {
        Some(id) => id == w.id,
        None => w.is_focused,
    };
    let app_id: Option<String> = match &w.app_id {
        Some(id) => Some(id.clone()),
        None => None,
    };
    Tile { x, y, w: size.0, h: size.1, focused: w.is_focused, is_last_focused, app_id }
}

/// Whether a window lies on the workspace and may be drawn.
fn is_drawable<S>(ws: &Workspace, w: &Window<S>, icons: Option<&IconCache>) -> (r: bool)
    ensures
        r == belongs(*ws, *w, icon_filter(icons)),
{
    match w.workspace_id {
        Some(id) => if id != ws.id {
            return false;
        },
        None => return false,
    }
    match (icons, &w.app_id) {
        (None, _) => true,
        (Some(_), None) => false,
        (Some(cache), Some(id)) => cache.get(id.as_str()).is_some(),
    }
}

/// The tiled windows of a workspace in layout order, and its floating windows.
fn pick_windows<'a, S>(ws: &Workspace, windows: &'a [Window<S>], icons: Option<&IconCache>) -> (r: (
    Vec<&'a Window<S>>,
    Vec<&'a Window<S>>,
))
    ensures
        r.0@.unref() == tiled_windows(*ws, windows@, icon_filter(icons)),
        r.1@.unref() == floating_windows(*ws, windows@, icon_filter(icons)),
{
    let ghost filter = icon_filter(icons);
    let ghost tiled_pred = |w: Window<S>| belongs(*ws, w, filter) && is_tiled(w);
    let ghost float_pred = |w: Window<S>| belongs(*ws, w, filter) && is_overlay(w);
    let mut tiled: Vec<&'a Window<S>> = Vec::new();
    let mut floating: Vec<&'a Window<S>> = Vec::new();
    let mut i: usize = 0;
    proof {
        reveal(Seq::filter);
    }
    assert(tiled@.unref() =~= windows@.take(0).filter(tiled_pred));
    assert(floating@.unref() =~= windows@.take(0).filter(float_pred));
    while i < windows.len()
        invariant
            i <= windows@.len(),
            filter == icon_filter(icons),
            tiled_pred == (|w: Window<S>| belongs(*ws, w, filter) && is_tiled(w)),
            float_pred == (|w: Window<S>| belongs(*ws, w, filter) && is_overlay(w)),
            tiled@.unref() == windows@.take(i as int).filter(tiled_pred),
            floating@.unref() == windows@.take(i as int).filter(float_pred),
        decreases windows@.len() - i,
    {
        let w: &'a Window<S> = &windows[i];
        let ghost before_tiled = tiled@.unref();
        let ghost before_floating = floating@.unref();
        if is_drawable(ws, w, icons) {
            match w.layout.pos_in_scrolling_layout {
                Some(p) => {
                    if p.0 != 0 && p.1 != 0 {
                        tiled.push(w);
                    }
                },
                None => {
                    if w.layout.tile_pos_in_workspace_view.is_some() && w.layout.window_size.0 > 0
                        && w.layout.window_size.1 > 0 {
                        floating.push(w);
                    }
                },
            }
        }
        proof {
            reveal(Seq::filter);
            assert(windows@.take(i + 1).drop_last() =~= windows@.take(i as int));
            assert(windows@.take(i + 1).last() == *w);
            assert(tiled_pred(*w) ==> tiled@.unref() =~= before_tiled.push(*w));
            assert(float_pred(*w) ==> floating@.unref() =~= before_floating.push(*w));
        }
        i = i + 1;
    }
    assert(windows@.take(i as int) =~= windows@);
    (sort::<Window<S>, ByPosition>(tiled.as_slice()), floating)
}

/// Places the tiled windows, given in layout order.
fn place_tiled<S: Scalar>(ws: &Workspace, tiled: &[&Window<S>]) -> (row: Row<S>)
    ensures
        row@ == laid_out(*ws, tiled@.unref(), Seq::empty(), None),
{
    let ghost all = tiled@.unref();
    let zero = S::from_u64(0);
    let mut tiles: Vec<Tile<S>> = Vec::new();
    let mut x: S = zero;
    let mut max_height: S = zero;
    let mut view_left: Option<S> = None;
    let mut start: usize = 0;
    assert(columns(all.take(0)) =~= Seq::empty());
    while start < tiled.len()
        invariant
            start <= tiled@.len(),
            all == tiled@.unref(),
            zero == S::spec_from_u64(0),
            tiles@ == tiles_of(*ws, columns(all.take(start as int))),
            x == total_width(columns(all.take(start as int))),
            max_height == tallest(columns(all.take(start as int))),
            view_left == view_left_of(columns(all.take(start as int))),
            0 < start < tiled@.len() ==> position(all[start - 1]).0 != position(
                all[start as int],
            ).0,
        decreases tiled@.len() - start,
    {
        let first: &Window<S> = tiled[start];
        let mut width: S = zero;
        let mut y: S = zero;
        let mut end: usize = start;
        let ghost done = columns(all.take(start as int));
        let ghost before = tiles@;
        let ghost view_before = view_left;
        assert(all.subrange(start as int, end as int) =~= Seq::empty());
        assert(tiles@ =~= before + column_tiles(
            *ws,
            all.subrange(start as int, end as int),
            x,
        ));
        while end < tiled.len() && same_column(tiled[end], first)
            invariant
                start <= end <= tiled@.len(),
                start < tiled@.len(),
                all == tiled@.unref(),
                *first == all[start as int],
                x == total_width(done),
                width == width_of(all.subrange(start as int, end as int)),
                y == height_of(all.subrange(start as int, end as int)),
                tiles@ == before + column_tiles(*ws, all.subrange(start as int, end as int), x),
                view_left == match view_before {
                    Some(left) => Some(left),
                    None => view_left_in(all.subrange(start as int, end as int), x),
                },
                forall|i: int|
                    start <= i < end ==> position(#[trigger] all[i]).0 == position(*first).0,
            ensures
                start <= end <= tiled@.len(),
                width == width_of(all.subrange(start as int, end as int)),
                y == height_of(all.subrange(start as int, end as int)),
                tiles@ == before + column_tiles(*ws, all.subrange(start as int, end as int), x),
                view_left == match view_before {
                    Some(left) => Some(left),
                    None => view_left_in(all.subrange(start as int, end as int), x),
                },
                forall|i: int|
                    start <= i < end ==> position(#[trigger] all[i]).0 == position(*first).0,
                end < tiled@.len() ==> position(all[end as int]).0 != position(*first).0,
            decreases tiled@.len() - end,
        {
            let w: &Window<S> = tiled[end];
            let ghost column = all.subrange(start as int, end as int);
            let ghost wider = all.subrange(start as int, end + 1);
            assert(wider.drop_last() =~= column);
            assert(wider.last() == *w);
            if view_left.is_none() {
                if let Some(p) = w.layout.tile_pos_in_workspace_view {
                    view_left = Some(x.minus(p.0));
                }
            }
            tiles.push(make_tile(ws, w, x, y, w.layout.tile_size));
            width = width.greater(w.layout.tile_size.0);
            y = y.plus(w.layout.tile_size.1);
            proof {
                assert forall|i: int| 0 <= i <= column.len() implies wider.take(i) == (if i
                    == column.len() {
                    column
                } else {
                    column.take(i)
                }) by {
                    assert(column.take(column.len() as int) =~= column);
                    assert(wider.take(i) =~= column.take(i));
                }
                assert(column_tiles(*ws, wider, x) =~= column_tiles(*ws, column, x).push(
                    tiles@.last(),
                ));
                assert(tiles@ =~= before + column_tiles(*ws, wider, x));
            }
            end = end + 1;
        }
        proof {
            lemma_columns_step(all, start as int, end as int);
            let next = columns(all.take(end as int));
            assert(next.drop_last() =~= done);
            assert(next.last() == all.subrange(start as int, end as int));
        }
        max_height = max_height.greater(y);
        x = x.plus(width);
        start = end;
    }
    assert(all.take(start as int) =~= all);
    let row = Row {
        tiles,
        total_width: x,
        max_height,
        float_width: zero,
        float_height: zero,
        view_left,
    };
    row
}

/// Whether two windows of the scrolling layout share a column.
fn same_column<S>(a: &Window<S>, b: &Window<S>) -> (r: bool)
    ensures
        r == (position(*a).0 == position(*b).0),
{
    let p: usize = match a.layout.pos_in_scrolling_layout {
        Some(p) => p.0,
        None => 0,
    };
    let q: usize = match b.layout.pos_in_scrolling_layout {
        Some(q) => q.0,
        None => 0,
    };
    p == q
}

/// The applications of the windows of a workspace.
pub open spec fn row_ids<S>(ws: Workspace, windows: Seq<Window<S>>) -> Set<Seq<char>>
    decreases windows.len(),
{
    if windows.len() == 0 {
        Set::empty()
    } else {
        let front = row_ids(ws, windows.drop_last());
        match windows.last().app_id {
            Some(id) => if windows.last().workspace_id == Some(ws.id) {
                front.union(set![id@])
            } else {
                front
            },
            None => front,
        }
    }
}

/// The applications of the windows of some workspaces.
pub open spec fn rows_ids<S>(list: Seq<Workspace>, windows: Seq<Window<S>>) -> Set<Seq<char>>
    decreases list.len(),
{
    if list.len() == 0 {
        Set::empty()
    } else {
        rows_ids(list.drop_last(), windows).union(row_ids(list.last(), windows))
    }
}

/// Looks for the icons of the windows of a workspace.
pub(crate) fn look_for_icons<S, L: Fn(&str) -> Option<Pixmap>>(
    ws: &Workspace,
    windows: &[Window<S>],
    icons: &mut IconCache,
    look_up: &L,
)
    requires
        forall|id: &str| #[trigger] look_up.requires((id,)),
    ensures
        looked_for(*old(icons), row_ids(*ws, windows@), *look_up, *final(icons)),
{
    let mut i: usize = 0;
    proof {
        lemma_nothing_asked(*icons, *look_up);
    }
    while i < windows.len()
        invariant
            i <= windows@.len(),
            looked_for(*old(icons), row_ids(*ws, windows@.take(i as int)), *look_up, *icons),
            forall|id: &str| #[trigger] look_up.requires((id,)),
        decreases windows@.len() - i,
    {
        let w: &Window<S> = &windows[i];
        let ghost between = *icons;
        proof {
            assert(windows@.take(i + 1).drop_last() =~= windows@.take(i as int));
            assert(windows@.take(i + 1).last() == *w);
        }
        let here: bool = match w.workspace_id {
            Some(id) => id == ws.id,
            None => false,
        };
        if here {
            if let Some(id) = &w.app_id {
                let _has = has_icon(icons, id.as_str(), look_up);
                proof {
                    lemma_asked_in_turn(
                        *old(icons),
                        row_ids(*ws, windows@.take(i as int)),
                        between,
                        set![id@],
                        *look_up,
                        *icons,
                    );
                }
            }
        }
        i = i + 1;
    }
    assert(windows@.take(i as int) =~= windows@);
}

/// Builds the row of one workspace.
///
/// Tiled windows stand where the scrolling layout puts them. Floating windows
/// report a position in the view, and only while they are in it; the left edge
/// of the view brings it into workspace coordinates. That edge comes from a
/// tiled window that knows both positions, or is the one that was known before
/// (`previous_view_left`), or is taken to be 0.
///
/// With `icons` (icon mode), the icons of the windows are looked for on first
/// use, and windows of applications without an icon are left out, so the row
/// holds exactly what will be drawn.
pub fn build_row<S: Scalar, L: Fn(&str) -> Option<Pixmap>>(
    ws: &Workspace,
    windows: &[Window<S>],
    previous_view_left: Option<S>,
    icons: Option<&mut IconCache>,
    look_up: &L,
) -> (row: Row<S>)
    requires
        forall|id: &str| #[trigger] look_up.requires((id,)),
    ensures
        match icons {
            Some(cache) => {
                &&& looked_for(*cache, row_ids(*ws, windows@), *look_up, *final(cache))
                &&& row@ == row_of(
                    *ws,
                    windows@,
                    icon_filter(Some(&*final(cache))),
                    previous_view_left,
                )
            },
            None => row@ == row_of(*ws, windows@, None, previous_view_left),
        },
{
    match icons {
        Some(cache) => {
            look_for_icons(ws, windows, cache, look_up);
            lay_out(ws, windows, previous_view_left, Some(&*cache))
        },
        None => lay_out(ws, windows, previous_view_left, None),
    }
}

/// Builds the row of one workspace; in icon mode, with the icons that are known.
pub(crate) fn lay_out<S: Scalar>(
    ws: &Workspace,
    windows: &[Window<S>],
    previous_view_left: Option<S>,
    icons: Option<&IconCache>,
) -> (row: Row<S>)
    ensures
        row@ == row_of(*ws, windows@, icon_filter(icons), previous_view_left),
{
    let (tiled, floating) = pick_windows(ws, windows, icons);
    let mut row = place_tiled(ws, tiled.as_slice());
    let left: S = match (row.view_left, previous_view_left) {
        (Some(left), _) => left,
        (None, Some(left)) => left,
        (None, None) => S::from_u64(0),
    };
    let ghost overlays = floating@.unref().map_values(
        |w: Window<S>| overlay_of(*ws, w, left),
    );
    let ghost placed = row;
    proof {
        lemma_overlays_visible(*ws, windows@, icon_filter(icons));
        assert forall|j: int| 0 <= j < floating@.len() implies (
        #[trigger] floating@[j]).layout.tile_pos_in_workspace_view is Some by {
            assert(*floating@[j] == floating@.unref()[j]);
        }
    }
    let mut i: usize = 0;
    assert(overlays.take(0) =~= Seq::empty());
    assert(row.tiles@ =~= tiles_of(*ws, columns(tiled@.unref())) + overlays.take(0));
    while i < floating.len()
        invariant
            i <= floating@.len(),
            overlays == floating@.unref().map_values(|w: Window<S>| overlay_of(*ws, w, left)),
            forall|j: int|
                0 <= j < floating@.len()
                    ==> (#[trigger] floating@[j]).layout.tile_pos_in_workspace_view is Some,
            row.tiles@ == tiles_of(*ws, columns(tiled@.unref())) + overlays.take(i as int),
            row.float_width == right_edge(overlays.take(i as int)),
            row.float_height == bottom_edge(overlays.take(i as int)),
            row.total_width == placed.total_width,
            row.max_height == placed.max_height,
            row.view_left == placed.view_left,
        decreases floating@.len() - i,
    {
        let w: &Window<S> = floating[i];
        if let Some(p) = w.layout.tile_pos_in_workspace_view {
            let size: (S, S) = (
                S::from_i64(w.layout.window_size.0 as i64),
                S::from_i64(w.layout.window_size.1 as i64),
            );
            let x = left.plus(p.0);
            let tile = make_tile(ws, w, x, p.1, size);
            assert(tile == overlay_of(*ws, *w, left));
            assert(overlays.take(i + 1).drop_last() =~= overlays.take(i as int));
            assert(overlays.take(i + 1).last() == tile);
            row.float_height = row.float_height.greater(p.1.plus(size.1));
            row.float_width = row.float_width.greater(x.plus(size.0));
            row.tiles.push(tile);
            assert(row.tiles@ =~= tiles_of(*ws, columns(tiled@.unref())) + overlays.take(i + 1));
        }
        i = i + 1;
    }
    assert(overlays.take(i as int) =~= overlays);
    row
}

proof fn lemma_overlays_visible<S>(
    ws: Workspace,
    windows: Seq<Window<S>>,
    icons: Option<spec_fn(Seq<char>) -> bool>,
)
    ensures
        forall|j: int|
            #![trigger floating_windows(ws, windows, icons)[j]]
            0 <= j < floating_windows(ws, windows, icons).len() ==> is_overlay(
                floating_windows(ws, windows, icons)[j],
            ),
{
    let pred = |w: Window<S>| belongs(ws, w, icons) && is_overlay(w);
    assert forall|j: int|
        #![trigger floating_windows(ws, windows, icons)[j]]
        0 <= j < floating_windows(ws, windows, icons).len() implies is_overlay(
        floating_windows(ws, windows, icons)[j],
    ) by {
        windows.lemma_filter_pred(pred, j);
    }
}

/// The first of the workspaces that has the focus.
pub open spec fn first_focused(workspaces: Seq<Workspace>) -> Option<Workspace>
    decreases workspaces.len(),
{
    if workspaces.len() == 0 {
        None
    } else if workspaces[0].is_focused {
        Some(workspaces[0])
    } else {
        first_focused(workspaces.drop_first())
    }
}

/// The workspace that has the focus, if any.
pub fn focused_workspace(workspaces: &[Workspace]) -> (r: Option<&Workspace>)
    ensures
        match (r, first_focused(workspaces@)) {
            (Some(w), Some(v)) => *w == v,
            (None, None) => true,
            _ => false,
        },
{
    let mut i: usize = 0;
    assert(workspaces@.skip(0) =~= workspaces@);
    while i < workspaces.len()
        invariant
            i <= workspaces@.len(),
            first_focused(workspaces@) == first_focused(workspaces@.skip(i as int)),
        decreases workspaces@.len() - i,
    {
        if workspaces[i].is_focused {
            return Some(&workspaces[i]);
        }
        assert(workspaces@.skip(i as int).drop_first() =~= workspaces@.skip(i + 1));
        i = i + 1;
    }
    None
}

/// Whether a workspace is worth a row: it is in use on its output, or has
/// windows.
pub open spec fn is_listed<S>(ws: Workspace, windows: Seq<Window<S>>) -> bool {
    ||| ws.is_active
    ||| ws.is_focused
    ||| exists|i: int|
        0 <= i < windows.len() && (#[trigger] windows[i]).workspace_id == Some(ws.id)
}

/// The rows of the stacked view: every workspace that is worth one, by output
/// and by place on it.
pub open spec fn listed<S>(workspaces: Seq<Workspace>, windows: Seq<Window<S>>) -> Seq<Workspace> {
    sorted::<Workspace, ByOutput>(workspaces).filter(|ws: Workspace| is_listed(ws, windows))
}

fn has_window<S>(ws: &Workspace, windows: &[Window<S>]) -> (r: bool)
    ensures
        r == exists|i: int|
            0 <= i < windows@.len() && (#[trigger] windows@[i]).workspace_id == Some(ws.id),
{
    let mut i: usize = 0;
    while i < windows.len()
        invariant
            i <= windows@.len(),
            forall|j: int| 0 <= j < i ==> (#[trigger] windows@[j]).workspace_id != Some(ws.id),
        decreases windows@.len() - i,
    {
        if let Some(id) = windows[i].workspace_id {
            if id == ws.id {
                assert(windows@[i as int].workspace_id == Some(ws.id));
                return true;
            }
        }
        i = i + 1;
    }
    false
}

/// Every workspace worth showing, by output and by place on it. Empty
/// workspaces that no output shows are left out.
pub fn all_rows<'a, S>(workspaces: &'a [Workspace], windows: &[Window<S>]) -> (r: Vec<
    &'a Workspace,
>)
    ensures
        r@.unref() == listed(workspaces@, windows@),
{
    let mut refs: Vec<&'a Workspace> = Vec::new();
    let mut i: usize = 0;
    while i < workspaces.len()
        invariant
            i <= workspaces@.len(),
            refs@.unref() == workspaces@.take(i as int),
        decreases workspaces@.len() - i,
    {
        let ghost before = refs@.unref();
        refs.push(&workspaces[i]);
        assert(refs@.unref() =~= before.push(workspaces@[i as int]));
        i = i + 1;
        assert(workspaces@.take(i as int) =~= workspaces@.take(i - 1).push(workspaces@[i - 1]));
    }
    assert(workspaces@.take(i as int) =~= workspaces@);
    let list = sort::<Workspace, ByOutput>(refs.as_slice());
    let ghost all = list@.unref();
    let ghost pred = |ws: Workspace| is_listed(ws, windows@);
    let mut r: Vec<&'a Workspace> = Vec::new();
    let mut k: usize = 0;
    proof {
        reveal(Seq::filter);
    }
    assert(r@.unref() =~= all.take(0).filter(pred));
    while k < list.len()
        invariant
            k <= list@.len(),
            all == list@.unref(),
            pred == (|ws: Workspace| is_listed(ws, windows@)),
            r@.unref() == all.take(k as int).filter(pred),
        decreases list@.len() - k,
    {
        let ws: &'a Workspace = list[k];
        let ghost before = r@.unref();
        if ws.is_active || ws.is_focused || has_window(ws, windows) {
            r.push(ws);
        }
        proof {
            reveal(Seq::filter);
            assert(all.take(k + 1).drop_last() =~= all.take(k as int));
            assert(all.take(k + 1).last() == *ws);
            assert(pred(*ws) ==> r@.unref() =~= before.push(*ws));
        }
        k = k + 1;
    }
    assert(all.take(k as int) =~= all);
    r
}

/// Floating windows never change the scale of a row that has tiled windows:
/// two rows of a workspace with the same tiled windows are scaled alike, so
/// dragging a floating window does not resize the minimap.
pub proof fn floating_windows_never_rescale<S: Scalar>(
    ws: Workspace,
    tiled: Seq<Window<S>>,
    floating: Seq<Window<S>>,
    previous: Option<S>,
    other_floating: Seq<Window<S>>,
    other_previous: Option<S>,
)
    ensures
        ({
            let row = laid_out(ws, tiled, floating, previous);
            let other = laid_out(ws, tiled, other_floating, other_previous);
            let n = tiles_of(ws, columns(tiled)).len() as int;
            &&& row.has_tiled() == other.has_tiled()
            &&& row.has_tiled() ==> row.scale_w() == other.scale_w() && row.scale_h()
                == other.scale_h()
            &&& row.tiles.take(n) == other.tiles.take(n)
        }),
{
    let n = tiles_of(ws, columns(tiled)).len() as int;
    assert(laid_out(ws, tiled, floating, previous).tiles.take(n) =~= tiles_of(ws, columns(tiled)));
    assert(laid_out(ws, tiled, other_floating, other_previous).tiles.take(n) =~= tiles_of(
        ws,
        columns(tiled),
    ));
}

/// The order in which the windows are reported does not matter to the tiled
/// part of a row, as long as no two windows claim the same position.
pub proof fn report_order_does_not_matter<S>(
    ws: Workspace,
    windows: Seq<Window<S>>,
    shuffled: Seq<Window<S>>,
    icons: Option<spec_fn(Seq<char>) -> bool>,
)
    requires
        windows.to_multiset() == shuffled.to_multiset(),
        forall|i: int, j: int|
            0 <= i < windows.len() && 0 <= j < windows.len() && i != j && belongs(
                ws,
                windows[i],
                icons,
            ) && is_tiled(windows[i]) && belongs(ws, windows[j], icons) && is_tiled(windows[j])
                ==> position(#[trigger] windows[i]) != position(#[trigger] windows[j]),
    ensures
        tiled_windows(ws, windows, icons) == tiled_windows(ws, shuffled, icons),
{
    broadcast use vstd::seq_lib::group_to_multiset_ensures;

    let pred = |w: Window<S>| belongs(ws, w, icons) && is_tiled(w);
    let a = windows.filter(pred);
    let b = shuffled.filter(pred);
    crate::order::lemma_filter_items(windows, pred);
    crate::order::lemma_filter_items(shuffled, pred);
    crate::order::sorting_sorts::<Window<S>, ByPosition>(a);
    crate::order::sorting_sorts::<Window<S>, ByPosition>(b);
    let x = sorted::<Window<S>, ByPosition>(a);
    let y = sorted::<Window<S>, ByPosition>(b);
    assert forall|v: Window<S>, w: Window<S>|
        x.contains(v) && x.contains(w) && #[trigger] <ByPosition as Order<Window<S>>>::le(v, w)
            && #[trigger] <ByPosition as Order<Window<S>>>::le(w, v) implies v == w by {
        assert(x.to_multiset().contains(v));
        assert(x.to_multiset().contains(w));
        assert(a.contains(v));
        assert(a.contains(w));
        let i = choose|i: int| 0 <= i < a.len() && a[i] == v;
        let j = choose|j: int| 0 <= j < a.len() && a[j] == w;
        windows.lemma_filter_pred(pred, i);
        windows.lemma_filter_pred(pred, j);
        windows.lemma_filter_contains_rev(pred, v);
        windows.lemma_filter_contains_rev(pred, w);
        let k = choose|k: int| 0 <= k < windows.len() && windows[k] == v;
        let l = choose|l: int| 0 <= l < windows.len() && windows[l] == w;
        assert(position(windows[k]) == position(windows[l]));
    }
    crate::order::order_is_unique::<Window<S>, ByPosition>(x, y);
}

/// The windows of the columns, one column after the other.
spec fn joined<S>(columns: Seq<Seq<Window<S>>>) -> Seq<Window<S>>
    decreases columns.len(),
{
    if columns.len() == 0 {
        Seq::empty()
    } else {
        joined(columns.drop_last()) + columns.last()
    }
}

proof fn lemma_joined_columns<S>(s: Seq<Window<S>>)
    ensures
        joined(columns(s)) == s,
        s.len() > 0 ==> columns(s).len() > 0,
    decreases s.len(),
{
    if s.len() > 0 {
        let front = columns(s.drop_last());
        lemma_joined_columns(s.drop_last());
        let cols = columns(s);
        if s.len() > 1 && position(s[s.len() - 2]).0 == position(s.last()).0 {
            assert(cols.drop_last() =~= front.drop_last());
            assert(cols.last() == front.last().push(s.last()));
            assert(joined(cols) =~= joined(front).push(s.last()));
        } else {
            assert(cols.drop_last() =~= front);
            assert(joined(cols) =~= joined(front).push(s.last()));
        }
        assert(s =~= s.drop_last().push(s.last()));
    } else {
        assert(joined(columns(s)) =~= s);
    }
}

proof fn lemma_tiles_of_joined<S: Scalar>(ws: Workspace, cols: Seq<Seq<Window<S>>>)
    ensures
        tiles_of(ws, cols).len() == joined(cols).len(),
        forall|i: int|
            0 <= i < joined(cols).len() ==> (#[trigger] tiles_of(ws, cols)[i]).is_last_focused
                == last_focused(ws, joined(cols)[i]) && tiles_of(ws, cols)[i].app_id == joined(
                cols,
            )[i].app_id && tiles_of(ws, cols)[i].focused == joined(cols)[i].is_focused,
    decreases cols.len(),
{
    if cols.len() > 0 {
        lemma_tiles_of_joined(ws, cols.drop_last());
    }
}

/// Whether a tile is that of a window.
pub open spec fn shows<S>(ws: Workspace, t: Tile<S>, w: Window<S>) -> bool {
    &&& t.app_id == w.app_id
    &&& t.focused == w.is_focused
    &&& t.is_last_focused == last_focused(ws, w)
}

/// A row holds one tile for each window that is drawn, and no other.
pub proof fn every_window_has_one_tile<S: Scalar>(
    ws: Workspace,
    tiled: Seq<Window<S>>,
    floating: Seq<Window<S>>,
    previous: Option<S>,
)
    ensures
        ({
            let tiles = laid_out(ws, tiled, floating, previous).tiles;
            &&& tiles.len() == tiled.len() + floating.len()
            &&& forall|i: int|
                0 <= i < tiles.len() ==> shows(ws, #[trigger] tiles[i], (tiled + floating)[i])
        }),
{
    lemma_joined_columns(tiled);
    lemma_tiles_of_joined(ws, columns(tiled));
}

/// Where a workspace knows its active window, at most one tile of its row is
/// marked as the one that had the focus last.
pub proof fn one_window_is_marked<S: Scalar>(
    ws: Workspace,
    windows: Seq<Window<S>>,
    icons: Option<spec_fn(Seq<char>) -> bool>,
    previous: Option<S>,
    i: int,
    j: int,
)
    requires
        ws.active_window_id is Some,
        forall|k: int, l: int|
            0 <= k < windows.len() && 0 <= l < windows.len() && k != l ==> (
            #[trigger] windows[k]).id != (#[trigger] windows[l]).id,
        0 <= i < j < row_of(ws, windows, icons, previous).tiles.len(),
    ensures
        ({
            let tiles = row_of(ws, windows, icons, previous).tiles;
            !(tiles[i].is_last_focused && tiles[j].is_last_focused)
        }),
{
    broadcast use vstd::seq_lib::group_to_multiset_ensures;

    let tiled_pred = |w: Window<S>| belongs(ws, w, icons) && is_tiled(w);
    let float_pred = |w: Window<S>| belongs(ws, w, icons) && is_overlay(w);
    let a = windows.filter(tiled_pred);
    let tiled = tiled_windows(ws, windows, icons);
    let floating = floating_windows(ws, windows, icons);
    every_window_has_one_tile(ws, tiled, floating, previous);
    assert(windows.no_duplicates());
    lemma_filter_no_duplicates(windows, tiled_pred);
    lemma_filter_no_duplicates(windows, float_pred);
    crate::order::sorting_sorts::<Window<S>, ByPosition>(a);
    a.lemma_multiset_has_no_duplicates();
    tiled.lemma_multiset_has_no_duplicates_conv();
    let both = tiled + floating;
    assert forall|k: int| 0 <= k < both.len() implies windows.contains(#[trigger] both[k]) && (
    k < tiled.len() ==> is_tiled(both[k])) && (k >= tiled.len() ==> is_overlay(both[k])) by {
        if k < tiled.len() {
            assert(tiled.to_multiset().contains(tiled[k]));
            assert(a.contains(tiled[k]));
            let m = choose|m: int| 0 <= m < a.len() && a[m] == tiled[k];
            windows.lemma_filter_pred(tiled_pred, m);
            windows.lemma_filter_contains_rev(tiled_pred, tiled[k]);
        } else {
            let m = k - tiled.len();
            windows.lemma_filter_pred(float_pred, m);
            assert(floating.contains(floating[m]));
            windows.lemma_filter_contains_rev(float_pred, floating[m]);
        }
    }
    assert(both[i] != both[j]);
    let k = choose|k: int| 0 <= k < windows.len() && windows[k] == both[i];
    let l = choose|l: int| 0 <= l < windows.len() && windows[l] == both[j];
    assert(windows[k].id != windows[l].id);
}

/// In icon mode, every tile is that of an application with an icon.
pub proof fn tiles_have_icons<S: Scalar>(
    ws: Workspace,
    windows: Seq<Window<S>>,
    has: spec_fn(Seq<char>) -> bool,
    previous: Option<S>,
    i: int,
)
    requires
        0 <= i < row_of(ws, windows, Some(has), previous).tiles.len(),
    ensures
        row_of(ws, windows, Some(has), previous).tiles[i].app_id matches Some(id) && has(id@),
{
    broadcast use vstd::seq_lib::group_to_multiset_ensures;

    let icons = Some(has);
    let tiled_pred = |w: Window<S>| belongs(ws, w, icons) && is_tiled(w);
    let float_pred = |w: Window<S>| belongs(ws, w, icons) && is_overlay(w);
    let a = windows.filter(tiled_pred);
    let tiled = tiled_windows(ws, windows, icons);
    let floating = floating_windows(ws, windows, icons);
    every_window_has_one_tile(ws, tiled, floating, previous);
    crate::order::sorting_sorts::<Window<S>, ByPosition>(a);
    let tiles = laid_out(ws, tiled, floating, previous).tiles;
    assert(shows(ws, tiles[i], (tiled + floating)[i]));
    if i < tiled.len() {
        assert(tiled.to_multiset().contains(tiled[i]));
        assert(a.contains(tiled[i]));
        let m = choose|m: int| 0 <= m < a.len() && a[m] == tiled[i];
        windows.lemma_filter_pred(tiled_pred, m);
    } else {
        windows.lemma_filter_pred(float_pred, i - tiled.len());
    }
}

proof fn lemma_filter_no_duplicates<T>(s: Seq<T>, pred: spec_fn(T) -> bool)
    requires
        s.no_duplicates(),
    ensures
        s.filter(pred).no_duplicates(),
    decreases s.len(),
{
    reveal(Seq::filter);
    if s.len() > 0 {
        let front = s.drop_last();
        lemma_filter_no_duplicates(front, pred);
        if front.filter(pred).contains(s.last()) {
            front.lemma_filter_contains_rev(pred, s.last());
        }
    }
}

/// The stacked view lists each workspace that is worth a row, and no other, by
/// output and by place on it.
pub proof fn listed_rows_are_in_order<S>(
    workspaces: Seq<Workspace>,
    windows: Seq<Window<S>>,
    i: int,
    j: int,
    ws: Workspace,
)
    ensures
        0 <= i <= j < listed(workspaces, windows).len() ==> ByOutput::le(
            listed(workspaces, windows)[i],
            listed(workspaces, windows)[j],
        ),
        listed(workspaces, windows).to_multiset().count(ws) == if is_listed(ws, windows) {
            workspaces.to_multiset().count(ws)
        } else {
            0
        },
{
    let pred = |ws: Workspace| is_listed(ws, windows);
    let all = sorted::<Workspace, ByOutput>(workspaces);
    crate::order::sorting_sorts::<Workspace, ByOutput>(workspaces);
    crate::order::lemma_filter_items(all, pred);
    lemma_filter_in_order(all, pred);
}

proof fn lemma_filter_in_order(s: Seq<Workspace>, pred: spec_fn(Workspace) -> bool)
    requires
        crate::order::in_order::<Workspace, ByOutput>(s),
    ensures
        crate::order::in_order::<Workspace, ByOutput>(s.filter(pred)),
    decreases s.len(),
{
    reveal(Seq::filter);
    if s.len() > 0 {
        let front = s.drop_last();
        lemma_filter_in_order(front, pred);
        let kept = front.filter(pred);
        ByOutput::total(s.last(), s.last());
        assert forall|i: int| 0 <= i < kept.len() implies ByOutput::le(
            #[trigger] kept[i],
            s.last(),
        ) by {
            assert(kept.contains(kept[i]));
            front.lemma_filter_contains_rev(pred, kept[i]);
            let k = choose|k: int| 0 <= k < front.len() && front[k] == kept[i];
            assert(ByOutput::le(s[k], s[s.len() - 1]));
        }
    }
}

/// A column is at least as wide as each of its tiles.
proof fn lemma_width_covers(column: Seq<Window<Px>>, i: int)
    requires
        0 <= i < column.len(),
    ensures
        column[i].layout.tile_size.0.0 <= width_of(column).0,
    decreases column.len(),
{
    assert(width_of(column) == width_of(column.drop_last()).spec_greater(
        column.last().layout.tile_size.0,
    ));
    if i < column.len() - 1 {
        lemma_width_covers(column.drop_last(), i);
    }
}

/// More columns are never narrower.
proof fn lemma_total_grows(columns: Seq<Seq<Window<Px>>>, n: int)
    requires
        0 <= n <= columns.len(),
    ensures
        total_width(columns.take(n)).0 <= total_width(columns).0,
    decreases columns.len(),
{
    if n < columns.len() {
        let front = columns.drop_last();
        assert(front.take(n) =~= columns.take(n));
        lemma_total_grows(front, n);
        assert(total_width(columns) == total_width(front).spec_plus(width_of(columns.last())));
    } else {
        assert(columns.take(n) =~= columns);
    }
}

/// More tiles are never lower.
proof fn lemma_height_grows(column: Seq<Window<Px>>, n: int)
    requires
        0 <= n <= column.len(),
    ensures
        height_of(column.take(n)).0 <= height_of(column).0,
    decreases column.len(),
{
    if n < column.len() {
        let front = column.drop_last();
        assert(front.take(n) =~= column.take(n));
        lemma_height_grows(front, n);
        assert(height_of(column) == height_of(front).spec_plus(column.last().layout.tile_size.1));
    } else {
        assert(column.take(n) =~= column);
    }
}

/// In whole pixels, no tile reaches into a later column: each ends where the
/// next column begins, or before.
pub proof fn columns_do_not_overlap(columns: Seq<Seq<Window<Px>>>, c: int, d: int, i: int)
    requires
        0 <= c < d <= columns.len(),
        0 <= i < columns[c].len(),
    ensures
        total_width(columns.take(c)).spec_plus(columns[c][i].layout.tile_size.0).0 <= total_width(
            columns.take(d),
        ).0,
{
    let upto = columns.take(c + 1);
    assert(upto.drop_last() =~= columns.take(c));
    assert(upto.last() == columns[c]);
    assert(total_width(upto) == total_width(columns.take(c)).spec_plus(width_of(columns[c])));
    lemma_width_covers(columns[c], i);
    lemma_total_grows(columns.take(d), c + 1);
    assert(columns.take(d).take(c + 1) =~= upto);
}

/// In whole pixels, the tiles of a column do not overlap: each ends where the
/// next begins, or before.
pub proof fn tiles_do_not_overlap(column: Seq<Window<Px>>, i: int, j: int)
    requires
        0 <= i < j <= column.len(),
    ensures
        height_of(column.take(i)).spec_plus(column[i].layout.tile_size.1).0 <= height_of(
            column.take(j),
        ).0,
{
    let upto = column.take(i + 1);
    assert(upto.drop_last() =~= column.take(i));
    assert(upto.last() == column[i]);
    assert(height_of(upto) == height_of(column.take(i)).spec_plus(column[i].layout.tile_size.1));
    lemma_height_grows(column.take(j), i + 1);
    assert(column.take(j).take(i + 1) =~= upto);
}

/// In whole pixels, every tiled window lies within the width and height of its
/// row.
pub proof fn tiles_lie_within_the_row(columns: Seq<Seq<Window<Px>>>, c: int, i: int)
    requires
        0 <= c < columns.len(),
        0 <= i < columns[c].len(),
    ensures
        total_width(columns.take(c)).spec_plus(columns[c][i].layout.tile_size.0).0 <= total_width(
            columns,
        ).0,
        height_of(columns[c].take(i)).spec_plus(columns[c][i].layout.tile_size.1).0 <= tallest(
            columns,
        ).0,
{
    columns_do_not_overlap(columns, c, columns.len() as int, i);
    assert(columns.take(columns.len() as int) =~= columns);
    tiles_do_not_overlap(columns[c], i, columns[c].len() as int);
    assert(columns[c].take(columns[c].len() as int) =~= columns[c]);
    lemma_tallest_covers(columns, c);
}

proof fn lemma_tallest_covers(columns: Seq<Seq<Window<Px>>>, c: int)
    requires
        0 <= c < columns.len(),
    ensures
        height_of(columns[c]).0 <= tallest(columns).0,
    decreases columns.len(),
{
    assert(tallest(columns) == tallest(columns.drop_last()).spec_greater(
        height_of(columns.last()),
    ));
    if c < columns.len() - 1 {
        lemma_tallest_covers(columns.drop_last(), c);
    }
}

} // verus!
