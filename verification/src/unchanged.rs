//! What leaves the bytes of the content unchanged leaves the picture unchanged.

use vstd::prelude::*;
use crate::alike::{lemma_filter_alike, lemma_sorted_alike, pairwise, respects, same_window,
    same_workspace};
use crate::icons::IconCache;
use crate::ipc::Snapshot;
use crate::layout::{belongs, bottom_edge, column_tiles, columns, first_focused, floating_windows,
    height_of, icon_filter, is_overlay, is_tiled, laid_out, listed, overlay_of, position,
    right_edge, row_of, tallest, tiled_windows, tiles_of, total_width, view_left_in, view_left_of,
    width_of, ByPosition, RowModel, Tile};
use crate::model::Model;
use crate::order::{in_order, sorted, Order};
use crate::render::{all_lines, at_least_a_pixel, background, current_picture, highlight,
    line_shapes, line_top, mapped, paddings, row_models, row_scale, shared_height, shared_scale,
    stacked_picture, tallest_tiled, tile_shape, tile_shapes, Bounds, Line, Shape, Style, PADDING};
use crate::scalar::{Scalar, Wide};
use crate::seqs::text_of_option;
use crate::signature::{content_bytes, contents_are_told_apart, drawn_windows, drawn_workspaces,
    same_content, same_look, ById};
use crate::sizing::{lines_with, row_with};
use crate::state::{Window, Workspace};

verus! {

/// Whether two lists hold windows that are drawn alike, one for one.
pub open spec fn same_windows<S: Scalar>(a: Seq<Window<S>>, b: Seq<Window<S>>) -> bool {
    a.len() == b.len() && forall|i: int| 0 <= i < a.len() ==> same_window(#[trigger] a[i], b[i])
}

/// Whether two lists hold workspaces that are drawn alike, one for one.
pub open spec fn same_workspaces(a: Seq<Workspace>, b: Seq<Workspace>) -> bool {
    a.len() == b.len() && forall|i: int|
        0 <= i < a.len() ==> same_workspace(#[trigger] a[i], b[i])
}

/// Whether two lists of columns hold windows that are drawn alike.
pub open spec fn same_columns<S: Scalar>(a: Seq<Seq<Window<S>>>, b: Seq<Seq<Window<S>>>) -> bool {
    a.len() == b.len() && forall|i: int| 0 <= i < a.len() ==> same_windows(#[trigger] a[i], b[i])
}

/// Whether two tiles are drawn alike.
pub open spec fn same_tile<S>(a: Tile<S>, b: Tile<S>) -> bool {
    &&& a.x == b.x
    &&& a.y == b.y
    &&& a.w == b.w
    &&& a.h == b.h
    &&& a.focused == b.focused
    &&& a.is_last_focused == b.is_last_focused
    &&& text_of_option(a.app_id) == text_of_option(b.app_id)
}

/// Whether two lists hold tiles that are drawn alike, one for one.
pub open spec fn same_tiles<S>(a: Seq<Tile<S>>, b: Seq<Tile<S>>) -> bool {
    a.len() == b.len() && forall|i: int| 0 <= i < a.len() ==> same_tile(#[trigger] a[i], b[i])
}

/// Whether two rows are drawn alike.
pub open spec fn same_row<S>(a: RowModel<S>, b: RowModel<S>) -> bool {
    &&& same_tiles(a.tiles, b.tiles)
    &&& a.total_width == b.total_width
    &&& a.max_height == b.max_height
    &&& a.float_width == b.float_width
    &&& a.float_height == b.float_height
    &&& a.view_left == b.view_left
}

/// Whether two lists hold rows that are drawn alike, one for one.
pub open spec fn same_lines<S>(a: Seq<Line<S>>, b: Seq<Line<S>>) -> bool {
    a.len() == b.len() && forall|i: int|
        0 <= i < a.len() ==> (#[trigger] a[i]).is_active == b[i].is_active && same_row(
            a[i].row,
            b[i].row,
        )
}

/// Whether two shapes look the same.
pub open spec fn same_shape<N>(a: Shape<N>, b: Shape<N>) -> bool {
    &&& a.x == b.x
    &&& a.y == b.y
    &&& a.w == b.w
    &&& a.h == b.h
    &&& a.radius == b.radius
    &&& a.fill == b.fill
    &&& a.border == b.border
    &&& match (a.icon, b.icon) {
        (Some(i), Some(j)) => i.app_id@ == j.app_id@ && i.blit == j.blit,
        (None, None) => true,
        _ => false,
    }
}

/// Whether two pictures look the same.
pub open spec fn same_shapes<N>(a: Seq<Shape<N>>, b: Seq<Shape<N>>) -> bool {
    a.len() == b.len() && forall|i: int| 0 <= i < a.len() ==> same_shape(#[trigger] a[i], b[i])
}

proof fn lemma_same_layout<S: Scalar>(a: Window<S>, b: Window<S>)
    requires
        same_window(a, b),
    ensures
        a.layout == b.layout,
{
    S::bits_tell_apart(a.layout.tile_size.0, b.layout.tile_size.0);
    S::bits_tell_apart(a.layout.tile_size.1, b.layout.tile_size.1);
    S::bits_tell_apart(a.layout.window_offset_in_tile.0, b.layout.window_offset_in_tile.0);
    S::bits_tell_apart(a.layout.window_offset_in_tile.1, b.layout.window_offset_in_tile.1);
    if let Some(p) = a.layout.tile_pos_in_workspace_view {
        let q = b.layout.tile_pos_in_workspace_view->0;
        S::bits_tell_apart(p.0, q.0);
        S::bits_tell_apart(p.1, q.1);
    }
}

proof fn lemma_ends<S: Scalar>(a: Seq<Window<S>>, b: Seq<Window<S>>)
    requires
        same_windows(a, b),
        a.len() > 0,
    ensures
        same_windows(a.drop_last(), b.drop_last()),
        same_window(a.last(), b.last()),
        a.last().layout == b.last().layout,
{
    assert(same_window(a[a.len() - 1], b[b.len() - 1]));
    assert forall|i: int| 0 <= i < a.len() - 1 implies same_window(
        #[trigger] a.drop_last()[i],
        b.drop_last()[i],
    ) by {
        assert(same_window(a[i], b[i]));
    }
    lemma_same_layout(a.last(), b.last());
}

proof fn lemma_columns<S: Scalar>(a: Seq<Window<S>>, b: Seq<Window<S>>)
    requires
        same_windows(a, b),
    ensures
        same_columns(columns(a), columns(b)),
        a.len() > 0 ==> columns(a).len() > 0,
    decreases a.len(),
{
    if a.len() > 0 {
        lemma_ends(a, b);
        lemma_columns(a.drop_last(), b.drop_last());
        let x = columns(a.drop_last());
        let y = columns(b.drop_last());
        if a.len() > 1 {
            assert(same_window(a[a.len() - 2], b[b.len() - 2]));
        }
        if a.len() > 1 && position(a[a.len() - 2]).0 == position(a.last()).0 {
            let n = x.len() - 1;
            assert(same_windows(x[n], y[n]));
            assert forall|i: int| 0 <= i < columns(a).len() implies same_windows(
                #[trigger] columns(a)[i],
                columns(b)[i],
            ) by {
                assert(same_windows(x[i], y[i]));
                if i == n {
                    let c = x[n].push(a.last());
                    let d = y[n].push(b.last());
                    assert forall|j: int| 0 <= j < c.len() implies same_window(
                        #[trigger] c[j],
                        d[j],
                    ) by {
                        if j < x[n].len() {
                            assert(same_window(x[n][j], y[n][j]));
                        }
                    }
                }
            }
        } else {
            assert forall|i: int| 0 <= i < columns(a).len() implies same_windows(
                #[trigger] columns(a)[i],
                columns(b)[i],
            ) by {
                if i < x.len() {
                    assert(same_windows(x[i], y[i]));
                }
            }
        }
    }
}

proof fn lemma_column_sizes<S: Scalar>(a: Seq<Window<S>>, b: Seq<Window<S>>)
    requires
        same_windows(a, b),
    ensures
        width_of(a) == width_of(b),
        height_of(a) == height_of(b),
    decreases a.len(),
{
    if a.len() > 0 {
        lemma_ends(a, b);
        lemma_column_sizes(a.drop_last(), b.drop_last());
        assert(width_of(a) == width_of(a.drop_last()).spec_greater(a.last().layout.tile_size.0));
        assert(width_of(b) == width_of(b.drop_last()).spec_greater(b.last().layout.tile_size.0));
        assert(height_of(a) == height_of(a.drop_last()).spec_plus(a.last().layout.tile_size.1));
        assert(height_of(b) == height_of(b.drop_last()).spec_plus(b.last().layout.tile_size.1));
    }
}

proof fn lemma_view_in<S: Scalar>(a: Seq<Window<S>>, b: Seq<Window<S>>, x: S)
    requires
        same_windows(a, b),
    ensures
        view_left_in(a, x) == view_left_in(b, x),
    decreases a.len(),
{
    if a.len() > 0 {
        lemma_ends(a, b);
        lemma_view_in(a.drop_last(), b.drop_last(), x);
    }
}

proof fn lemma_column_tiles<S: Scalar>(
    ws: Workspace,
    other: Workspace,
    a: Seq<Window<S>>,
    b: Seq<Window<S>>,
    x: S,
)
    requires
        same_workspace(ws, other),
        same_windows(a, b),
    ensures
        same_tiles(column_tiles(ws, a, x), column_tiles(other, b, x)),
{
    assert forall|i: int| 0 <= i < a.len() implies same_tile(
        #[trigger] column_tiles(ws, a, x)[i],
        column_tiles(other, b, x)[i],
    ) by {
        assert(same_window(a[i], b[i]));
        lemma_same_layout(a[i], b[i]);
        assert forall|j: int| 0 <= j < i implies same_window(
            #[trigger] a.take(i)[j],
            b.take(i)[j],
        ) by {
            assert(same_window(a[j], b[j]));
        }
        lemma_column_sizes(a.take(i), b.take(i));
    }
}

proof fn lemma_all_columns<S: Scalar>(
    ws: Workspace,
    other: Workspace,
    a: Seq<Seq<Window<S>>>,
    b: Seq<Seq<Window<S>>>,
)
    requires
        same_workspace(ws, other),
        same_columns(a, b),
    ensures
        total_width(a) == total_width(b),
        tallest(a) == tallest(b),
        view_left_of(a) == view_left_of(b),
        same_tiles(tiles_of(ws, a), tiles_of(other, b)),
    decreases a.len(),
{
    if a.len() > 0 {
        let (x, y) = (a.drop_last(), b.drop_last());
        assert(same_windows(a[a.len() - 1], b[b.len() - 1]));
        assert forall|i: int| 0 <= i < x.len() implies same_windows(#[trigger] x[i], y[i]) by {
            assert(same_windows(a[i], b[i]));
        }
        lemma_all_columns(ws, other, x, y);
        lemma_column_sizes(a.last(), b.last());
        lemma_view_in(a.last(), b.last(), total_width(x));
        assert(total_width(a) == total_width(x).spec_plus(width_of(a.last())));
        assert(total_width(b) == total_width(y).spec_plus(width_of(b.last())));
        assert(tallest(a) == tallest(x).spec_greater(height_of(a.last())));
        assert(tallest(b) == tallest(y).spec_greater(height_of(b.last())));
        lemma_column_tiles(ws, other, a.last(), b.last(), total_width(x));
        lemma_joined_tiles(
            tiles_of(ws, x),
            tiles_of(other, y),
            column_tiles(ws, a.last(), total_width(x)),
            column_tiles(other, b.last(), total_width(y)),
        );
    }
}

proof fn lemma_joined_tiles<S>(a: Seq<Tile<S>>, b: Seq<Tile<S>>, c: Seq<Tile<S>>, d: Seq<Tile<S>>)
    requires
        same_tiles(a, b),
        same_tiles(c, d),
    ensures
        same_tiles(a + c, b + d),
{
    assert forall|i: int| 0 <= i < (a + c).len() implies same_tile(
        #[trigger] (a + c)[i],
        (b + d)[i],
    ) by {
        if i < a.len() {
            assert(same_tile(a[i], b[i]));
        } else {
            assert(same_tile(c[i - a.len()], d[i - a.len()]));
        }
    }
}

proof fn lemma_edges<S: Scalar>(a: Seq<Tile<S>>, b: Seq<Tile<S>>)
    requires
        same_tiles(a, b),
    ensures
        right_edge(a) == right_edge(b),
        bottom_edge(a) == bottom_edge(b),
    decreases a.len(),
{
    if a.len() > 0 {
        let (x, y) = (a.drop_last(), b.drop_last());
        assert(same_tile(a[a.len() - 1], b[b.len() - 1]));
        assert forall|i: int| 0 <= i < x.len() implies same_tile(#[trigger] x[i], y[i]) by {
            assert(same_tile(a[i], b[i]));
        }
        lemma_edges(x, y);
        assert(right_edge(a) == right_edge(x).spec_greater(a.last().x.spec_plus(a.last().w)));
        assert(right_edge(b) == right_edge(y).spec_greater(b.last().x.spec_plus(b.last().w)));
        assert(bottom_edge(a) == bottom_edge(x).spec_greater(a.last().y.spec_plus(a.last().h)));
        assert(bottom_edge(b) == bottom_edge(y).spec_greater(b.last().y.spec_plus(b.last().h)));
    }
}

proof fn lemma_laid_out<S: Scalar>(
    ws: Workspace,
    other: Workspace,
    tiled: Seq<Window<S>>,
    other_tiled: Seq<Window<S>>,
    floating: Seq<Window<S>>,
    other_floating: Seq<Window<S>>,
    previous: Option<S>,
)
    requires
        same_workspace(ws, other),
        same_windows(tiled, other_tiled),
        same_windows(floating, other_floating),
    ensures
        same_row(
            laid_out(ws, tiled, floating, previous),
            laid_out(other, other_tiled, other_floating, previous),
        ),
{
    let (x, y) = (columns(tiled), columns(other_tiled));
    lemma_columns(tiled, other_tiled);
    lemma_all_columns(ws, other, x, y);
    let left = match (view_left_of(x), previous) {
        (Some(left), _) => left,
        (None, Some(left)) => left,
        (None, None) => S::spec_from_u64(0),
    };
    let a = floating.map_values(|w: Window<S>| overlay_of(ws, w, left));
    let b = other_floating.map_values(|w: Window<S>| overlay_of(other, w, left));
    assert forall|i: int| 0 <= i < a.len() implies same_tile(#[trigger] a[i], b[i]) by {
        assert(same_window(floating[i], other_floating[i]));
        lemma_same_layout(floating[i], other_floating[i]);
    }
    lemma_edges(a, b);
    lemma_joined_tiles(tiles_of(ws, x), tiles_of(other, y), a, b);
}

/// Windows that are drawn alike make rows that are drawn alike.
proof fn lemma_row<S: Scalar>(
    ws: Workspace,
    other: Workspace,
    a: Seq<Window<S>>,
    b: Seq<Window<S>>,
    icons: Option<spec_fn(Seq<char>) -> bool>,
    previous: Option<S>,
)
    requires
        same_workspace(ws, other),
        same_windows(a, b),
    ensures
        same_row(row_of(ws, a, icons, previous), row_of(other, b, icons, previous)),
{
    let alike = |x: Window<S>, y: Window<S>| same_window(x, y);
    let p = |w: Window<S>| belongs(ws, w, icons) && is_tiled(w);
    let q = |w: Window<S>| belongs(other, w, icons) && is_tiled(w);
    let f = |w: Window<S>| belongs(ws, w, icons) && is_overlay(w);
    let g = |w: Window<S>| belongs(other, w, icons) && is_overlay(w);
    assert(pairwise(a, b, alike));
    lemma_filter_alike(a, b, p, q, alike);
    lemma_filter_alike(a, b, f, g, alike);
    assert(respects::<Window<S>, ByPosition>(alike));
    lemma_sorted_alike::<Window<S>, ByPosition>(a.filter(p), b.filter(q), alike);
    let (x, y) = (tiled_windows(ws, a, icons), tiled_windows(other, b, icons));
    assert forall|i: int| 0 <= i < x.len() implies same_window(#[trigger] x[i], y[i]) by {
        assert(alike(x[i], y[i]));
    }
    let (u, v) = (floating_windows(ws, a, icons), floating_windows(other, b, icons));
    assert forall|i: int| 0 <= i < u.len() implies same_window(#[trigger] u[i], v[i]) by {
        assert(alike(u[i], v[i]));
    }
    lemma_laid_out(ws, other, x, y, u, v, previous);
}

proof fn lemma_filter_twice<T>(s: Seq<T>, p: spec_fn(T) -> bool, q: spec_fn(T) -> bool)
    requires
        forall|x: T| #[trigger] q(x) ==> p(x),
    ensures
        s.filter(p).filter(q) == s.filter(q),
    decreases s.len(),
{
    reveal(Seq::filter);
    if s.len() > 0 {
        let front = s.drop_last().filter(p);
        lemma_filter_twice(s.drop_last(), p, q);
        assert(front.push(s.last()).drop_last() =~= front);
    }
}

/// A row is made of the windows of its workspace alone.
proof fn lemma_row_alone<S: Scalar>(
    ws: Workspace,
    windows: Seq<Window<S>>,
    icons: Option<spec_fn(Seq<char>) -> bool>,
    previous: Option<S>,
)
    ensures
        row_of(
            ws,
            windows.filter(|w: Window<S>| w.workspace_id == Some(ws.id)),
            icons,
            previous,
        ) == row_of(ws, windows, icons, previous),
{
    let on = |w: Window<S>| w.workspace_id == Some(ws.id);
    lemma_filter_twice(windows, on, |w: Window<S>| belongs(ws, w, icons) && is_tiled(w));
    lemma_filter_twice(windows, on, |w: Window<S>| belongs(ws, w, icons) && is_overlay(w));
}

proof fn lemma_sorted_already<T, O: Order<T>>(s: Seq<T>)
    requires
        in_order::<T, O>(s),
    ensures
        sorted::<T, O>(s) == s,
    decreases s.len(),
{
    if s.len() > 0 {
        let front = s.drop_last();
        assert forall|i: int, j: int| 0 <= i <= j < front.len() implies O::le(
            #[trigger] front[i],
            #[trigger] front[j],
        ) by {
            assert(O::le(s[i], s[j]));
        }
        lemma_sorted_already::<T, O>(front);
        if front.len() > 0 {
            assert(O::le(s[s.len() - 2], s[s.len() - 1]));
        }
        assert(s =~= front.push(s.last()));
    }
}

proof fn lemma_filter_keeps_order<T, O: Order<T>>(s: Seq<T>, pred: spec_fn(T) -> bool)
    requires
        in_order::<T, O>(s),
    ensures
        in_order::<T, O>(s.filter(pred)),
    decreases s.len(),
{
    reveal(Seq::filter);
    if s.len() > 0 {
        let front = s.drop_last();
        assert forall|i: int, j: int| 0 <= i <= j < front.len() implies O::le(
            #[trigger] front[i],
            #[trigger] front[j],
        ) by {
            assert(O::le(s[i], s[j]));
        }
        lemma_filter_keeps_order::<T, O>(front, pred);
        let kept = front.filter(pred);
        O::total(s.last(), s.last());
        assert forall|i: int| 0 <= i < kept.len() implies O::le(#[trigger] kept[i], s.last()) by {
            assert(kept.contains(kept[i]));
            front.lemma_filter_contains_rev(pred, kept[i]);
            let k = choose|k: int| 0 <= k < front.len() && front[k] == kept[i];
            assert(O::le(s[k], s[s.len() - 1]));
        }
    }
}

proof fn lemma_lines<S: Wide>(
    list: Seq<Workspace>,
    other: Seq<Workspace>,
    a: Seq<Window<S>>,
    b: Seq<Window<S>>,
    icons: Option<spec_fn(Seq<char>) -> bool>,
    view_left: Map<u64, S>,
)
    requires
        same_workspaces(list, other),
        same_windows(a, b),
    ensures
        same_lines(
            lines_with(list, a, icons, view_left).0,
            lines_with(other, b, icons, view_left).0,
        ),
        lines_with(list, a, icons, view_left).1 == lines_with(other, b, icons, view_left).1,
    decreases list.len(),
{
    if list.len() > 0 {
        let (x, y) = (list.drop_last(), other.drop_last());
        assert(same_workspace(list[list.len() - 1], other[other.len() - 1]));
        assert forall|i: int| 0 <= i < x.len() implies same_workspace(#[trigger] x[i], y[i]) by {
            assert(same_workspace(list[i], other[i]));
        }
        lemma_lines(x, y, a, b, icons, view_left);
        let (rows, known) = lines_with(x, a, icons, view_left);
        let (other_rows, _known) = lines_with(y, b, icons, view_left);
        let ws = list.last();
        let previous = if known.contains_key(ws.id) {
            Some(known[ws.id])
        } else {
            None
        };
        lemma_row(ws, other.last(), a, b, icons, previous);
        let all = lines_with(list, a, icons, view_left).0;
        let others = lines_with(other, b, icons, view_left).0;
        assert forall|i: int| 0 <= i < all.len() implies (#[trigger] all[i]).is_active
            == others[i].is_active && same_row(all[i].row, others[i].row) by {
            if i < rows.len() {
                assert(rows[i].is_active == other_rows[i].is_active);
            }
        }
    }
}

/// Whether two styles draw alike.
pub open spec fn same_style<S>(a: Style<S>, b: Style<S>) -> bool {
    &&& same_look(*a.cfg, *b.cfg)
    &&& *a.icons == *b.icons
    &&& a.show_icons == b.show_icons
}

proof fn lemma_tile_shapes<S: Wide>(
    style: Style<S>,
    other: Style<S>,
    scale: S::Narrow,
    a: Seq<Tile<S>>,
    b: Seq<Tile<S>>,
    x0: S::Narrow,
    y0: S::Narrow,
    k: S::Narrow,
    clip: Option<Bounds<S::Narrow>>,
)
    requires
        same_style(style, other),
        same_tiles(a, b),
    ensures
        same_shapes(
            tile_shapes(style, scale, a, x0, y0, k, clip),
            tile_shapes(other, scale, b, x0, y0, k, clip),
        ),
    decreases a.len(),
{
    if a.len() > 0 {
        let (x, y) = (a.drop_last(), b.drop_last());
        assert(same_tile(a[a.len() - 1], b[b.len() - 1]));
        assert forall|i: int| 0 <= i < x.len() implies same_tile(#[trigger] x[i], y[i]) by {
            assert(same_tile(a[i], b[i]));
        }
        lemma_tile_shapes(style, other, scale, x, y, x0, y0, k, clip);
        let front = tile_shapes(style, scale, x, x0, y0, k, clip);
        let other_front = tile_shapes(other, scale, y, x0, y0, k, clip);
        let s = tile_shape(style, scale, mapped(a.last(), x0, y0, k), a.last(), clip);
        let t = tile_shape(other, scale, mapped(b.last(), x0, y0, k), b.last(), clip);
        assert(s is Some == t is Some);
        if s is Some {
            assert(same_shape(s->0, t->0));
            let all = front.push(s->0);
            let others = other_front.push(t->0);
            assert forall|i: int| 0 <= i < all.len() implies same_shape(
                #[trigger] all[i],
                others[i],
            ) by {
                if i < front.len() {
                    assert(same_shape(front[i], other_front[i]));
                }
            }
        }
    }
}

proof fn lemma_joined_shapes<N>(
    a: Seq<Shape<N>>,
    b: Seq<Shape<N>>,
    c: Seq<Shape<N>>,
    d: Seq<Shape<N>>,
)
    requires
        same_shapes(a, b),
        same_shapes(c, d),
    ensures
        same_shapes(a + c, b + d),
{
    assert forall|i: int| 0 <= i < (a + c).len() implies same_shape(
        #[trigger] (a + c)[i],
        (b + d)[i],
    ) by {
        if i < a.len() {
            assert(same_shape(a[i], b[i]));
        } else {
            assert(same_shape(c[i - a.len()], d[i - a.len()]));
        }
    }
}

proof fn lemma_line_shapes<S: Wide>(
    style: Style<S>,
    other: Style<S>,
    scale: S::Narrow,
    a: Line<S>,
    b: Line<S>,
    y: S::Narrow,
    k: S::Narrow,
    inner_w: S::Narrow,
    row_h: S::Narrow,
)
    requires
        same_style(style, other),
        a.is_active == b.is_active,
        same_row(a.row, b.row),
    ensures
        same_shapes(
            line_shapes(style, scale, a, y, k, inner_w, row_h),
            line_shapes(other, scale, b, y, k, inner_w, row_h),
        ),
{
    let padding = <S::Narrow as Scalar>::spec_from_u64(PADDING);
    let (rk, content_w) = row_scale(a.row, k, row_h);
    assert(row_scale(b.row, k, row_h) == (rk, content_w));
    let clip = Some(at_least_a_pixel(padding, y, inner_w, row_h));
    lemma_tile_shapes(style, other, scale, a.row.tiles, b.row.tiles, padding, y, rk, clip);
    let framed = a.is_active && S::spec_from_u64(0).spec_below(
        style.cfg.active_workspace_border_width,
    );
    let frame = if framed {
        seq![highlight(*style.cfg, y, content_w, inner_w, row_h)]
    } else {
        Seq::empty()
    };
    let other_frame = if framed {
        seq![highlight(*other.cfg, y, content_w, inner_w, row_h)]
    } else {
        Seq::empty()
    };
    assert(same_shapes(frame, other_frame));
    lemma_joined_shapes(
        frame,
        other_frame,
        tile_shapes(style, scale, a.row.tiles, padding, y, rk, clip),
        tile_shapes(other, scale, b.row.tiles, padding, y, rk, clip),
    );
}

proof fn lemma_all_lines<S: Wide>(
    style: Style<S>,
    other: Style<S>,
    scale: S::Narrow,
    a: Seq<Line<S>>,
    b: Seq<Line<S>>,
    k: S::Narrow,
    inner_w: S::Narrow,
    row_h: S::Narrow,
    gap: S::Narrow,
)
    requires
        same_style(style, other),
        same_lines(a, b),
    ensures
        same_shapes(
            all_lines(style, scale, a, k, inner_w, row_h, gap),
            all_lines(other, scale, b, k, inner_w, row_h, gap),
        ),
    decreases a.len(),
{
    if a.len() > 0 {
        let (x, y) = (a.drop_last(), b.drop_last());
        let n = (a.len() - 1) as nat;
        assert(a[n as int].is_active == b[n as int].is_active);
        assert forall|i: int| 0 <= i < x.len() implies (#[trigger] x[i]).is_active
            == y[i].is_active && same_row(x[i].row, y[i].row) by {
            assert(a[i].is_active == b[i].is_active);
        }
        lemma_all_lines(style, other, scale, x, y, k, inner_w, row_h, gap);
        let top = line_top(n, row_h, gap);
        lemma_line_shapes(style, other, scale, a.last(), b.last(), top, k, inner_w, row_h);
        lemma_joined_shapes(
            all_lines(style, scale, x, k, inner_w, row_h, gap),
            all_lines(other, scale, y, k, inner_w, row_h, gap),
            line_shapes(style, scale, a.last(), top, k, inner_w, row_h),
            line_shapes(other, scale, b.last(), top, k, inner_w, row_h),
        );
    }
}

proof fn lemma_tallest<S: Wide>(a: Seq<Line<S>>, b: Seq<Line<S>>)
    requires
        same_lines(a, b),
    ensures
        tallest_tiled(row_models(a)) == tallest_tiled(row_models(b)),
    decreases a.len(),
{
    if a.len() > 0 {
        let (x, y) = (a.drop_last(), b.drop_last());
        assert(a[a.len() - 1].is_active == b[b.len() - 1].is_active);
        assert forall|i: int| 0 <= i < x.len() implies (#[trigger] x[i]).is_active
            == y[i].is_active && same_row(x[i].row, y[i].row) by {
            assert(a[i].is_active == b[i].is_active);
        }
        lemma_tallest(x, y);
        assert(row_models(a).drop_last() =~= row_models(x));
        assert(row_models(b).drop_last() =~= row_models(y));
    }
}

proof fn lemma_stacked_picture<S: Wide>(
    style: Style<S>,
    other: Style<S>,
    scale: S::Narrow,
    a: Seq<Line<S>>,
    b: Seq<Line<S>>,
    log_w: S::Narrow,
    log_h: S::Narrow,
)
    requires
        same_style(style, other),
        same_lines(a, b),
    ensures
        same_shapes(
            stacked_picture(style, scale, a, log_w, log_h),
            stacked_picture(other, scale, b, log_w, log_h),
        ),
{
    let zero = <S::Narrow as Scalar>::spec_from_u64(0);
    let gap = style.cfg.workspace_gap.spec_narrow();
    let row_h = shared_height(a.len(), log_h, gap);
    let inner_w = log_w.spec_minus(paddings()).spec_greater(zero);
    lemma_tallest(a, b);
    lemma_all_lines(
        style,
        other,
        scale,
        a,
        b,
        shared_scale(row_models(a), row_h),
        inner_w,
        row_h,
        gap,
    );
    assert((forall|i: int| 0 <= i < a.len() ==> (#[trigger] a[i]).row.tiles.len() == 0) == (
    forall|i: int| 0 <= i < b.len() ==> (#[trigger] b[i]).row.tiles.len() == 0)) by {
        if forall|i: int| 0 <= i < a.len() ==> (#[trigger] a[i]).row.tiles.len() == 0 {
            assert forall|i: int| 0 <= i < b.len() implies (#[trigger] b[i]).row.tiles.len()
                == 0 by {
                assert(a[i].row.tiles.len() == 0);
            }
        }
        if forall|i: int| 0 <= i < b.len() ==> (#[trigger] b[i]).row.tiles.len() == 0 {
            assert forall|i: int| 0 <= i < a.len() implies (#[trigger] a[i]).row.tiles.len()
                == 0 by {
                assert(a[i].is_active == b[i].is_active);
                assert(b[i].row.tiles.len() == 0);
            }
        }
    }
}

proof fn lemma_current_picture<S: Wide>(
    style: Style<S>,
    other: Style<S>,
    scale: S::Narrow,
    a: RowModel<S>,
    b: RowModel<S>,
    log_w: S::Narrow,
    log_h: S::Narrow,
)
    requires
        same_style(style, other),
        same_row(a, b),
    ensures
        same_shapes(
            current_picture(style, scale, Some(a), log_w, log_h),
            current_picture(other, scale, Some(b), log_w, log_h),
        ),
{
    let zero = <S::Narrow as Scalar>::spec_from_u64(0);
    let padding = <S::Narrow as Scalar>::spec_from_u64(PADDING);
    let both = paddings::<S::Narrow>();
    let k = log_h.spec_minus(both).spec_greater(zero).spec_over(a.scale_h().spec_narrow());
    let content_w = a.scale_w().spec_narrow().spec_times(k);
    let margin = log_w.spec_minus(both).spec_minus(content_w).spec_greater(zero).spec_over(
        <S::Narrow as Scalar>::spec_from_u64(2),
    );
    lemma_tile_shapes(
        style,
        other,
        scale,
        a.tiles,
        b.tiles,
        padding.spec_plus(margin),
        padding,
        k,
        None,
    );
}

/// Whether windows are reported by id.
pub open spec fn reported_by_id<S>(windows: Seq<Window<S>>) -> bool {
    in_order::<Window<S>, ById>(windows)
}

/// What is drawn of two widgets, of which the contents have the same bytes,
/// looks the same, with the same views and icons known. Windows are taken to be
/// reported by id: floating windows are drawn in the order of the report, which
/// the bytes do not hold.
pub proof fn same_bytes_same_picture<S: Wide, B>(
    a: Model<S, B>,
    snap: Snapshot<S>,
    b: Model<S, B>,
    other: Snapshot<S>,
    icons: IconCache,
)
    requires
        content_bytes(a.drawn_from(snap)) == content_bytes(b.drawn_from(other)),
        a.view_left == b.view_left,
        reported_by_id(snap.windows@),
        reported_by_id(other.windows@),
    ensures
        same_shapes(a.drawing(snap, icons), b.drawing(other, icons)),
{
    contents_are_told_apart(a.drawn_from(snap), b.drawn_from(other));
    lemma_same_drawing(a, snap, b, other, icons);
}

proof fn lemma_same_drawing<S: Wide, B>(
    a: Model<S, B>,
    snap: Snapshot<S>,
    b: Model<S, B>,
    other: Snapshot<S>,
    icons: IconCache,
)
    requires
        same_content(a.drawn_from(snap), b.drawn_from(other)),
        a.view_left == b.view_left,
        reported_by_id(snap.windows@),
        reported_by_id(other.windows@),
    ensures
        same_shapes(a.drawing(snap, icons), b.drawing(other, icons)),
{
    let show = a.config.appearance.show_icons;
    let style = Style { cfg: &a.config.appearance, icons: &icons, show_icons: show };
    let other_style = Style { cfg: &b.config.appearance, icons: &icons, show_icons: show };
    let scale = <S::Narrow as Scalar>::spec_from_i64(a.frame_scale() as i64);
    let (w, h) = a.frame_size();
    assert(b.frame_size() == (w, h));
    let log_w = <S::Narrow as Scalar>::spec_from_u64(w as u64).spec_over(scale);
    let log_h = <S::Narrow as Scalar>::spec_from_u64(h as u64).spec_over(scale);
    let back = background(a.config.appearance, log_w, log_h);
    let other_back = background(b.config.appearance, log_w, log_h);
    assert(same_shapes(back, other_back));
    let filter = icon_filter(
        if show {
            Some(&icons)
        } else {
            None
        },
    );
    let (focused, lines, _known) = a.content(snap, icons);
    let (other_focused, other_lines, _other) = b.content(other, icons);
    if a.config.spec_is_stacked() {
        lemma_sorted_already::<Window<S>, ById>(snap.windows@);
        lemma_sorted_already::<Window<S>, ById>(other.windows@);
        let (x, y) = (snap.windows@, other.windows@);
        let alike = |x: Window<S>, y: Window<S>| same_window(x, y);
        assert(pairwise(x, y, alike));
        assert forall|i: int| 0 <= i < x.len() implies same_window(#[trigger] x[i], y[i]) by {
            assert(alike(x[i], y[i]));
        }
        let list = listed(snap.workspaces@, x);
        let other_list = listed(other.workspaces@, y);
        let alike_ws = |x: Workspace, y: Workspace| same_workspace(x, y);
        assert(pairwise(list, other_list, alike_ws));
        assert forall|i: int| 0 <= i < list.len() implies same_workspace(
            #[trigger] list[i],
            other_list[i],
        ) by {
            assert(alike_ws(list[i], other_list[i]));
        }
        lemma_lines(list, other_list, x, y, filter, a.view_left);
        lemma_stacked_picture(style, other_style, scale, lines, other_lines, log_w, log_h);
        lemma_joined_shapes(
            back,
            other_back,
            stacked_picture(style, scale, lines, log_w, log_h),
            stacked_picture(other_style, scale, other_lines, log_w, log_h),
        );
    } else {
        lemma_same_focused_row(a, snap, b, other, icons);
        match focused {
            Some(row) => {
                lemma_current_picture(
                    style,
                    other_style,
                    scale,
                    row,
                    other_focused->0,
                    log_w,
                    log_h,
                );
            },
            None => {},
        }
        lemma_joined_shapes(
            back,
            other_back,
            current_picture(style, scale, focused, log_w, log_h),
            current_picture(other_style, scale, other_focused, log_w, log_h),
        );
    }
}

proof fn lemma_same_focused_row<S: Wide, B>(
    a: Model<S, B>,
    snap: Snapshot<S>,
    b: Model<S, B>,
    other: Snapshot<S>,
    icons: IconCache,
)
    requires
        same_content(a.drawn_from(snap), b.drawn_from(other)),
        !a.config.spec_is_stacked(),
        a.view_left == b.view_left,
        reported_by_id(snap.windows@),
        reported_by_id(other.windows@),
    ensures
        match (a.content(snap, icons).0, b.content(other, icons).0) {
            (Some(row), Some(other_row)) => same_row(row, other_row),
            (None, None) => true,
            _ => false,
        },
{
    let alike_ws = |x: Workspace, y: Workspace| same_workspace(x, y);
    let list = drawn_workspaces(false, snap.workspaces@, snap.windows@);
    let other_list = drawn_workspaces(false, other.workspaces@, other.windows@);
    assert(pairwise(list, other_list, alike_ws));
    match first_focused(snap.workspaces@) {
        Some(ws) => {
            assert(list =~= seq![ws]);
            assert(first_focused(other.workspaces@) is Some);
            let other_ws = first_focused(other.workspaces@)->0;
            assert(alike_ws(list[0], other_list[0]));
            assert(same_workspace(ws, other_ws));
            let on = |w: Window<S>| w.workspace_id == Some(ws.id);
            let (x, y) = (snap.windows@.filter(on), other.windows@.filter(on));
            lemma_filter_keeps_order::<Window<S>, ById>(snap.windows@, on);
            lemma_filter_keeps_order::<Window<S>, ById>(other.windows@, on);
            lemma_sorted_already::<Window<S>, ById>(x);
            lemma_sorted_already::<Window<S>, ById>(y);
            let alike = |x: Window<S>, y: Window<S>| same_window(x, y);
            assert(pairwise(
                drawn_windows(false, snap.workspaces@, snap.windows@),
                drawn_windows(false, other.workspaces@, other.windows@),
                alike,
            ));
            assert forall|i: int| 0 <= i < x.len() implies same_window(#[trigger] x[i], y[i]) by {
                assert(alike(x[i], y[i]));
            }
            let filter = icon_filter(
                if a.config.appearance.show_icons {
                    Some(&icons)
                } else {
                    None
                },
            );
            let previous = if a.view_left.contains_key(ws.id) {
                Some(a.view_left[ws.id])
            } else {
                None
            };
            lemma_row(ws, other_ws, x, y, filter, previous);
            lemma_row_alone(ws, snap.windows@, filter, previous);
            lemma_row_alone(other_ws, other.windows@, filter, previous);
        },
        None => {
            assert(list.len() == 0);
            assert(other_list.len() == 0);
        },
    }
}

/// What the windows of a workspace tell of the left edge of its view.
pub open spec fn told<S: Scalar>(
    ws: Workspace,
    windows: Seq<Window<S>>,
    icons: Option<spec_fn(Seq<char>) -> bool>,
) -> Option<S> {
    view_left_of(columns(tiled_windows(ws, windows, icons)))
}

/// Whether what is known of the views differs at most where the windows tell
/// anyway.
pub open spec fn same_views<S: Scalar>(
    windows: Seq<Window<S>>,
    icons: Option<spec_fn(Seq<char>) -> bool>,
    a: Map<u64, S>,
    b: Map<u64, S>,
) -> bool {
    forall|ws: Workspace|
        #![trigger told(ws, windows, icons)]
        told(ws, windows, icons) is None ==> a.contains_key(ws.id) == b.contains_key(ws.id) && (
        a.contains_key(ws.id) ==> a[ws.id] == b[ws.id])
}

proof fn lemma_told_by_id<S: Scalar>(
    ws: Workspace,
    other: Workspace,
    windows: Seq<Window<S>>,
    icons: Option<spec_fn(Seq<char>) -> bool>,
)
    requires
        ws.id == other.id,
    ensures
        told(ws, windows, icons) == told(other, windows, icons),
{
    assert((|w: Window<S>| belongs(ws, w, icons) && is_tiled(w)) =~= (|w: Window<S>|
        belongs(other, w, icons) && is_tiled(w)));
}

/// Building a row changes what is known of the views only where its windows tell
/// it.
proof fn lemma_row_views<S: Wide>(
    ws: Workspace,
    windows: Seq<Window<S>>,
    icons: Option<spec_fn(Seq<char>) -> bool>,
    a: Map<u64, S>,
    b: Map<u64, S>,
)
    requires
        same_views(windows, icons, a, b),
    ensures
        row_with(ws, windows, icons, a).0 == row_with(ws, windows, icons, b).0,
        same_views(windows, icons, a, row_with(ws, windows, icons, b).1),
{
    let (row, known) = row_with(ws, windows, icons, b);
    assert(row.view_left == told(ws, windows, icons));
    assert forall|other: Workspace|
        #![trigger told(other, windows, icons)]
        told(other, windows, icons) is None implies a.contains_key(other.id)
        == known.contains_key(other.id) && (a.contains_key(other.id) ==> a[other.id]
        == known[other.id]) by {
        if other.id == ws.id {
            lemma_told_by_id(ws, other, windows, icons);
        }
    }
}

proof fn lemma_lines_views<S: Wide>(
    list: Seq<Workspace>,
    windows: Seq<Window<S>>,
    icons: Option<spec_fn(Seq<char>) -> bool>,
    a: Map<u64, S>,
    b: Map<u64, S>,
)
    requires
        same_views(windows, icons, a, b),
    ensures
        lines_with(list, windows, icons, a).0 == lines_with(list, windows, icons, b).0,
        same_views(windows, icons, a, lines_with(list, windows, icons, b).1),
    decreases list.len(),
{
    if list.len() > 0 {
        let front = list.drop_last();
        lemma_lines_views(front, windows, icons, a, b);
        lemma_lines_views(front, windows, icons, a, a);
        let x = lines_with(front, windows, icons, a).1;
        let y = lines_with(front, windows, icons, b).1;
        lemma_row_views(list.last(), windows, icons, a, x);
        lemma_row_views(list.last(), windows, icons, a, y);
    }
}

/// Drawing the same again gives the same picture: what a frame brings to light
/// of the views does not change the next one.
pub proof fn drawing_again_changes_nothing<S: Wide, B>(
    m: Model<S, B>,
    snap: Snapshot<S>,
    icons: IconCache,
)
    ensures
        (Model { view_left: m.content(snap, icons).2, ..m }).drawing(snap, icons) == m.drawing(
            snap,
            icons,
        ),
{
    let filter = icon_filter(
        if m.config.appearance.show_icons {
            Some(&icons)
        } else {
            None
        },
    );
    let known = m.content(snap, icons).2;
    if m.config.spec_is_stacked() {
        let list = listed(snap.workspaces@, snap.windows@);
        lemma_lines_views(list, snap.windows@, filter, m.view_left, m.view_left);
        lemma_lines_views(list, snap.windows@, filter, m.view_left, known);
    } else if let Some(ws) = first_focused(snap.workspaces@) {
        lemma_row_views(ws, snap.windows@, filter, m.view_left, m.view_left);
        lemma_row_views(ws, snap.windows@, filter, m.view_left, known);
    }
}

} // verus!
