//! The geometry of the minimap: where windows, rows and icons come to lie, told
//! by how they lie to each other and to the widget.

use vstd::prelude::*;
use crate::layout::{belongs, bottom_edge, columns, floating_windows, height_of, is_overlay,
    is_tiled, laid_out, overlay_of, position, right_edge, row_of, tallest, tiled_windows, tiles_of,
    total_width, view_left_in, view_left_of, width_of, ByPosition, RowModel, Tile};
use crate::scalar::{Px, Scalar};
use crate::state::{Window, Workspace};

verus! {

/// The widths of some windows together, and their heights.
pub open spec fn spans(s: Seq<Window<Px>>) -> (int, int)
    decreases s.len(),
{
    if s.len() == 0 {
        (0, 0)
    } else {
        let front = spans(s.drop_last());
        let size = s.last().layout.tile_size;
        (front.0 + size.0.0, front.1 + size.1.0)
    }
}

/// The column of the scrolling layout that a window is in.
pub open spec fn column_number(w: Window<Px>) -> int {
    match w.layout.pos_in_scrolling_layout {
        Some((column, _)) => column as int,
        None => 0,
    }
}

/// Whether windows `j` to `i` stand in the same column.
pub open spec fn together(s: Seq<Window<Px>>, j: int, i: int) -> bool {
    forall|k: int| j <= k <= i ==> #[trigger] column_number(s[k]) == column_number(s[i])
}

/// Where a tile ends on the right.
pub open spec fn right_of(t: Tile<Px>) -> int {
    t.x.0 + t.w.0
}

/// Where a tile ends at the bottom.
pub open spec fn bottom_of(t: Tile<Px>) -> int {
    t.y.0 + t.h.0
}

/// Whether window `i` has the size that it reports, and lies where the windows
/// before it leave off: below the one before it in its column, or at the top,
/// to the right of everything before it and right against the widest tile of
/// the column before.
pub open spec fn stands_in_place(s: Seq<Window<Px>>, tiles: Seq<Tile<Px>>, i: int) -> bool {
    let t = tiles[i];
    &&& (t.w, t.h) == s[i].layout.tile_size
    &&& i == 0 ==> t.x.0 == 0 && t.y.0 == 0
    &&& i > 0 && column_number(s[i - 1]) == column_number(s[i]) ==> {
        &&& t.x == tiles[i - 1].x
        &&& t.y.0 == bottom_of(tiles[i - 1])
    }
    &&& i > 0 && column_number(s[i - 1]) != column_number(s[i]) ==> {
        &&& t.y.0 == 0
        &&& forall|j: int| 0 <= j < i ==> right_of(#[trigger] tiles[j]) <= t.x.0
        &&& exists|j: int|
            0 <= j < i && together(s, j, i - 1) && right_of(#[trigger] tiles[j]) == t.x.0
    }
}

/// Whether a row of these tiles is as wide and as high as they are.
pub open spec fn is_extent(tiles: Seq<Tile<Px>>, w: int, h: int) -> bool {
    &&& forall|j: int| 0 <= j < tiles.len() ==> right_of(#[trigger] tiles[j]) <= w
    &&& forall|j: int| 0 <= j < tiles.len() ==> bottom_of(#[trigger] tiles[j]) <= h
    &&& tiles.len() > 0 ==> {
        &&& exists|j: int| 0 <= j < tiles.len() && right_of(#[trigger] tiles[j]) == w
        &&& exists|j: int| 0 <= j < tiles.len() && bottom_of(#[trigger] tiles[j]) == h
    }
    &&& tiles.len() == 0 ==> w == 0 && h == 0
}

/// Columns stand side by side, and the tiles of a column on each other, without
/// gaps: in whole pixels, every tiled window lies where the ones before it leave
/// off, and the row is exactly as wide and as high as its tiles.
pub proof fn columns_stand_side_by_side(
    ws: Workspace,
    tiled: Seq<Window<Px>>,
    floating: Seq<Window<Px>>,
    previous: Option<Px>,
)
    requires
        spans(tiled).0 <= u64::MAX,
        spans(tiled).1 <= u64::MAX,
    ensures
        ({
            let row = laid_out(ws, tiled, floating, previous);
            let tiles = row.tiles.take(tiled.len() as int);
            &&& row.tiles.len() == tiled.len() + floating.len()
            &&& forall|i: int|
                0 <= i < tiled.len() ==> #[trigger] stands_in_place(tiled, tiles, i)
            &&& is_extent(tiles, row.total_width.0 as int, row.max_height.0 as int)
        }),
{
    lemma_tiled(ws, tiled);
    let row = laid_out(ws, tiled, floating, previous);
    assert(row.tiles.take(tiled.len() as int) =~= tiles_of(ws, columns(tiled)));
}

proof fn lemma_spans(s: Seq<Window<Px>>)
    ensures
        spans(s).0 >= 0,
        spans(s).1 >= 0,
    decreases s.len(),
{
    if s.len() > 0 {
        lemma_spans(s.drop_last());
    }
}

/// What one more window does to the columns of a row.
proof fn lemma_grown(ws: Workspace, s: Seq<Window<Px>>)
    requires
        s.len() > 0,
        s.len() > 1 ==> columns(s.drop_last()).len() > 0,
    ensures
        ({
            let n = s.len() - 1;
            let size = s.last().layout.tile_size;
            let front = columns(s.drop_last());
            let cols = columns(s);
            let old_tiles = tiles_of(ws, front);
            let t = tiles_of(ws, cols).last();
            let joins = n > 0 && position(s[n - 1]).0 == position(s.last()).0;
            &&& cols.len() > 0
            &&& tiles_of(ws, cols) == old_tiles.push(t)
            &&& (t.w, t.h) == size
            &&& t.x == total_width(cols.drop_last())
            &&& total_width(cols) == t.x.spec_plus(width_of(cols.last()))
            &&& tallest(cols) == tallest(cols.drop_last()).spec_greater(height_of(cols.last()))
            &&& n > 0 ==> {
                &&& total_width(front) == total_width(front.drop_last()).spec_plus(
                    width_of(front.last()),
                )
                &&& tallest(front) == tallest(front.drop_last()).spec_greater(
                    height_of(front.last()),
                )
            }
            &&& if joins {
                &&& cols.drop_last() == front.drop_last()
                &&& t.y == height_of(front.last())
                &&& height_of(cols.last()) == t.y.spec_plus(size.1)
                &&& width_of(cols.last()) == width_of(front.last()).spec_greater(size.0)
            } else {
                &&& cols.drop_last() == front
                &&& t.y == Px(0)
                &&& height_of(cols.last()) == size.1
                &&& width_of(cols.last()) == size.0
            }
        }),
{
    let n = s.len() - 1;
    let w = s.last();
    let front = columns(s.drop_last());
    let cols = columns(s);
    let old_tiles = tiles_of(ws, front);
    let tiles = tiles_of(ws, cols);
    if n > 0 && position(s[n - 1]).0 == position(w).0 {
        let column = front.last();
        let wider = column.push(w);
        assert(cols.drop_last() =~= front.drop_last());
        assert(cols.last() == wider);
        assert(wider.drop_last() =~= column);
        assert forall|i: int| 0 <= i <= column.len() implies #[trigger] wider.take(i)
            == column.take(i) by {
            assert(wider.take(i) =~= column.take(i));
        }
        assert(column.take(column.len() as int) =~= column);
        assert(tiles =~= old_tiles.push(tiles.last()));
    } else {
        assert(cols.drop_last() =~= front);
        assert(cols.last() =~= seq![w]);
        assert(seq![w].take(0) =~= Seq::empty());
        assert(seq![w].drop_last() =~= Seq::empty());
        assert(tiles =~= old_tiles.push(tiles.last()));
        assert(height_of(seq![w]) == height_of(Seq::<Window<Px>>::empty()).spec_plus(
            w.layout.tile_size.1,
        ));
        assert(width_of(seq![w]) == width_of(Seq::<Window<Px>>::empty()).spec_greater(
            w.layout.tile_size.0,
        ));
    }
}

/// Windows that come later do not move the ones before them.
proof fn lemma_still_together(s: Seq<Window<Px>>, longer: Seq<Window<Px>>, j: int, i: int)
    requires
        0 <= j,
        i < s.len() <= longer.len(),
        longer.take(s.len() as int) == s,
        together(s, j, i),
    ensures
        together(longer, j, i),
{
    assert forall|k: int| j <= k <= i implies #[trigger] column_number(longer[k])
        == column_number(longer[i]) by {
        assert(longer.take(s.len() as int)[k] == longer[k]);
        assert(longer.take(s.len() as int)[i] == longer[i]);
        assert(column_number(s[k]) == column_number(s[i]));
    }
}

/// Windows that come later do not move the ones before them.
proof fn lemma_still_stands(s: Seq<Window<Px>>, tiles: Seq<Tile<Px>>, t: Tile<Px>, i: int)
    requires
        s.len() > 0,
        tiles.len() == s.len() - 1,
        0 <= i < tiles.len(),
        stands_in_place(s.drop_last(), tiles, i),
    ensures
        stands_in_place(s, tiles.push(t), i),
{
    let all = tiles.push(t);
    let before = s.drop_last();
    assert(s.take(before.len() as int) =~= before);
    assert(forall|j: int| 0 <= j <= i ==> #[trigger] all[j] == tiles[j]);
    if i > 0 && column_number(s[i - 1]) != column_number(s[i]) {
        let j = choose|j: int|
            0 <= j < i && together(before, j, i - 1) && right_of(#[trigger] tiles[j])
                == tiles[i].x.0;
        lemma_still_together(before, s, j, i - 1);
        assert(right_of(all[j]) == all[i].x.0);
    }
}

/// Whether some tile of the last column ends where the row does.
spec fn last_column_ends(s: Seq<Window<Px>>, tiles: Seq<Tile<Px>>, w: int) -> bool {
    exists|j: int|
        0 <= j < s.len() && together(s, j, s.len() - 1) && right_of(#[trigger] tiles[j]) == w
}

proof fn lemma_tiled(ws: Workspace, s: Seq<Window<Px>>)
    requires
        spans(s).0 <= u64::MAX,
        spans(s).1 <= u64::MAX,
    ensures
        ({
            let cols = columns(s);
            let tiles = tiles_of(ws, cols);
            &&& tiles.len() == s.len()
            &&& forall|i: int| 0 <= i < s.len() ==> #[trigger] stands_in_place(s, tiles, i)
            &&& is_extent(tiles, total_width(cols).0 as int, tallest(cols).0 as int)
            &&& total_width(cols).0 <= spans(s).0
            &&& tallest(cols).0 <= spans(s).1
            &&& s.len() > 0 ==> {
                &&& cols.len() > 0
                &&& tiles.last().x == total_width(cols.drop_last())
                &&& bottom_of(tiles.last()) == height_of(cols.last()).0
                &&& total_width(cols).0 == tiles.last().x.0 + width_of(cols.last()).0
                &&& last_column_ends(s, tiles, total_width(cols).0 as int)
            }
        }),
    decreases s.len(),
{
    let cols = columns(s);
    let tiles = tiles_of(ws, cols);
    if s.len() > 0 {
        let n = s.len() - 1;
        let before = s.drop_last();
        let front = columns(before);
        let old_tiles = tiles_of(ws, front);
        let t = tiles.last();
        lemma_spans(before);
        lemma_tiled(ws, before);
        lemma_grown(ws, s);
        assert(s.take(n) =~= before);
        assert(forall|j: int| 0 <= j < n ==> #[trigger] tiles[j] == old_tiles[j]);
        assert(tiles[n] == t);
        assert(together(s, n, n));
        let w = total_width(cols).0 as int;
        if n > 0 && column_number(s[n - 1]) == column_number(s[n]) {
            let j = choose|j: int|
                0 <= j < n && together(before, j, n - 1) && right_of(#[trigger] old_tiles[j])
                    == total_width(front).0;
            lemma_still_together(before, s, j, n - 1);
            assert(together(s, j, n)) by {
                assert forall|k: int| j <= k <= n implies #[trigger] column_number(s[k])
                    == column_number(s[n]) by {}
            }
            assert(right_of(tiles[j]) == w || right_of(tiles[n]) == w);
            assert(tiles[n - 1] == old_tiles.last());
        } else if n > 0 {
            let j = choose|j: int|
                0 <= j < n && together(before, j, n - 1) && right_of(#[trigger] old_tiles[j])
                    == total_width(front).0;
            lemma_still_together(before, s, j, n - 1);
            assert(right_of(tiles[j]) == t.x.0);
            assert(right_of(tiles[n]) == w);
        } else {
            assert(total_width(front) == Px(0));
            assert(right_of(tiles[n]) == w);
        }
        assert(stands_in_place(s, tiles, n));
        assert(last_column_ends(s, tiles, w));
        lemma_extent_grows(old_tiles, t, total_width(front).0 as int, tallest(front).0 as int, w,
            tallest(cols).0 as int);
        assert forall|i: int| 0 <= i < s.len() implies #[trigger] stands_in_place(
            s,
            tiles,
            i,
        ) by {
            if i < n {
                assert(stands_in_place(before, old_tiles, i));
                lemma_still_stands(s, old_tiles, t, i);
            }
        }
    }
}

/// One more tile makes a row larger, or leaves its size.
proof fn lemma_extent_grows(
    tiles: Seq<Tile<Px>>,
    t: Tile<Px>,
    w: int,
    h: int,
    new_w: int,
    new_h: int,
)
    requires
        is_extent(tiles, w, h),
        w <= new_w,
        h <= new_h,
        right_of(t) <= new_w,
        bottom_of(t) <= new_h,
        right_of(t) == new_w || (w == new_w && tiles.len() > 0),
        bottom_of(t) == new_h || (h == new_h && tiles.len() > 0),
    ensures
        is_extent(tiles.push(t), new_w, new_h),
{
    let all = tiles.push(t);
    assert(all[tiles.len() as int] == t);
    assert(forall|j: int| 0 <= j < tiles.len() ==> #[trigger] all[j] == tiles[j]);
    if right_of(t) != new_w {
        let j = choose|j: int| 0 <= j < tiles.len() && right_of(#[trigger] tiles[j]) == w;
        assert(right_of(all[j]) == new_w);
    }
    if bottom_of(t) != new_h {
        let j = choose|j: int| 0 <= j < tiles.len() && bottom_of(#[trigger] tiles[j]) == h;
        assert(bottom_of(all[j]) == new_h);
    }
}

/// Where a window lies in the view; the corner, where that is not known.
pub open spec fn view_place(w: Window<Px>) -> (Px, Px) {
    match w.layout.tile_pos_in_workspace_view {
        Some(p) => p,
        None => (Px(0), Px(0)),
    }
}

/// The left edge of the view, as the last of some windows leaves it.
proof fn lemma_view_grown(ws: Workspace, s: Seq<Window<Px>>)
    requires
        s.len() > 0,
        s.len() > 1 ==> columns(s.drop_last()).len() > 0,
    ensures
        view_left_of(columns(s)) == match view_left_of(columns(s.drop_last())) {
            Some(left) => Some(left),
            None => match s.last().layout.tile_pos_in_workspace_view {
                Some(p) => Some(tiles_of(ws, columns(s)).last().x.spec_minus(p.0)),
                None => None,
            },
        },
{
    lemma_grown(ws, s);
    let n = s.len() - 1;
    let cols = columns(s);
    let front = columns(s.drop_last());
    let x = total_width(cols.drop_last());
    if n > 0 && position(s[n - 1]).0 == position(s.last()).0 {
        assert(cols.last() == front.last().push(s.last()));
        assert(cols.last().drop_last() =~= front.last());
        assert(view_left_of(front) == match view_left_of(front.drop_last()) {
            Some(left) => Some(left),
            None => view_left_in(front.last(), x),
        });
    } else {
        assert(cols.last() =~= seq![s.last()]);
        assert(seq![s.last()].drop_last() =~= Seq::empty());
        assert(view_left_in(Seq::<Window<Px>>::empty(), x) is None);
    }
}

/// Where no window knows its place in the view, nothing tells its left edge;
/// otherwise the first that does.
proof fn lemma_view_left(ws: Workspace, s: Seq<Window<Px>>, i: int)
    requires
        spans(s).0 <= u64::MAX,
        spans(s).1 <= u64::MAX,
        0 <= i <= s.len(),
        forall|k: int|
            0 <= k < i ==> (#[trigger] s[k]).layout.tile_pos_in_workspace_view is None,
        i < s.len() ==> s[i].layout.tile_pos_in_workspace_view is Some,
    ensures
        view_left_of(columns(s)) == if i < s.len() {
            Some(
                tiles_of(ws, columns(s))[i].x.spec_minus(
                    view_place(s[i]).0,
                ),
            )
        } else {
            None
        },
    decreases s.len(),
{
    if s.len() > 0 {
        let before = s.drop_last();
        lemma_spans(before);
        lemma_tiled(ws, s);
        lemma_tiled(ws, before);
        lemma_grown(ws, s);
        lemma_view_grown(ws, s);
        if i < s.len() - 1 {
            lemma_view_left(ws, before, i);
        } else {
            lemma_view_left(ws, before, s.len() - 1);
        }
    }
}

/// Floating windows lie over the tiled ones as they do in the view: in whole
/// pixels, a floating window is as far from the first tiled window that knows
/// its place in the view as it is there. Where none does, the view is taken to
/// be where it was before, or at the beginning. It has the size that it reports,
/// and the row knows how far its floating windows reach.
pub proof fn floating_windows_keep_their_distance(
    ws: Workspace,
    tiled: Seq<Window<Px>>,
    floating: Seq<Window<Px>>,
    previous: Option<Px>,
    i: int,
)
    requires
        spans(tiled).0 <= u64::MAX,
        spans(tiled).1 <= u64::MAX,
        forall|j: int|
            0 <= j < floating.len() ==> {
                let p = view_place(#[trigger] floating[j]);
                &&& floating[j].layout.tile_pos_in_workspace_view is Some
                &&& p.0.0 <= u64::MAX / 4 && p.1.0 <= u64::MAX / 4
                &&& floating[j].layout.window_size.0 > 0 && floating[j].layout.window_size.1 > 0
            },
        0 <= i <= tiled.len(),
        forall|k: int|
            0 <= k < i ==> (#[trigger] tiled[k]).layout.tile_pos_in_workspace_view is None,
        i < tiled.len() ==> {
            let x = laid_out(ws, tiled, floating, previous).tiles[i].x;
            &&& tiled[i].layout.tile_pos_in_workspace_view is Some
            &&& view_place(tiled[i]).0.0 <= x.0 <= u64::MAX / 4
        },
        previous matches Some(left) ==> left.0 <= u64::MAX / 4,
    ensures
        ({
            let row = laid_out(ws, tiled, floating, previous);
            let n = tiled.len() as int;
            let overlays = row.tiles.skip(n);
            &&& overlays.len() == floating.len()
            &&& forall|j: int|
                0 <= j < floating.len() ==> {
                    let t = #[trigger] overlays[j];
                    let q = view_place(floating[j]);
                    &&& t.y == q.1
                    &&& t.w.0 == floating[j].layout.window_size.0
                    &&& t.h.0 == floating[j].layout.window_size.1
                    &&& i < n ==> t.x.0 - q.0.0 == row.tiles[i].x.0
                        - view_place(tiled[i]).0.0
                    &&& i == n ==> t.x.0 - q.0.0 == match previous {
                        Some(left) => left.0,
                        None => 0,
                    }
                }
            &&& i < n ==> (row.view_left matches Some(left) && left.0 + view_place(tiled[i]).0.0
                == row.tiles[i].x.0)
            &&& i == n ==> row.view_left is None
            &&& is_extent(overlays, row.float_width.0 as int, row.float_height.0 as int)
        }),
{
    let row = laid_out(ws, tiled, floating, previous);
    let n = tiled.len() as int;
    lemma_tiled(ws, tiled);
    assert(row.tiles.take(n) =~= tiles_of(ws, columns(tiled)));
    lemma_view_left(ws, tiled, i);
    if i < n {
        assert(row.tiles[i] == tiles_of(ws, columns(tiled))[i]);
    }
    let left = match (view_left_of(columns(tiled)), previous) {
        (Some(left), _) => left,
        (None, Some(left)) => left,
        (None, None) => Px(0),
    };
    let overlays = floating.map_values(|w: Window<Px>| overlay_of(ws, w, left));
    assert(row.tiles.skip(n) =~= overlays);
    assert forall|j: int| 0 <= j < overlays.len() implies right_of(#[trigger] overlays[j])
        <= u64::MAX && bottom_of(overlays[j]) <= u64::MAX by {
        assert(overlays[j] == overlay_of(ws, floating[j], left));
    }
    lemma_edges(overlays);
}

proof fn lemma_edges(tiles: Seq<Tile<Px>>)
    requires
        forall|j: int|
            0 <= j < tiles.len() ==> right_of(#[trigger] tiles[j]) <= u64::MAX && bottom_of(
                tiles[j],
            ) <= u64::MAX,
    ensures
        is_extent(tiles, right_edge(tiles).0 as int, bottom_edge(tiles).0 as int),
    decreases tiles.len(),
{
    if tiles.len() > 0 {
        let front = tiles.drop_last();
        let t = tiles.last();
        lemma_edges(front);
        assert(right_of(tiles[tiles.len() - 1]) <= u64::MAX);
        assert(right_edge(tiles) == right_edge(front).spec_greater(t.x.spec_plus(t.w)));
        assert(bottom_edge(tiles) == bottom_edge(front).spec_greater(t.y.spec_plus(t.h)));
        lemma_extent_grows(
            front,
            t,
            right_edge(front).0 as int,
            bottom_edge(front).0 as int,
            right_edge(tiles).0 as int,
            bottom_edge(tiles).0 as int,
        );
        assert(front.push(t) =~= tiles);
    }
}

/// Whether a window lies on a workspace, and may be drawn where only some
/// applications have icons.
pub open spec fn lies_on<S>(
    w: Window<S>,
    id: u64,
    icons: Option<spec_fn(Seq<char>) -> bool>,
) -> bool {
    &&& w.workspace_id matches Some(v) && v == id
    &&& match icons {
        Some(has) => w.app_id matches Some(app) && has(app@),
        None => true,
    }
}

/// A row holds the windows of its workspace and no others, each as often as it
/// is reported: the tiled ones by column and place, then the floating ones that
/// are in view. Windows without a proper place are left out.
pub proof fn rows_hold_the_windows_of_their_workspace<S: Scalar>(
    ws: Workspace,
    windows: Seq<Window<S>>,
    icons: Option<spec_fn(Seq<char>) -> bool>,
    previous: Option<S>,
    w: Window<S>,
)
    ensures
        ({
            let tiled = tiled_windows(ws, windows, icons);
            let floating = floating_windows(ws, windows, icons);
            let count = windows.to_multiset().count(w);
            let here = lies_on(w, ws.id, icons);
            &&& row_of(ws, windows, icons, previous) == laid_out(ws, tiled, floating, previous)
            &&& forall|i: int, j: int|
                0 <= i < j < tiled.len() ==> {
                    let p = (#[trigger] tiled[i]).layout.pos_in_scrolling_layout->0;
                    let q = (#[trigger] tiled[j]).layout.pos_in_scrolling_layout->0;
                    p.0 < q.0 || (p.0 == q.0 && p.1 <= q.1)
                }
            &&& tiled.to_multiset().count(w) == match w.layout.pos_in_scrolling_layout {
                Some((column, place)) => if here && column >= 1 && place >= 1 {
                    count
                } else {
                    0
                },
                None => 0,
            }
            &&& floating.to_multiset().count(w) == match (
                w.layout.pos_in_scrolling_layout,
                w.layout.tile_pos_in_workspace_view,
            ) {
                (None, Some(_)) => if here && w.layout.window_size.0 > 0
                    && w.layout.window_size.1 > 0 {
                    count
                } else {
                    0
                },
                _ => 0,
            }
        }),
{
    let tiled_pred = |w: Window<S>| belongs(ws, w, icons) && is_tiled(w);
    let float_pred = |w: Window<S>| belongs(ws, w, icons) && is_overlay(w);
    let kept = windows.filter(tiled_pred);
    let tiled = tiled_windows(ws, windows, icons);
    crate::order::lemma_filter_items(windows, tiled_pred);
    crate::order::lemma_filter_items(windows, float_pred);
    crate::order::sorting_sorts::<Window<S>, ByPosition>(kept);
    assert forall|i: int| 0 <= i < tiled.len() implies (
    #[trigger] tiled[i]).layout.pos_in_scrolling_layout is Some by {
        broadcast use vstd::seq_lib::group_to_multiset_ensures;

        assert(tiled.to_multiset().contains(tiled[i]));
        assert(kept.contains(tiled[i]));
        let m = choose|m: int| 0 <= m < kept.len() && kept[m] == tiled[i];
        windows.lemma_filter_pred(tiled_pred, m);
    }
    assert forall|i: int, j: int| 0 <= i < j < tiled.len() implies {
        let p = (#[trigger] tiled[i]).layout.pos_in_scrolling_layout->0;
        let q = (#[trigger] tiled[j]).layout.pos_in_scrolling_layout->0;
        p.0 < q.0 || (p.0 == q.0 && p.1 <= q.1)
    } by {
        assert(<ByPosition as crate::order::Order<Window<S>>>::le(tiled[i], tiled[j]));
    }
}

/// Each tile of a row is that of one window, the tiled ones first: it tells its
/// application, whether it has the focus, and whether it is the one that had the
/// focus last, which is the active window of the workspace, or, where none is
/// known, one that has the focus.
pub proof fn tiles_tell_their_windows<S: Scalar>(
    ws: Workspace,
    tiled: Seq<Window<S>>,
    floating: Seq<Window<S>>,
    previous: Option<S>,
    i: int,
)
    requires
        0 <= i < tiled.len() + floating.len(),
    ensures
        ({
            let tiles = laid_out(ws, tiled, floating, previous).tiles;
            let w = if i < tiled.len() {
                tiled[i]
            } else {
                floating[i - tiled.len()]
            };
            &&& tiles.len() == tiled.len() + floating.len()
            &&& tiles[i].app_id == w.app_id
            &&& tiles[i].focused == w.is_focused
            &&& tiles[i].is_last_focused == match ws.active_window_id {
                Some(id) => w.id == id,
                None => w.is_focused,
            }
        }),
{
    crate::layout::every_window_has_one_tile(ws, tiled, floating, previous);
    let tiles = laid_out(ws, tiled, floating, previous).tiles;
    assert(crate::layout::shows(ws, tiles[i], (tiled + floating)[i]));
}

/// A row is scaled by its tiled windows, where it has any with a size, and by its
/// floating ones where not.
pub proof fn tiled_windows_set_the_scale(row: RowModel<Px>)
    ensures
        if row.total_width.0 > 0 && row.max_height.0 > 0 {
            row.scale_w() == row.total_width && row.scale_h() == row.max_height
        } else {
            row.scale_w() == row.float_width && row.scale_h() == row.float_height
        },
{
}

} // verus!
