//! The rows that are shown, and the size that the widget takes for them.

use vstd::prelude::*;
use crate::config::Config;
use crate::icons::IconCache;
use crate::layout::{icon_filter, lay_out, row_of, Row, RowModel};
use crate::render::{lines, paddings, row_models, row_scale, shared_scale, tallest_of, Line, RowView,
    PADDING};
use crate::scalar::{clamp, clamped, Px, Scalar, Wide};
use crate::state::{Window, Workspace};
use std::collections::HashMap;

verus! {

/// The rows of some workspaces, with what is known of their views after that.
pub open spec fn lines_with<S: Wide>(
    list: Seq<Workspace>,
    windows: Seq<Window<S>>,
    icons: Option<spec_fn(Seq<char>) -> bool>,
    view_left: Map<u64, S>,
) -> (Seq<Line<S>>, Map<u64, S>)
    decreases list.len(),
{
    if list.len() == 0 {
        (Seq::empty(), view_left)
    } else {
        let (rows, known) = lines_with(list.drop_last(), windows, icons, view_left);
        let (row, after) = row_with(list.last(), windows, icons, known);
        (rows.push(Line { is_active: list.last().is_active, row }), after)
    }
}

/// The row of a workspace, with what is known of the views after that: the left
/// edge of a view stays known until some window tells another.
pub open spec fn row_with<S: Wide>(
    ws: Workspace,
    windows: Seq<Window<S>>,
    icons: Option<spec_fn(Seq<char>) -> bool>,
    view_left: Map<u64, S>,
) -> (RowModel<S>, Map<u64, S>) {
    let previous = if view_left.contains_key(ws.id) {
        Some(view_left[ws.id])
    } else {
        None
    };
    let row = row_of(ws, windows, icons, previous);
    (
        row,
        match row.view_left {
            Some(left) => view_left.insert(ws.id, left),
            None => view_left,
        },
    )
}

/// Builds the row of one workspace, and keeps what it tells of its view.
pub(crate) fn row_for_workspace<S: Wide>(
    view_left: &mut HashMap<u64, S>,
    windows: &[Window<S>],
    ws: &Workspace,
    icons: Option<&IconCache>,
) -> (row: Row<S>)
    ensures
        (row@, final(view_left)@) == row_with(*ws, windows@, icon_filter(icons), old(view_left)@),
{
    broadcast use vstd::std_specs::hash::group_hash_axioms;

    let previous: Option<S> = match view_left.get(&ws.id) {
        Some(left) => Some(*left),
        None => None,
    };
    let row = lay_out(ws, windows, previous, icons);
    if let Some(left) = row.view_left {
        view_left.insert(ws.id, left);
    }
    row
}

/// A row that may be missing, as a value.
pub open spec fn viewed<S>(row: Option<Row<S>>) -> Option<RowModel<S>> {
    match row {
        Some(row) => Some(row@),
        None => None,
    }
}

/// Builds the rows of some workspaces.
pub(crate) fn rows_for<S: Wide>(
    view_left: &mut HashMap<u64, S>,
    windows: &[Window<S>],
    list: &[&Workspace],
    icons: Option<&IconCache>,
) -> (rows: Vec<RowView<S>>)
    ensures
        (lines(rows@), final(view_left)@) == lines_with(
            list@.unref(),
            windows@,
            icon_filter(icons),
            old(view_left)@,
        ),
{
    let ghost all = list@.unref();
    let mut rows: Vec<RowView<S>> = Vec::new();
    let mut i: usize = 0;
    assert(all.take(0) =~= Seq::empty());
    assert(lines(rows@) =~= Seq::empty());
    while i < list.len()
        invariant
            i <= list@.len(),
            all == list@.unref(),
            (lines(rows@), view_left@) == lines_with(
                all.take(i as int),
                windows@,
                icon_filter(icons),
                old(view_left)@,
            ),
        decreases list@.len() - i,
    {
        let ghost before = rows@;
        let row = row_for_workspace(view_left, windows, list[i], icons);
        let ghost line = Line { is_active: list@[i as int].is_active, row: row@ };
        rows.push(RowView { is_active: list[i].is_active, row });
        assert(lines(rows@) =~= lines(before).push(line));
        assert(all.take(i + 1).drop_last() =~= all.take(i as int));
        i = i + 1;
    }
    assert(all.take(i as int) =~= all);
    rows
}

/// The height of one row, within sensible bounds.
pub open spec fn row_height<S>(cfg: Config<S>) -> u32 {
    if cfg.display.height < 8 {
        8
    } else if cfg.display.height > 2048 {
        2048
    } else {
        cfg.display.height
    }
}

/// A fraction of a side of the output, as the greatest size of the widget: at
/// least 8, and at most all of it.
pub open spec fn limit<S: Wide>(side: S::Narrow, fraction: S) -> S::Narrow {
    let eight = <S::Narrow as Scalar>::spec_from_u64(8);
    clamped(side.spec_times(fraction.spec_narrow()), eight, side).spec_greater(eight)
}

fn limit_of<S: Wide>(side: S::Narrow, fraction: S) -> (r: S::Narrow)
    ensures
        r == limit(side, fraction),
{
    let eight = <S::Narrow as Scalar>::from_u64(8);
    clamp(side.times(fraction.narrow()), eight, side).greater(eight)
}

/// The size for one workspace: as high as a row, and as wide as its windows in
/// that height, at least square.
pub open spec fn current_size<S: Wide>(
    cfg: Config<S>,
    row: Option<RowModel<S>>,
    viewport_width: S::Narrow,
) -> (u32, u32) {
    let height = <S::Narrow as Scalar>::spec_from_u64(row_height(cfg) as u64);
    let max_w = limit(viewport_width, cfg.display.max_width_percent);
    let w = match row {
        Some(row) => if S::spec_from_u64(0).spec_below(row.scale_h()) {
            let k = height.spec_minus(paddings()).spec_over(row.scale_h().spec_narrow());
            row.scale_w().spec_narrow().spec_times(k).spec_plus(paddings()).spec_greater(height)
        } else {
            height
        },
        None => height,
    };
    (w.spec_lesser(max_w).spec_to_u32(), row_height(cfg))
}

/// The width of the widest row of the stacked view.
pub open spec fn widest<S: Wide>(rows: Seq<RowModel<S>>, k: S::Narrow, row_h: S::Narrow) -> S::Narrow
    decreases rows.len(),
{
    if rows.len() == 0 {
        <S::Narrow as Scalar>::spec_from_u64(0)
    } else {
        let front = widest(rows.drop_last(), k, row_h);
        let row = rows.last();
        if row.tiles.len() > 0 && (row.has_tiled() || S::spec_from_u64(0).spec_below(
            row.float_height,
        )) {
            front.spec_greater(row_scale(row, k, row_h).1)
        } else {
            front
        }
    }
}

/// The size of the stacked view: as high as its rows ask for, but at least one
/// row, and as wide as the widest of them; and never larger than the limits of
/// the output allow. Where the output is not high enough, the rows share what
/// there is.
pub open spec fn stacked_size<S: Wide>(
    cfg: Config<S>,
    rows: Seq<RowModel<S>>,
    viewport_width: S::Narrow,
    output_height: S::Narrow,
) -> (u32, u32) {
    let one = <S::Narrow as Scalar>::spec_from_u64(1);
    let eight = <S::Narrow as Scalar>::spec_from_u64(8);
    let height = <S::Narrow as Scalar>::spec_from_u64(row_height(cfg) as u64);
    let max_w = limit(viewport_width, cfg.display.max_width_percent);
    let max_h = limit(output_height, cfg.display.max_height_percent);
    let n = <S::Narrow as Scalar>::spec_from_u64(
        if rows.len() == 0 {
            1
        } else {
            rows.len() as u64
        },
    );
    let gaps = n.spec_minus(one).spec_times(cfg.appearance.workspace_gap.spec_narrow());
    let ideal_h = n.spec_times(height).spec_plus(gaps).spec_plus(paddings());
    let h = ideal_h.spec_greater(height.spec_plus(paddings())).spec_lesser(max_h).spec_greater(
        eight,
    );
    let row_h = h.spec_minus(paddings()).spec_minus(gaps).spec_over(n);
    let content_w = widest(rows, shared_scale(rows, row_h), row_h);
    let w = content_w.spec_plus(paddings()).spec_greater(height).spec_lesser(max_w);
    (w.spec_to_u32(), h.spec_to_u32())
}

fn height_of<S: Scalar>(cfg: &Config<S>) -> (r: u32)
    ensures
        r == row_height(*cfg),
{
    if cfg.display.height < 8 {
        8
    } else if cfg.display.height > 2048 {
        2048
    } else {
        cfg.display.height
    }
}

pub(crate) fn size_for_current<S: Wide>(
    cfg: &Config<S>,
    row: &Option<Row<S>>,
    viewport_width: S::Narrow,
) -> (r: (u32, u32))
    ensures
        r == current_size(*cfg, viewed(*row), viewport_width),
{
    let height = <S::Narrow as Scalar>::from_u64(height_of(cfg) as u64);
    let paddings = <S::Narrow as Scalar>::from_u64(2).times(
        <S::Narrow as Scalar>::from_u64(PADDING),
    );
    let max_w = limit_of(viewport_width, cfg.display.max_width_percent);
    let w = match row {
        Some(row) => if S::from_u64(0).below(row.scale_h()) {
            let k = height.minus(paddings).over(row.scale_h().narrow());
            row.scale_w().narrow().times(k).plus(paddings).greater(height)
        } else {
            height
        },
        None => height,
    };
    (w.lesser(max_w).to_u32(), height_of(cfg))
}

pub(crate) fn size_for_stack<S: Wide>(
    cfg: &Config<S>,
    rows: &[RowView<S>],
    viewport_width: S::Narrow,
    output_height: S::Narrow,
) -> (r: (u32, u32))
    ensures
        r == stacked_size(*cfg, row_models(lines(rows@)), viewport_width, output_height),
{
    let ghost models = row_models(lines(rows@));
    let zero = <S::Narrow as Scalar>::from_u64(0);
    let one = <S::Narrow as Scalar>::from_u64(1);
    let eight = <S::Narrow as Scalar>::from_u64(8);
    let paddings = <S::Narrow as Scalar>::from_u64(2).times(
        <S::Narrow as Scalar>::from_u64(PADDING),
    );
    let height = <S::Narrow as Scalar>::from_u64(height_of(cfg) as u64);
    let max_w = limit_of(viewport_width, cfg.display.max_width_percent);
    let max_h = limit_of(output_height, cfg.display.max_height_percent);
    let n = <S::Narrow as Scalar>::from_u64(
        if rows.len() == 0 {
            1
        } else {
            rows.len() as u64
        },
    );
    let gaps = n.minus(one).times(cfg.appearance.workspace_gap.narrow());
    let ideal_h = n.times(height).plus(gaps).plus(paddings);
    let h = ideal_h.greater(height.plus(paddings)).lesser(max_h).greater(eight);
    let row_h = h.minus(paddings).minus(gaps).over(n);
    let tallest = tallest_of(rows);
    let k = if zero.below(tallest) {
        row_h.over(tallest)
    } else {
        zero
    };
    let mut content_w = zero;
    assert(models.take(0) =~= Seq::empty());
    let mut j: usize = 0;
    while j < rows.len()
        invariant
            j <= rows@.len(),
            models == row_models(lines(rows@)),
            content_w == widest(models.take(j as int), k, row_h),
        decreases rows@.len() - j,
    {
        assert(models.take(j + 1).drop_last() =~= models.take(j as int));
        let row: &Row<S> = &rows[j].row;
        assert(models.take(j + 1).last() == row@);
        if row.has_content() {
            if row.has_tiled() {
                content_w = content_w.greater(row.total_width.narrow().times(k));
            } else if S::from_u64(0).below(row.float_height) {
                let rk = row_h.over(row.float_height.narrow());
                content_w = content_w.greater(row.float_width.narrow().times(rk));
            }
        }
        j = j + 1;
    }
    assert(models.take(j as int) =~= models);
    let w = content_w.plus(paddings).greater(height).lesser(max_w);
    (w.to_u32(), h.to_u32())
}

/// `w` or `h` of a surface, within what compositors take.
pub open spec fn surface_side(v: u32) -> u32 {
    if v < 8 {
        8
    } else if v > 4096 {
        4096
    } else {
        v
    }
}

/// A side of the surface in pixels of the buffer.
pub open spec fn physical<N: Scalar>(side: u32, scale: i32) -> u32 {
    let px = N::spec_from_u64(side as u64).spec_times(
        N::spec_from_i64(scale as i64),
    ).spec_round().spec_to_u32();
    if px < 1 {
        1
    } else {
        px
    }
}

pub(crate) fn physical_side<N: Scalar>(side: u32, scale: i32) -> (r: u32)
    ensures
        r == physical::<N>(side, scale),
{
    let px: u32 = N::from_u64(side as u64).times(N::from_i64(scale as i64)).round().to_u32();
    if px < 1 {
        1
    } else {
        px
    }
}

pub(crate) fn clamp_side(v: u32) -> (r: u32)
    ensures
        r == surface_side(v),
{
    if v < 8 {
        8
    } else if v > 4096 {
        4096
    } else {
        v
    }
}

/// Whether numbers are kept up to `max`, and no lower than 8, by taking the
/// lesser and then the greater.
pub open spec fn keeps_within<N: Scalar>(max: N) -> bool {
    let eight = N::spec_from_u64(8);
    forall|x: N|
        (#[trigger] x.spec_lesser(max)).spec_greater(eight).spec_to_u32()
            <= max.spec_greater(eight).spec_to_u32()
}

/// The stacked view is never higher than the greatest height, or 8 where that is
/// less, whatever the settings and the rows.
pub proof fn the_stack_keeps_its_height<S: Wide>(
    cfg: Config<S>,
    rows: Seq<RowModel<S>>,
    viewport_width: S::Narrow,
    output_height: S::Narrow,
)
    requires
        keeps_within(limit(output_height, cfg.display.max_height_percent)),
    ensures
        stacked_size(cfg, rows, viewport_width, output_height).1 <= limit(
            output_height,
            cfg.display.max_height_percent,
        ).spec_greater(<S::Narrow as Scalar>::spec_from_u64(8)).spec_to_u32(),
{
}

/// In whole pixels, the stacked view is never higher than the fraction of the
/// output that is set, or 8.
pub proof fn the_stack_keeps_its_height_in_pixels(
    cfg: Config<Px>,
    rows: Seq<RowModel<Px>>,
    viewport_width: Px,
    output_height: Px,
)
    ensures
        keeps_within(limit(output_height, cfg.display.max_height_percent)),
        stacked_size(cfg, rows, viewport_width, output_height).1 <= if output_height.0
            * cfg.display.max_height_percent.0 < 8 {
            8
        } else {
            output_height.0 * cfg.display.max_height_percent.0
        },
{
    let x = output_height.0 * cfg.display.max_height_percent.0;
    assert(x >= 0) by (nonlinear_arith)
        requires
            x == output_height.0 * cfg.display.max_height_percent.0,
    ;
    the_stack_keeps_its_height(cfg, rows, viewport_width, output_height);
}

/// The left edge of a view stays known: floating windows stay in place while no
/// tiled window tells it.
pub proof fn views_are_remembered<S: Wide>(
    ws: Workspace,
    before: Seq<Window<S>>,
    windows: Seq<Window<S>>,
    icons: Option<spec_fn(Seq<char>) -> bool>,
    view_left: Map<u64, S>,
)
    ensures
        ({
            let (row, known) = row_with(ws, before, icons, view_left);
            row.view_left matches Some(left) ==> row_with(ws, windows, icons, known).0 == row_of(
                ws,
                windows,
                icons,
                Some(left),
            )
        }),
{
}

} // verus!
