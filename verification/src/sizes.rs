//! The size of the widget in numbers, counted in millionths of a pixel.

use vstd::prelude::*;
use crate::config::{named_color, Config};
use crate::drawn::{least, lemma_fits, lemma_proportion, lemma_scaled, most};
use crate::icons::IconCache;
use crate::ipc::Snapshot;
use crate::layout::{first_focused, icon_filter, listed, row_of, RowModel};
use crate::model::{has_handle, is_named, Effect, Model, OutputInfo};
use crate::render::{paddings, picture, row_models, row_scale, shared_scale, tallest_tiled, Style};
use crate::scalar::{Fixed, Px, Scalar, Wide, PARTS};
use crate::seqs::{lemma_first_index, text_of_option};
use crate::sizing::{current_size, limit, lines_with, physical, row_with, stacked_size, widest};
use crate::state::{Window, Workspace};

verus! {

/// The most that the widget may take of a side of the output: the fraction that
/// is set, but never more than all of it, nor less than 8 pixels.
pub open spec fn allowance(side: Fixed, fraction: Fixed) -> int {
    most(8 * PARTS, least(side.0 * fraction.0 / PARTS as int, side.0 as int))
}

/// The height of one row: as it is set, from 8 to 2048 pixels.
pub open spec fn set_height(cfg: Config<Fixed>) -> int {
    most(8, least(cfg.display.height as int, 2048))
}

proof fn lemma_limit(side: Fixed, fraction: Fixed)
    ensures
        limit(side, fraction).0 == allowance(side, fraction),
{
    assert(Fixed::spec_from_u64(8) == Fixed(8_000_000));
    assert(side.0 * fraction.0 >= 0) by (nonlinear_arith)
        requires
            0 <= side.0,
            0 <= fraction.0,
    ;
}

proof fn lemma_paddings()
    ensures
        paddings::<Fixed>() == Fixed(8_000_000),
{
    assert(Fixed::spec_from_u64(2) == Fixed(2_000_000));
    assert(Fixed::spec_from_u64(4) == Fixed(4_000_000));
    assert(2_000_000int * 4_000_000 / 1_000_000 == 8_000_000);
}

/// The widget for one workspace is as high as it is set, and never wider than the
/// fraction of the output that is set. Where that leaves room, it is as wide as
/// the windows at that height, with its padding, and at least square; and no
/// wider than that.
pub proof fn one_workspace_takes_what_it_needs(
    cfg: Config<Fixed>,
    row: Option<RowModel<Fixed>>,
    viewport_width: Fixed,
)
    ensures
        ({
            let (w, h) = current_size(cfg, row, viewport_width);
            let most_w = allowance(viewport_width, cfg.display.max_width_percent);
            let least_w = least(h as int, most_w / PARTS as int);
            &&& h == set_height(cfg)
            &&& w * PARTS <= most_w
            &&& most_w <= u32::MAX * PARTS ==> w >= least_w
            &&& match row {
                Some(row) => {
                    &&& row.scale_h().0 > 0 && w > h ==> (w - 8) * row.scale_h().0
                        <= row.scale_w().0 * (h - 8)
                    // Rows of a million pixels and more may lose some to rounding.
                    &&& row.scale_h().0 > 0 && w < u32::MAX && (w + 1) * PARTS <= most_w
                        && row.scale_w().0 < PARTS * (PARTS - 1) ==> row.scale_w().0 * (h - 8) < (w
                        - 6) * row.scale_h().0
                    &&& row.scale_h().0 == 0 ==> w <= h
                },
                None => w <= h,
            }
        }),
{
    let parts = PARTS as int;
    let (w, h) = current_size(cfg, row, viewport_width);
    let most_w = allowance(viewport_width, cfg.display.max_width_percent);
    lemma_limit(viewport_width, cfg.display.max_width_percent);
    lemma_paddings();
    let height = Fixed::spec_from_u64(h as u64);
    assert(height.0 == h * parts);
    if let Some(row) = row {
        if row.scale_h().0 > 0 {
            let room = (h - 8) * parts;
            let width = row.scale_w().0 as int;
            let tall = row.scale_h().0 as int;
            let k = room * parts / tall;
            lemma_fits(tall, room, k);
            assert(k <= room * parts) by (nonlinear_arith)
                requires
                    k == (room * parts) / tall,
                    0 <= room * parts,
                    0 < tall,
            ;
            let content = width * k / parts;
            lemma_scaled(width, 0, k);
            assert(height.spec_minus(paddings()).spec_over(row.scale_h()).0 == k);
            if w > h {
                if (w - 8) * tall > width * (h - 8) {
                    lemma_proportion(width, tall, w - 8, h - 8, k);
                    assert(false);
                }
            }
            if w < u32::MAX && (w + 1) * parts <= most_w && width < parts * (parts - 1) {
                if width * (h - 8) >= (w - 6) * tall {
                    lemma_proportion(width, tall, w - 6, h - 8, k);
                    assert(false);
                }
            }
        }
    }
}

/// The rows that are scaled together are scaled by the tallest of them.
pub proof fn the_tallest_row_sets_the_scale(rows: Seq<RowModel<Fixed>>)
    ensures
        forall|i: int|
            0 <= i < rows.len() && (#[trigger] rows[i]).has_tiled() ==> 0 < rows[i].max_height.0
                <= tallest_tiled(rows).0,
        tallest_tiled(rows).0 > 0 ==> exists|i: int|
            0 <= i < rows.len() && (#[trigger] rows[i]).has_tiled() && rows[i].max_height
                == tallest_tiled(rows),
    decreases rows.len(),
{
    if rows.len() > 0 {
        let front = rows.drop_last();
        the_tallest_row_sets_the_scale(front);
        assert(rows[rows.len() - 1] == rows.last());
        assert(forall|i: int| 0 <= i < front.len() ==> #[trigger] rows[i] == front[i]);
        if tallest_tiled(rows).0 > 0 && !(rows.last().has_tiled() && rows.last().max_height
            == tallest_tiled(rows)) {
            let i = choose|i: int|
                0 <= i < front.len() && (#[trigger] front[i]).has_tiled() && front[i].max_height
                    == tallest_tiled(front);
            assert(rows[i].has_tiled());
        }
    }
}

/// Whether there is anything of a row to be seen.
pub open spec fn is_seen(row: RowModel<Fixed>) -> bool {
    row.tiles.len() > 0 && (row.has_tiled() || row.float_height.0 > 0)
}

proof fn lemma_widest(rows: Seq<RowModel<Fixed>>, k: Fixed, row_h: Fixed)
    ensures
        forall|i: int|
            0 <= i < rows.len() && is_seen(#[trigger] rows[i]) ==> row_scale(
                rows[i],
                k,
                row_h,
            ).1.0 <= widest(rows, k, row_h).0,
        widest(rows, k, row_h).0 > 0 ==> exists|i: int|
            0 <= i < rows.len() && is_seen(#[trigger] rows[i]) && row_scale(rows[i], k, row_h).1
                == widest(rows, k, row_h),
    decreases rows.len(),
{
    if rows.len() > 0 {
        let front = rows.drop_last();
        lemma_widest(front, k, row_h);
        assert(rows[rows.len() - 1] == rows.last());
        assert(forall|i: int| 0 <= i < front.len() ==> #[trigger] rows[i] == front[i]);
        if widest(rows, k, row_h).0 > 0 && !(is_seen(rows.last()) && row_scale(
            rows.last(),
            k,
            row_h,
        ).1 == widest(rows, k, row_h)) {
            let i = choose|i: int|
                0 <= i < front.len() && is_seen(#[trigger] front[i]) && row_scale(
                    front[i],
                    k,
                    row_h,
                ).1 == widest(front, k, row_h);
            assert(is_seen(rows[i]));
        }
    }
}

/// The height that the rows of the stacked view ask for: the set height for each,
/// the gaps between them, and the padding.
pub open spec fn asked_height(cfg: Config<Fixed>, n: int) -> int {
    n * set_height(cfg) * PARTS + (n - 1) * cfg.appearance.workspace_gap.0 + 8 * PARTS
}

/// What is left for the rows of the stacked view of a widget of this height.
pub open spec fn height_left(cfg: Config<Fixed>, n: int, height: int) -> int {
    most(0, height - 8 * PARTS - (n - 1) * cfg.appearance.workspace_gap.0) / n
}

/// How wide a row is for its height: a row with tiled windows by the height of
/// the tallest such row, and one without by that of its floating windows.
pub open spec fn shape_of_row(row: RowModel<Fixed>, tallest: Fixed) -> (int, int) {
    if row.has_tiled() {
        (row.total_width.0 as int, tallest.0 as int)
    } else {
        (row.float_width.0 as int, row.float_height.0 as int)
    }
}

/// The stacked view is as high as its rows ask for, and never higher than the
/// fraction of the output that is set; nor wider than that of its width. Where
/// that leaves room, it is wide enough for each row, and at least as wide as one
/// is high; and no wider than the widest needs.
pub proof fn the_stack_takes_what_it_needs(
    cfg: Config<Fixed>,
    rows: Seq<RowModel<Fixed>>,
    viewport_width: Fixed,
    output_height: Fixed,
)
    requires
        rows.len() <= 1_000_000,
        cfg.appearance.workspace_gap.0 <= 1_000_000 * PARTS,
        allowance(viewport_width, cfg.display.max_width_percent) < u32::MAX * PARTS,
        allowance(output_height, cfg.display.max_height_percent) < u32::MAX * PARTS,
    ensures
        ({
            let (w, h) = stacked_size(cfg, rows, viewport_width, output_height);
            let n = most(rows.len() as int, 1);
            let most_w = allowance(viewport_width, cfg.display.max_width_percent);
            let most_h = allowance(output_height, cfg.display.max_height_percent);
            let height = least(asked_height(cfg, n), most_h);
            let row_h = height_left(cfg, n, height);
            let one = set_height(cfg);
            &&& h * PARTS <= height < (h + 1) * PARTS
            &&& w * PARTS <= most_w
            &&& w >= least(one, most_w / PARTS as int)
            &&& (w + 1) * PARTS <= most_w ==> forall|i: int|
                0 <= i < rows.len() && is_seen(#[trigger] rows[i]) ==> {
                    let (wide, tall) = shape_of_row(rows[i], tallest_tiled(rows));
                    wide * row_h <= ((w - 7) * PARTS + wide / PARTS as int + 2) * tall
                }
            &&& w > one && w > 8 ==> exists|i: int|
                0 <= i < rows.len() && is_seen(#[trigger] rows[i]) && {
                    let (wide, tall) = shape_of_row(rows[i], tallest_tiled(rows));
                    wide * row_h >= (w - 8) * PARTS * tall
                }
        }),
{
    let parts = PARTS as int;
    let (w, h) = stacked_size(cfg, rows, viewport_width, output_height);
    let n = most(rows.len() as int, 1);
    let most_w = allowance(viewport_width, cfg.display.max_width_percent);
    let most_h = allowance(output_height, cfg.display.max_height_percent);
    lemma_limit(viewport_width, cfg.display.max_width_percent);
    lemma_limit(output_height, cfg.display.max_height_percent);
    lemma_paddings();
    let one = set_height(cfg);
    let gap = cfg.appearance.workspace_gap;
    let count = Fixed::spec_from_u64(n as u64);
    let high = Fixed::spec_from_u64(one as u64);
    assert(count.0 == n * parts);
    assert(high.0 == one * parts);
    assert(Fixed::spec_from_u64(1) == Fixed(1_000_000));
    assert(Fixed::spec_from_u64(8) == Fixed(8_000_000));
    // The gaps and the rows together.
    let gaps = count.spec_minus(Fixed::spec_from_u64(1)).spec_times(gap);
    assert(((n - 1) * parts) * gap.0 / parts == (n - 1) * gap.0) by {
        assert(((n - 1) * parts) * gap.0 == parts * ((n - 1) * gap.0)) by (nonlinear_arith);
        vstd::arithmetic::div_mod::lemma_div_multiples_vanish((n - 1) * gap.0, parts);
    }
    assert(0 <= (n - 1) * gap.0 <= 1_000_000 * (1_000_000 * parts)) by (nonlinear_arith)
        requires
            1 <= n <= 1_000_000,
            0 <= gap.0 <= 1_000_000 * parts,
            parts == 1_000_000,
    ;
    assert(gaps.0 == (n - 1) * gap.0);
    assert((n * parts) * (one * parts) / parts == n * one * parts) by {
        assert((n * parts) * (one * parts) == parts * (n * one * parts)) by (nonlinear_arith);
        vstd::arithmetic::div_mod::lemma_div_multiples_vanish(n * one * parts, parts);
    }
    assert(one * parts <= n * one * parts <= 1_000_000 * 2048 * parts) by (nonlinear_arith)
        requires
            1 <= n <= 1_000_000,
            8 <= one <= 2048,
            parts == 1_000_000,
    ;
    let asked = asked_height(cfg, n);
    let height = least(asked, most_h);
    let tall = count.spec_times(high).spec_plus(gaps).spec_plus(paddings()).spec_greater(
        high.spec_plus(paddings()),
    ).spec_lesser(limit(output_height, cfg.display.max_height_percent)).spec_greater(
        Fixed::spec_from_u64(8),
    );
    assert(tall.0 == height);
    // One row.
    let left = most(0, height - 8 * parts - (n - 1) * gap.0);
    let row_h = tall.spec_minus(paddings()).spec_minus(gaps).spec_over(count);
    assert(tall.spec_minus(paddings()).spec_minus(gaps).0 == left);
    crate::drawn::lemma_over(left, n);
    assert(0 <= left / n <= one * parts) by (nonlinear_arith)
        requires
            0 <= left <= n * one * parts,
            1 <= n,
    ;
    assert(row_h.0 == left / n);
    let k = shared_scale(rows, row_h);
    the_tallest_row_sets_the_scale(rows);
    lemma_widest(rows, k, row_h);
    let content = widest(rows, k, row_h);
    if (w + 1) * parts <= most_w {
        assert forall|i: int| 0 <= i < rows.len() && is_seen(#[trigger] rows[i]) implies {
            let (wide, tall) = shape_of_row(rows[i], tallest_tiled(rows));
            wide * row_h.0 <= ((w - 7) * PARTS + wide / PARTS as int + 2) * tall
        } by {
            let (wide, tall) = shape_of_row(rows[i], tallest_tiled(rows));
            lemma_row_width(wide, tall, row_h.0 as int);
            let drawn = wide * (row_h.0 * parts / tall) / parts;
            assert(row_scale(rows[i], k, row_h).1.0 == least(drawn, u64::MAX as int));
            assert(drawn < (w - 7) * parts);
            assert(wide * row_h.0 <= ((w - 7) * parts + wide / parts + 2) * tall)
                by (nonlinear_arith)
                requires
                    wide * row_h.0 <= (drawn + wide / parts + 2) * tall,
                    drawn < (w - 7) * parts,
                    0 < tall,
            ;
        }
    }
    if w > one && w > 8 {
        assert(content.0 > 0);
        let i = choose|i: int|
            0 <= i < rows.len() && is_seen(#[trigger] rows[i]) && row_scale(rows[i], k, row_h).1
                == content;
        let (wide, tall) = shape_of_row(rows[i], tallest_tiled(rows));
        lemma_row_width(wide, tall, row_h.0 as int);
        let drawn = wide * (row_h.0 * parts / tall) / parts;
        assert(content.0 == least(drawn, u64::MAX as int));
        assert(drawn >= (w - 8) * parts);
        assert(wide * row_h.0 >= (w - 8) * parts * tall) by (nonlinear_arith)
            requires
                drawn * tall <= wide * row_h.0,
                drawn >= (w - 8) * parts,
                0 < tall,
        ;
        assert(is_seen(rows[i]));
    }
}

/// How wide a row is drawn.
proof fn lemma_row_width(wide: int, tall: int, row_h: int)
    requires
        0 <= wide,
        0 < tall,
        0 <= row_h,
    ensures
        ({
            let drawn = wide * (row_h * PARTS / tall) / PARTS as int;
            &&& 0 <= drawn
            &&& drawn * tall <= wide * row_h
            &&& wide * row_h <= (drawn + wide / PARTS as int + 2) * tall
        }),
{
    let parts = PARTS as int;
    let k = row_h * parts / tall;
    lemma_fits(tall, row_h, k);
    vstd::arithmetic::div_mod::lemma_fundamental_div_mod(row_h * parts, tall);
    vstd::arithmetic::div_mod::lemma_mod_bound(row_h * parts, tall);
    lemma_scaled(wide, 0, k);
    let drawn = wide * k / parts;
    let rest = row_h * parts % tall;
    assert(tall * k == row_h * parts - rest);
    assert(drawn * parts <= wide * k < drawn * parts + parts);
    assert(drawn * tall * parts <= wide * row_h * parts) by (nonlinear_arith)
        requires
            drawn * parts <= wide * k,
            tall * k <= row_h * parts,
            0 <= wide,
            0 < tall,
    {
        assert(tall * (drawn * parts) <= tall * (wide * k));
        assert(tall * (wide * k) == wide * (tall * k));
        assert(wide * (tall * k) <= wide * (row_h * parts));
        assert(tall * (drawn * parts) == drawn * tall * parts);
        assert(wide * (row_h * parts) == wide * row_h * parts);
    }
    assert(wide * row_h * parts <= (wide * k + wide) * tall) by (nonlinear_arith)
        requires
            tall * k == row_h * parts - rest,
            rest < tall,
            0 <= wide,
    {
        assert(wide * (row_h * parts) == wide * (tall * k) + wide * rest);
        assert(wide * rest <= wide * tall);
        assert((wide * k + wide) * tall == wide * (tall * k) + wide * tall);
        assert(wide * row_h * parts == wide * (row_h * parts));
    }
    assert(wide * k + wide <= (drawn + wide / parts + 2) * parts);
    assert(wide * row_h * parts <= (drawn + wide / parts + 2) * tall * parts) by (nonlinear_arith)
        requires
            wide * row_h * parts <= (wide * k + wide) * tall,
            wide * k + wide <= (drawn + wide / parts + 2) * parts,
            0 < tall,
    ;
}

/// The widget never asks for more than the fractions of the output that are set,
/// whatever it shows, and always for a size that a surface can have.
pub proof fn widgets_keep_their_limits<B>(
    m: Model<Fixed, B>,
    snap: Snapshot<Fixed>,
    icons: IconCache,
)
    ensures
        ({
            let (w, h) = m.wanted_size(snap, icons);
            let display = m.config.display;
            let (focused, lines, known) = m.content(snap, icons);
            let asked = if m.config.spec_is_stacked() {
                stacked_size(
                    m.config,
                    row_models(lines),
                    m.viewport_width,
                    m.output_height,
                )
            } else {
                current_size(m.config, focused, m.viewport_width)
            };
            &&& 8 <= w <= 4096 && 8 <= h <= 4096
            &&& w == most(8, least(asked.0 as int, 4096))
            &&& h == most(8, least(asked.1 as int, 4096))
            &&& w * PARTS <= allowance(m.viewport_width, display.max_width_percent)
            &&& if m.config.spec_is_stacked() {
                h * PARTS <= allowance(m.output_height, display.max_height_percent)
            } else {
                h == set_height(m.config)
            }
        }),
{
    lemma_limit(m.viewport_width, m.config.display.max_width_percent);
    lemma_limit(m.output_height, m.config.display.max_height_percent);
    assert(Fixed::spec_from_u64(8) == Fixed(8_000_000));
}

/// A frame has as many pixels for one of the surface as the scale says, in both
/// directions, and the picture in it is drawn for the size of the surface: what
/// is behind it covers all of that, and no more.
pub proof fn frames_have_the_scale_of_the_surface<B>(
    m: Model<Fixed, B>,
    snap: Snapshot<Fixed>,
    icons: IconCache,
    w: u32,
    h: u32,
)
    requires
        m.configured == Some((w, h)),
        0 < w && 0 < h,
        w * most(m.surface_scale as int, 1) <= u32::MAX,
        h * most(m.surface_scale as int, 1) <= u32::MAX,
    ensures
        ({
            let scale = most(m.surface_scale as int, 1);
            let shown = m.drawing(snap, icons);
            let cfg = m.config.appearance;
            let backed = cfg.background_opacity.0 > 0 && named_color::<Fixed>(
                cfg.background@,
            ) is Some;
            &&& m.frame_size() == ((w * scale) as u32, (h * scale) as u32)
            &&& shown == picture(
                (Style { cfg: &m.config.appearance, icons: &icons, show_icons: cfg.show_icons }),
                (w * scale) as u32,
                (h * scale) as u32,
                Fixed((scale * PARTS) as u64),
                m.config.display.mode@,
                m.content(snap, icons).0,
                m.content(snap, icons).1,
            )
            &&& backed ==> {
                &&& shown.len() > 0
                &&& shown[0].x.0 == 0 && shown[0].y.0 == 0
                &&& shown[0].w.0 == w * PARTS && shown[0].h.0 == h * PARTS
            }
        }),
{
    let scale = most(m.surface_scale as int, 1);
    lemma_physical(w, scale);
    lemma_physical(h, scale);
    crate::drawn::lemma_logical((w * scale) as u32, w as int, scale);
    crate::drawn::lemma_logical((h * scale) as u32, h as int, scale);
    let factor = Fixed::spec_from_i64(m.frame_scale() as i64);
    assert(factor == Fixed((scale * PARTS) as u64));
}

proof fn lemma_physical(side: u32, scale: int)
    requires
        0 < side,
        0 < scale <= i32::MAX,
        side * scale <= u32::MAX,
    ensures
        physical::<Fixed>(side, scale as i32) == side * scale,
        0 < side * scale,
{
    let parts = PARTS as int;
    let a = Fixed::spec_from_u64(side as u64);
    let b = Fixed::spec_from_i64(scale as i64);
    assert(a.0 == side * parts);
    assert(b.0 == scale * parts);
    assert((side * parts) * (scale * parts) == parts * ((side * scale) * parts))
        by (nonlinear_arith);
    vstd::arithmetic::div_mod::lemma_div_multiples_vanish((side * scale) * parts, parts);
    assert(0 < side * scale) by (nonlinear_arith)
        requires
            0 < side,
            0 < scale,
    ;
    assert(a.spec_times(b).0 == (side * scale) * parts);
    assert(a.spec_times(b).spec_round().0 == (side * scale) * parts);
}

/// The same holds where sides are whole pixels.
pub proof fn frames_have_whole_scales<B>(m: Model<Px, B>, w: u32, h: u32)
    requires
        m.configured == Some((w, h)),
        0 < w && 0 < h,
        w * most(m.surface_scale as int, 1) <= u32::MAX,
        h * most(m.surface_scale as int, 1) <= u32::MAX,
    ensures
        m.frame_size().0 == w * most(m.surface_scale as int, 1),
        m.frame_size().1 == h * most(m.surface_scale as int, 1),
{
    let scale = most(m.surface_scale as int, 1);
    assert(0 < w * scale && 0 < h * scale) by (nonlinear_arith)
        requires
            0 < w,
            0 < h,
            0 < scale,
    ;
    assert(Px::spec_from_i64(m.frame_scale() as i64) == Px(scale as u64));
}

/// The scale of a surface is that of its output: the one that has the focus,
/// where it follows the focus, or else the one that it is on. The compositor is
/// told of every scale that frames are drawn in.
pub proof fn surfaces_have_the_scale_of_their_output<S: Wide, B>(
    m: Model<S, B>,
    snap: Snapshot<S>,
    icons: IconCache,
    i: int,
)
    requires
        m.overlay is Some,
    ensures
        ({
            let (after, effects) = m.rescaled();
            let followed = m.config.display.follow_focus && m.focused is Some;
            let on = |o: OutputInfo|
                if followed {
                    text_of_option(o.name) == m.focused
                } else {
                    Some(o.handle) == m.overlay->0.output
                };
            let first = 0 <= i < m.outputs.len() && on(m.outputs[i]) && forall|j: int|
                0 <= j < i ==> !on(#[trigger] m.outputs[j]);
            &&& first ==> after.surface_scale == most(m.outputs[i].scale as int, 1)
            &&& (forall|j: int| 0 <= j < m.outputs.len() ==> !on(#[trigger] m.outputs[j]))
                ==> after.surface_scale == 1
            &&& after.surface_scale != m.surface_scale ==> effects == seq![
                Effect::SetBufferScale(after.surface_scale),
            ]
        }),
        ({
            let (after, effects) = m.recreated(snap, icons);
            effects.len() >= 2 && effects[effects.len() - 2] == Effect::SetBufferScale(
                after.frame_scale(),
            )
        }),
{
    if let Some(name) = m.focused {
        lemma_first_index(m.outputs, is_named(name));
    }
    if let Some(handle) = m.overlay->0.output {
        lemma_first_index(m.outputs, has_handle(handle));
    }
}

/// In icon mode, the applications whose windows are shown: those with an icon.
pub open spec fn applications(show_icons: bool, icons: IconCache) -> Option<
    spec_fn(Seq<char>) -> bool,
> {
    if show_icons {
        Some(|id: Seq<char>| icons.known().contains_key(id) && icons.known()[id] is Some)
    } else {
        None
    }
}

/// What is shown is the workspace that has the focus, or, stacked, every workspace
/// that is listed, each as the row of its windows; in icon mode, of those with
/// icons. The left edges of views that were seen before are kept in mind.
pub proof fn the_focused_workspace_is_shown<S: Wide, B>(
    m: Model<S, B>,
    snap: Snapshot<S>,
    icons: IconCache,
    i: int,
)
    ensures
        ({
            let (focused, lines, known) = m.content(snap, icons);
            let filter = applications(m.config.appearance.show_icons, icons);
            let all = listed(snap.workspaces@, snap.windows@);
            if m.config.display.mode@ == "all"@ {
                &&& focused is None
                &&& lines.len() == all.len()
                &&& 0 <= i < lines.len() ==> {
                    &&& lines[i].is_active == all[i].is_active
                    &&& exists|previous: Option<S>|
                        lines[i].row == #[trigger] row_of(
                            all[i],
                            snap.windows@,
                            filter,
                            previous,
                        )
                }
            } else {
                &&& lines.len() == 0
                &&& match first_focused(snap.workspaces@) {
                    Some(ws) => focused == Some(
                        row_of(
                            ws,
                            snap.windows@,
                            filter,
                            if m.view_left.contains_key(ws.id) {
                                Some(m.view_left[ws.id])
                            } else {
                                None
                            },
                        ),
                    ),
                    None => focused is None,
                }
            }
        }),
{
    let filter = icon_filter(
        if m.config.appearance.show_icons {
            Some(&icons)
        } else {
            None
        },
    );
    let apps = applications(m.config.appearance.show_icons, icons);
    if m.config.appearance.show_icons {
        assert(filter->0 =~= apps->0);
    }
    assert(filter == apps);
    if m.config.spec_is_stacked() {
        lemma_lines(
            listed(snap.workspaces@, snap.windows@),
            snap.windows@,
            filter,
            m.view_left,
            i,
        );
    }
}

proof fn lemma_lines<S: Wide>(
    list: Seq<Workspace>,
    windows: Seq<Window<S>>,
    icons: Option<spec_fn(Seq<char>) -> bool>,
    view_left: Map<u64, S>,
    i: int,
)
    ensures
        ({
            let lines = lines_with(list, windows, icons, view_left).0;
            &&& lines.len() == list.len()
            &&& 0 <= i < lines.len() ==> {
                &&& lines[i].is_active == list[i].is_active
                &&& exists|previous: Option<S>|
                    lines[i].row == #[trigger] row_of(list[i], windows, icons, previous)
            }
        }),
    decreases list.len(),
{
    if list.len() > 0 {
        lemma_lines(list.drop_last(), windows, icons, view_left, i);
        let known = lines_with(list.drop_last(), windows, icons, view_left).1;
        let ws = list.last();
        let previous = if known.contains_key(ws.id) {
            Some(known[ws.id])
        } else {
            None
        };
        let row = row_of(ws, windows, icons, previous);
        assert(row_with(ws, windows, icons, known).0 == row);
    }
}

} // verus!
