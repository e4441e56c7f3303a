//! The picture in numbers: where the shapes of windows come to lie in the widget,
//! counted in millionths of a pixel.

use vstd::prelude::*;
use crate::layout::{RowModel, Tile};
use crate::render::{all_lines, at_least_a_pixel, background, line_shapes, line_top, mapped,
    paddings, picture, row_models, row_place, row_scale, shared_height, shared_scale, shows_lines,
    shows_row, stacked_picture, tallest_tiled, tile_area, tile_shape, tile_shapes, Area, Bounds,
    Line, Shape, Style, PADDING};
use crate::scalar::{ratio, Fixed, Scalar, Wide, PARTS};

verus! {

/// What is left of a scaled number never exceeds it, and the parts of a scaled
/// sum lose one part at most.
pub proof fn lemma_scaled(a: int, b: int, k: int)
    requires
        0 <= a,
        0 <= b,
        0 <= k,
    ensures
        0 <= a * k / PARTS as int,
        a <= b ==> a * k / PARTS as int <= b * k / PARTS as int,
        a * k / PARTS as int + b * k / PARTS as int <= (a + b) * k / PARTS as int,
        (a + b) * k / PARTS as int <= a * k / PARTS as int + b * k / PARTS as int + 1,
{
    assert((a + b) * k == a * k + b * k) by (nonlinear_arith);
    assert(0 <= a * k && 0 <= b * k) by (nonlinear_arith)
        requires
            0 <= a,
            0 <= b,
            0 <= k,
    ;
    if a <= b {
        assert(a * k <= b * k) by (nonlinear_arith)
            requires
                a <= b,
                0 <= k,
        ;
    }
}

/// The scale that fits `whole` into `room` fills it, but for rounding.
pub proof fn lemma_fits(whole: int, room: int, k: int)
    requires
        0 < whole,
        0 <= room,
        k == room * PARTS / whole,
    ensures
        0 <= k,
        0 <= whole * k / PARTS as int <= room,
        room - whole / PARTS as int - 1 <= whole * k / PARTS as int,
{
    let parts = PARTS as int;
    vstd::arithmetic::div_mod::lemma_fundamental_div_mod(room * parts, whole);
    vstd::arithmetic::div_mod::lemma_mod_bound(room * parts, whole);
    assert(0 <= room * parts) by (nonlinear_arith)
        requires
            0 <= room,
            0 < parts,
    ;
    assert(0 <= k) by (nonlinear_arith)
        requires
            k == (room * parts) / whole,
            0 <= room * parts,
            0 < whole,
    ;
    let rest = room * parts % whole;
    assert(whole * k == room * parts - rest);
    assert(0 <= rest < whole);
    assert(whole * k >= 0) by (nonlinear_arith)
        requires
            0 < whole,
            0 <= k,
    ;
}

pub proof fn lemma_over(fit: int, longer: int)
    requires
        0 <= fit,
        0 < longer,
    ensures
        fit * PARTS / (longer * PARTS) == fit / longer,
{
    vstd::arithmetic::div_mod::lemma_truncate_middle(fit, longer, PARTS as int);
    vstd::arithmetic::div_mod::lemma_div_denominator(fit * PARTS, PARTS as int, longer);
    vstd::arithmetic::div_mod::lemma_div_multiples_vanish(fit, PARTS as int);
    assert(PARTS * longer == longer * PARTS) by (nonlinear_arith);
    assert(PARTS * fit == fit * PARTS) by (nonlinear_arith);
}

/// Where nothing is cut off, every tile has its shape.
proof fn lemma_shapes_of_tiles<S: Wide>(
    style: Style<S>,
    scale: S::Narrow,
    tiles: Seq<Tile<S>>,
    x0: S::Narrow,
    y0: S::Narrow,
    k: S::Narrow,
)
    ensures
        tile_shapes(style, scale, tiles, x0, y0, k, None).len() == tiles.len(),
        forall|i: int|
            0 <= i < tiles.len() ==> Some(
                #[trigger] tile_shapes(style, scale, tiles, x0, y0, k, None)[i],
            ) == tile_shape(style, scale, mapped(tiles[i], x0, y0, k), tiles[i], None),
    decreases tiles.len(),
{
    if tiles.len() > 0 {
        lemma_shapes_of_tiles(style, scale, tiles.drop_last(), x0, y0, k);
    }
}

/// Half the gap between tiles.
pub open spec fn half_gap(style: Style<Fixed>) -> int {
    style.cfg.gap.0 as int / 2
}

/// Half a gap, and twice that.
proof fn lemma_half(gap: Fixed)
    requires
        gap.0 <= u64::MAX / 4,
    ensures
        ({
            let half: Fixed = gap.spec_times(ratio(5, 10));
            &&& half.0 == gap.0 as int / 2
            &&& half.spec_times(Fixed::spec_from_u64(2)).0 == 2 * (gap.0 as int / 2)
        }),
{
    let half: Fixed = gap.spec_times(ratio(5, 10));
    let part = ratio::<Fixed>(5, 10).0 as int;
    assert(part == 500_000);
    assert(gap.0 * part == gap.0 * 500_000) by (nonlinear_arith)
        requires
            part == 500_000,
    ;
    assert(half.0 == gap.0 as int / 2);
    let two = Fixed::spec_from_u64(2).0 as int;
    assert(two == 2_000_000);
    assert(half.0 * two == half.0 * 2_000_000) by (nonlinear_arith)
        requires
            two == 2_000_000,
    ;
}

/// The rectangle of a tile that nothing cuts off.
proof fn lemma_shape(
    style: Style<Fixed>,
    scale: Fixed,
    t: Tile<Fixed>,
    x0: Fixed,
    y0: Fixed,
    k: Fixed,
    shape: Shape<Fixed>,
)
    requires
        Some(shape) == tile_shape(style, scale, mapped(t, x0, y0, k), t, None),
        x0.0 + (t.x.0 + t.w.0) * k.0 / PARTS as int <= u64::MAX / 2,
        y0.0 + (t.y.0 + t.h.0) * k.0 / PARTS as int <= u64::MAX / 2,
        style.cfg.gap.0 <= u64::MAX / 4,
    ensures
        shape.x.0 == x0.0 + t.x.0 * k.0 / PARTS as int + half_gap(style),
        shape.y.0 == y0.0 + t.y.0 * k.0 / PARTS as int + half_gap(style),
        shape.w.0 >= PARTS,
        shape.h.0 >= PARTS,
        shape.w.0 > PARTS ==> shape.w.0 == t.w.0 * k.0 / PARTS as int - 2 * half_gap(style),
        shape.h.0 > PARTS ==> shape.h.0 == t.h.0 * k.0 / PARTS as int - 2 * half_gap(style),
        t.w == t.h ==> shape.w == shape.h,
{
    lemma_scaled(t.x.0 as int, t.w.0 as int, k.0 as int);
    lemma_scaled(t.y.0 as int, t.h.0 as int, k.0 as int);
    lemma_scaled(t.w.0 as int, t.x.0 as int, k.0 as int);
    lemma_scaled(t.h.0 as int, t.y.0 as int, k.0 as int);
    lemma_half(style.cfg.gap);
}

/// The size of the widget in logical pixels is that of the frame over the scale.
pub proof fn lemma_logical(phys: u32, side: int, scale: int)
    requires
        phys == side * scale,
        0 < scale <= u32::MAX,
        0 <= side,
    ensures
        Fixed::spec_from_u64(phys as u64).spec_over(Fixed((scale * PARTS) as u64)) == Fixed(
            (side * PARTS) as u64,
        ),
        side <= phys,
{
    let parts = PARTS as int;
    assert(side <= side * scale) by (nonlinear_arith)
        requires
            0 < scale,
            0 <= side,
    ;
    assert(phys * parts * parts == (side * parts) * (scale * parts)) by (nonlinear_arith)
        requires
            phys == side * scale,
    ;
    vstd::arithmetic::div_mod::lemma_div_multiples_vanish(side * parts, scale * parts);
    assert((side * parts) * (scale * parts) == (scale * parts) * (side * parts))
        by (nonlinear_arith);
}

/// What the two laws on the picture of one workspace speak of: a frame that is
/// `scale` times `w` by `h` logical pixels, and a row that it shows, with one
/// shape for each of its tiles after whatever is behind them.
pub open spec fn shows_the_row(
    style: Style<Fixed>,
    frame: (u32, u32),
    size: (int, int),
    scale: int,
    row: RowModel<Fixed>,
) -> bool {
    &&& 0 < scale <= u32::MAX
    &&& frame.0 == size.0 * scale && frame.1 == size.1 * scale
    &&& 8 <= size.0 && 8 < size.1 <= 10_000_000
    &&& row.tiles.len() > 0
    &&& row.scale_h().0 > 0
    &&& style.cfg.gap.0 <= u64::MAX / 4
    // The row is at most 4,000,000,000,000 pixels wide when it is drawn.
    &&& row.scale_w().0 * size.1 <= 4_000_000_000_000 * row.scale_h().0
}

/// Whether a tile lies within what its row is scaled by.
pub open spec fn is_inside(t: Tile<Fixed>, row: RowModel<Fixed>) -> bool {
    &&& t.x.0 + t.w.0 <= row.scale_w().0
    &&& t.y.0 + t.h.0 <= row.scale_h().0
}

/// The shape of tile `i` in the picture of one workspace.
pub open spec fn shape_of_tile(
    style: Style<Fixed>,
    frame: (u32, u32),
    scale: int,
    mode: Seq<char>,
    row: RowModel<Fixed>,
    lines: Seq<Line<Fixed>>,
    i: int,
) -> Shape<Fixed> {
    let shown = picture(
        style,
        frame.0,
        frame.1,
        Fixed((scale * PARTS) as u64),
        mode,
        Some(row),
        lines,
    );
    shown[shown.len() - row.tiles.len() + i]
}

/// The numbers that a row is drawn by.
proof fn lemma_row_drawn(
    style: Style<Fixed>,
    frame: (u32, u32),
    size: (int, int),
    scale: int,
    mode: Seq<char>,
    row: RowModel<Fixed>,
    lines: Seq<Line<Fixed>>,
    i: int,
) -> (r: (Fixed, Fixed))
    requires
        shows_the_row(style, frame, size, scale, row),
        mode != "all"@,
        0 <= i < row.tiles.len(),
        is_inside(row.tiles[i], row),
    ensures
        ({
            let (x0, k) = r;
            let parts = PARTS as int;
            let t = row.tiles[i];
            let shape = shape_of_tile(style, frame, scale, mode, row, lines, i);
            let half = half_gap(style);
            let room = (size.1 - 8) * parts;
            let width = row.scale_w().0 * k.0 / parts;
            let spare = (size.0 - 8) * parts - width;
            &&& k.0 == room * parts / row.scale_h().0 as int
            &&& 0 <= row.scale_h().0 * k.0 / parts <= room
            &&& room - row.scale_h().0 / PARTS - 1 <= row.scale_h().0 * k.0 / parts
            &&& x0.0 == 4 * parts + if spare >= 0 {
                spare / 2
            } else {
                0
            }
            &&& shape.x.0 == x0.0 + t.x.0 * k.0 / parts + half
            &&& shape.y.0 == 4 * parts + t.y.0 * k.0 / parts + half
            &&& shape.w.0 >= PARTS && shape.h.0 >= PARTS
            &&& shape.w.0 > PARTS ==> shape.w.0 == t.w.0 * k.0 / parts - 2 * half
            &&& shape.h.0 > PARTS ==> shape.h.0 == t.h.0 * k.0 / parts - 2 * half
            &&& t.w == t.h ==> shape.w == shape.h
        }),
{
    let parts = PARTS as int;
    let t = row.tiles[i];
    let log_w = Fixed((size.0 * PARTS) as u64);
    let log_h = Fixed((size.1 * PARTS) as u64);
    lemma_logical(frame.0, size.0, scale);
    lemma_logical(frame.1, size.1, scale);
    let (x0, k) = row_place(row, log_w, log_h);
    let y0 = Fixed(4_000_000);
    let room = (size.1 - 8) * parts;
    let scaled = Fixed((scale * PARTS) as u64);
    assert(paddings::<Fixed>() == Fixed(8_000_000)) by {
        assert(Fixed::spec_from_u64(2) == Fixed(2_000_000));
        assert(Fixed::spec_from_u64(PADDING) == Fixed(4_000_000));
        assert(2_000_000int * 4_000_000 / 1_000_000 == 8_000_000);
    }
    assert(log_h.spec_minus(paddings()).0 == room);
    assert(log_w.spec_minus(paddings()).0 == (size.0 - 8) * parts);
    assert(shows_row(row, log_h));
    lemma_fits(row.scale_h().0 as int, room, room * parts / row.scale_h().0 as int);
    assert(room * parts / row.scale_h().0 as int <= room * parts) by (nonlinear_arith)
        requires
            0 <= room * parts,
            0 < row.scale_h().0,
    ;
    assert(k.0 == room * parts / row.scale_h().0 as int);
    assert(row.scale_w().0 * (room + 8 * parts) <= 4_000_000_000_000 * row.scale_h().0 * parts)
        by (nonlinear_arith)
        requires
            room + 8 * parts == size.1 * parts,
            row.scale_w().0 * size.1 <= 4_000_000_000_000 * row.scale_h().0,
            parts == 1_000_000,
    ;
    lemma_width_bound(row.scale_w().0 as int, row.scale_h().0 as int, room, k.0 as int);
    lemma_scaled((t.x.0 + t.w.0) as int, row.scale_w().0 as int, k.0 as int);
    lemma_scaled((t.y.0 + t.h.0) as int, row.scale_h().0 as int, k.0 as int);
    lemma_shapes_of_tiles(style, scaled, row.tiles, x0, y0, k);
    let shapes = tile_shapes(style, scaled, row.tiles, x0, y0, k, None);
    let shape = shape_of_tile(style, frame, scale, mode, row, lines, i);
    assert(shape == shapes[i]);
    lemma_shape(style, scaled, t, x0, y0, k, shape);
    (x0, k)
}

proof fn lemma_width_bound(width: int, height: int, room: int, k: int)
    requires
        0 <= width,
        0 < height,
        0 <= room,
        k == room * PARTS / height,
        width * (room + 8 * PARTS) <= 4_000_000_000_000 * height * PARTS,
    ensures
        0 <= width * k / PARTS as int <= 4_000_000_000_000 * PARTS,
{
    let parts = PARTS as int;
    vstd::arithmetic::div_mod::lemma_fundamental_div_mod(room * parts, height);
    vstd::arithmetic::div_mod::lemma_mod_bound(room * parts, height);
    lemma_fits(height, room, k);
    assert(height * k <= room * parts);
    assert(width * k <= 4_000_000_000_000 * parts * parts) by (nonlinear_arith)
        requires
            0 <= width,
            0 < height,
            0 <= k,
            height * k <= room * parts,
            width * (room + 8 * parts) <= 4_000_000_000_000 * height * parts,
            parts == 1_000_000,
    {
        assert(width * (height * k) <= width * (room * parts));
        assert(width * room <= 4_000_000_000_000 * height * parts);
        assert(width * (room * parts) == (width * room) * parts);
        assert((width * room) * parts <= 4_000_000_000_000 * height * parts * parts);
        assert(width * (height * k) == height * (width * k));
        assert(4_000_000_000_000 * height * parts * parts == height * (4_000_000_000_000 * parts
            * parts));
    }
    assert(0 <= width * k) by (nonlinear_arith)
        requires
            0 <= width,
            0 <= k,
    ;
}

/// A row that is no wider in proportion than the room is no wider in it, when it
/// is as high; and the other way round, but for rounding.
pub proof fn lemma_proportion(width: int, height: int, w: int, h: int, k: int)
    requires
        0 <= width,
        0 < height,
        0 <= w,
        0 <= h,
        k == h * PARTS * PARTS / height,
    ensures
        width * h <= w * height ==> width * k / PARTS as int <= w * PARTS,
        width * h < w * height ==> width * k / (PARTS as int) < w * PARTS,
        width * h >= w * height ==> width * k / PARTS as int >= w * PARTS - width / PARTS as int
            - 1,
{
    let parts = PARTS as int;
    let room = h * parts;
    vstd::arithmetic::div_mod::lemma_fundamental_div_mod(room * parts, height);
    vstd::arithmetic::div_mod::lemma_mod_bound(room * parts, height);
    let rest = room * parts % height;
    assert(height * k == h * parts * parts - rest);
    if width * h <= w * height {
        assert(width * k <= w * parts * parts) by (nonlinear_arith)
            requires
                0 <= width,
                0 < height,
                0 <= rest,
                height * k == h * parts * parts - rest,
                width * h <= w * height,
                parts == 1_000_000,
        {
            assert(height * (width * k) == width * (height * k));
            assert(width * (height * k) <= width * (h * parts * parts));
            assert(width * (h * parts * parts) == (width * h) * (parts * parts));
            assert((width * h) * (parts * parts) <= (w * height) * (parts * parts));
            assert((w * height) * (parts * parts) == height * (w * parts * parts));
        }
    }
    if width * h < w * height {
        assert(width * k < w * parts * parts) by (nonlinear_arith)
            requires
                0 <= width,
                0 < height,
                0 <= rest,
                height * k == h * parts * parts - rest,
                width * h < w * height,
                parts == 1_000_000,
        {
            assert(height * (width * k) == width * (height * k));
            assert(width * (height * k) <= width * (h * parts * parts));
            assert(width * (h * parts * parts) == (width * h) * (parts * parts));
            assert((width * h) * (parts * parts) < (w * height) * (parts * parts));
            assert((w * height) * (parts * parts) == height * (w * parts * parts));
        }
    }
    if width * h >= w * height {
        assert(width * k >= w * parts * parts - width) by (nonlinear_arith)
            requires
                0 <= width,
                0 < height,
                rest < height,
                height * k == h * parts * parts - rest,
                width * h >= w * height,
                parts == 1_000_000,
        {
            assert(height * (width * k) == width * (height * k));
            assert(width * (height * k) >= width * (h * parts * parts - height));
            assert(width * (h * parts * parts - height) == (width * h) * (parts * parts) - width
                * height);
            assert((width * h) * (parts * parts) >= (w * height) * (parts * parts));
            assert((w * height) * (parts * parts) - width * height == height * (w * parts * parts
                - width));
        }
    }
}

/// A row is drawn within the widget, and fills its height: every tile lies
/// within the padding above and below, and, where the row is no wider in
/// proportion than the widget, on both sides. What reaches to the top of the row
/// reaches to the padding, and so does what reaches to its bottom, but for
/// rounding. Squares stay squares, and no tile is smaller than a pixel.
pub proof fn rows_are_drawn_within_the_widget(
    style: Style<Fixed>,
    frame: (u32, u32),
    size: (int, int),
    scale: int,
    mode: Seq<char>,
    row: RowModel<Fixed>,
    lines: Seq<Line<Fixed>>,
    i: int,
)
    requires
        shows_the_row(style, frame, size, scale, row),
        mode != "all"@,
        0 <= i < row.tiles.len(),
        is_inside(row.tiles[i], row),
    ensures
        ({
            let t = row.tiles[i];
            let shape = shape_of_tile(style, frame, scale, mode, row, lines, i);
            let half = half_gap(style);
            let wide = row.scale_w().0 * (size.1 - 8) > (size.0 - 8) * row.scale_h().0;
            &&& shape.x.0 >= 4 * PARTS + half
            &&& shape.y.0 >= 4 * PARTS + half
            &&& shape.w.0 >= PARTS && shape.h.0 >= PARTS
            &&& shape.h.0 > PARTS ==> shape.y.0 + shape.h.0 + half <= (size.1 - 4) * PARTS
            &&& shape.w.0 > PARTS && !wide ==> shape.x.0 + shape.w.0 + half <= (size.0 - 4) * PARTS
            &&& t.x.0 == 0 && wide ==> shape.x.0 <= 4 * PARTS + half + row.scale_w().0 / PARTS + 1
            &&& t.y.0 == 0 ==> shape.y.0 == 4 * PARTS + half
            &&& t.y.0 + t.h.0 == row.scale_h().0 && shape.h.0 > PARTS ==> shape.y.0 + shape.h.0
                + half >= (size.1 - 4) * PARTS - row.scale_h().0 / PARTS - 2
            &&& t.w == t.h ==> shape.w == shape.h
        }),
{
    let parts = PARTS as int;
    let t = row.tiles[i];
    let (x0, k) = lemma_row_drawn(style, frame, size, scale, mode, row, lines, i);
    lemma_scaled(t.x.0 as int, t.w.0 as int, k.0 as int);
    lemma_scaled(t.y.0 as int, t.h.0 as int, k.0 as int);
    lemma_scaled((t.x.0 + t.w.0) as int, row.scale_w().0 as int, k.0 as int);
    lemma_scaled((t.y.0 + t.h.0) as int, row.scale_h().0 as int, k.0 as int);
    assert(0int * k.0 / parts == 0);
    lemma_proportion(
        row.scale_w().0 as int,
        row.scale_h().0 as int,
        size.0 - 8,
        size.1 - 8,
        k.0 as int,
    );
}

/// The minimap keeps the proportions of the workspace: tiles that begin side by
/// side do so in the widget, tiles of one size are of one size, and tiles that
/// touch are a gap apart, in both directions. The row stands in the middle of the
/// widget, or, where it is too wide for that, begins at the left.
pub proof fn tiles_keep_their_neighbours(
    style: Style<Fixed>,
    frame: (u32, u32),
    size: (int, int),
    scale: int,
    mode: Seq<char>,
    row: RowModel<Fixed>,
    lines: Seq<Line<Fixed>>,
    i: int,
    j: int,
)
    requires
        shows_the_row(style, frame, size, scale, row),
        mode != "all"@,
        0 <= i < row.tiles.len(),
        0 <= j < row.tiles.len(),
        is_inside(row.tiles[i], row),
        is_inside(row.tiles[j], row),
    ensures
        ({
            let a = row.tiles[i];
            let b = row.tiles[j];
            let p = shape_of_tile(style, frame, scale, mode, row, lines, i);
            let q = shape_of_tile(style, frame, scale, mode, row, lines, j);
            let gap = 2 * half_gap(style);
            let right = size.0 * PARTS - (q.x.0 + q.w.0 + half_gap(style));
            &&& a.x == b.x ==> p.x == q.x
            &&& a.y == b.y ==> p.y == q.y
            &&& p.w.0 > PARTS && q.w.0 > PARTS && a.w == b.w ==> p.w == q.w
            &&& p.h.0 > PARTS && q.h.0 > PARTS && a.h == b.h ==> p.h == q.h
            &&& p.h.0 > PARTS && a.y.0 + a.h.0 == b.y.0 ==> 0 <= q.y.0 - (p.y.0 + p.h.0 + gap) <= 1
            &&& p.w.0 > PARTS && a.x.0 + a.w.0 == b.x.0 ==> 0 <= q.x.0 - (p.x.0 + p.w.0 + gap) <= 1
            &&& a.x.0 == 0 && b.x.0 + b.w.0 == row.scale_w().0 && q.w.0 > PARTS ==> {
                let left = p.x.0 - half_gap(style);
                if right >= 4 * PARTS {
                    0 <= right - left <= 2
                } else {
                    left == 4 * PARTS
                }
            }
        }),
{
    let a = row.tiles[i];
    let b = row.tiles[j];
    let (x0, k) = lemma_row_drawn(style, frame, size, scale, mode, row, lines, i);
    let (other_x0, other_k) = lemma_row_drawn(style, frame, size, scale, mode, row, lines, j);
    assert(other_x0 == x0 && other_k == k);
    lemma_scaled(a.x.0 as int, a.w.0 as int, k.0 as int);
    lemma_scaled(a.y.0 as int, a.h.0 as int, k.0 as int);
    lemma_scaled(b.x.0 as int, b.w.0 as int, k.0 as int);
    lemma_scaled(b.y.0 as int, b.h.0 as int, k.0 as int);
    assert(0int * k.0 / PARTS as int == 0);
}

/// A workspace without windows, or without room, is not drawn: nothing comes
/// after what is behind the tiles, which is one shape at most.
pub proof fn empty_workspaces_are_not_drawn(
    style: Style<Fixed>,
    frame: (u32, u32),
    scale: int,
    mode: Seq<char>,
    focused: Option<RowModel<Fixed>>,
    lines: Seq<Line<Fixed>>,
)
    requires
        mode != "all"@,
        0 < scale <= u32::MAX,
        focused matches Some(row) ==> row.tiles.len() == 0 || frame.1 <= 8 * scale,
    ensures
        picture(
            style,
            frame.0,
            frame.1,
            Fixed((scale * PARTS) as u64),
            mode,
            focused,
            lines,
        ).len() <= 1,
{
    if let Some(row) = focused {
        if row.tiles.len() > 0 {
            let log_h = Fixed::spec_from_u64(frame.1 as u64).spec_over(
                Fixed((scale * PARTS) as u64),
            );
            let parts = PARTS as int;
            assert(frame.1 * parts * parts / (scale * parts) <= 8 * parts) by (nonlinear_arith)
                requires
                    0 <= frame.1 <= 8 * scale,
                    0 < scale,
                    parts == 1_000_000,
            ;
            assert(paddings::<Fixed>() == Fixed(8_000_000)) by {
                assert(Fixed::spec_from_u64(2) == Fixed(2_000_000));
                assert(Fixed::spec_from_u64(PADDING) == Fixed(4_000_000));
                assert(2_000_000int * 4_000_000 / 1_000_000 == 8_000_000);
            }
            assert(!shows_row(row, log_h));
        }
    }
}

/// The lesser of two numbers.
pub open spec fn least(a: int, b: int) -> int {
    if a <= b {
        a
    } else {
        b
    }
}

/// The greater of two numbers.
pub open spec fn most(a: int, b: int) -> int {
    if a >= b {
        a
    } else {
        b
    }
}

/// A tile that is not cut off altogether has its shape among those of its row.
proof fn lemma_tile_is_among<S: Wide>(
    style: Style<S>,
    scale: S::Narrow,
    tiles: Seq<Tile<S>>,
    x0: S::Narrow,
    y0: S::Narrow,
    k: S::Narrow,
    clip: Option<Bounds<S::Narrow>>,
    i: int,
)
    requires
        0 <= i < tiles.len(),
        tile_shape(style, scale, mapped(tiles[i], x0, y0, k), tiles[i], clip) is Some,
    ensures
        tile_shapes(style, scale, tiles, x0, y0, k, clip).contains(
            tile_shape(style, scale, mapped(tiles[i], x0, y0, k), tiles[i], clip)->0,
        ),
    decreases tiles.len(),
{
    let shape = tile_shape(style, scale, mapped(tiles[i], x0, y0, k), tiles[i], clip)->0;
    let front = tile_shapes(style, scale, tiles.drop_last(), x0, y0, k, clip);
    let all = tile_shapes(style, scale, tiles, x0, y0, k, clip);
    if i < tiles.len() - 1 {
        lemma_tile_is_among(style, scale, tiles.drop_last(), x0, y0, k, clip, i);
        let m = choose|m: int| 0 <= m < front.len() && front[m] == shape;
        assert(all[m] == shape);
    } else {
        assert(all[front.len() as int] == shape);
    }
}

/// The shapes of a row are among those of the stacked view.
proof fn lemma_line_is_among<S: Wide>(
    style: Style<S>,
    scale: S::Narrow,
    lines: Seq<Line<S>>,
    k: S::Narrow,
    inner_w: S::Narrow,
    row_h: S::Narrow,
    gap: S::Narrow,
    j: int,
    shape: Shape<S::Narrow>,
)
    requires
        0 <= j < lines.len(),
        line_shapes(
            style,
            scale,
            lines[j],
            line_top(j as nat, row_h, gap),
            k,
            inner_w,
            row_h,
        ).contains(shape),
    ensures
        all_lines(style, scale, lines, k, inner_w, row_h, gap).contains(shape),
    decreases lines.len(),
{
    let n = (lines.len() - 1) as nat;
    let front = all_lines(style, scale, lines.drop_last(), k, inner_w, row_h, gap);
    let last = line_shapes(
        style,
        scale,
        lines.last(),
        line_top(n, row_h, gap),
        k,
        inner_w,
        row_h,
    );
    let all = all_lines(style, scale, lines, k, inner_w, row_h, gap);
    assert(all == front + last);
    if j < n {
        lemma_line_is_among(style, scale, lines.drop_last(), k, inner_w, row_h, gap, j, shape);
        let m = choose|m: int| 0 <= m < front.len() && front[m] == shape;
        assert(all[m] == shape);
    } else {
        let m = choose|m: int| 0 <= m < last.len() && last[m] == shape;
        assert(all[front.len() + m] == shape);
    }
}

/// Where the rows of the stacked view begin.
proof fn lemma_line_top(n: nat, row_h: Fixed, gap: Fixed)
    requires
        4 * PARTS + n * (row_h.0 + gap.0) <= u64::MAX,
    ensures
        line_top(n, row_h, gap).0 == 4 * PARTS + n * (row_h.0 + gap.0),
    decreases n,
{
    assert(Fixed::spec_from_u64(PADDING) == Fixed(4_000_000));
    if n > 0 {
        assert(n * (row_h.0 + gap.0) == (n - 1) * (row_h.0 + gap.0) + (row_h.0 + gap.0))
            by (nonlinear_arith);
        assert(0 <= (n - 1) * (row_h.0 + gap.0)) by (nonlinear_arith)
            requires
                0 < n,
                0 <= row_h.0 + gap.0,
        ;
        lemma_line_top((n - 1) as nat, row_h, gap);
    } else {
        assert(n * (row_h.0 + gap.0) == 0) by (nonlinear_arith)
            requires
                n == 0,
        ;
    }
}

/// What the laws on the stacked view speak of: a frame that is `scale` times `w`
/// by `h` logical pixels, with room for a pixel of every row.
pub open spec fn shows_the_stack(
    style: Style<Fixed>,
    frame: (u32, u32),
    size: (int, int),
    scale: int,
    n: int,
) -> bool {
    &&& 0 < scale <= u32::MAX
    &&& frame.0 == size.0 * scale && frame.1 == size.1 * scale
    &&& 8 < size.0 <= 10_000_000 && 8 < size.1 <= 10_000_000
    &&& 1 <= n <= 1_000_000
    &&& style.cfg.gap.0 <= u64::MAX / 4
    &&& style.cfg.workspace_gap.0 <= 1_000_000 * PARTS
    &&& (size.1 - 8) * PARTS - (n - 1) * style.cfg.workspace_gap.0 >= n * PARTS
}

/// The height that each of `n` rows of the stacked view gets: they share what the
/// padding and the gaps leave.
pub open spec fn row_share(style: Style<Fixed>, size: (int, int), n: int) -> int {
    ((size.1 - 8) * PARTS - (n - 1) * style.cfg.workspace_gap.0) / n
}

/// The top of row `j` of the stacked view: below the others and their gaps.
pub open spec fn row_top(style: Style<Fixed>, size: (int, int), n: int, j: int) -> int {
    4 * PARTS + j * (row_share(style, size, n) + style.cfg.workspace_gap.0)
}

/// The rows lie below each other within the padding, a gap apart.
proof fn lemma_rows_fit(
    style: Style<Fixed>,
    frame: (u32, u32),
    size: (int, int),
    scale: int,
    n: int,
    j: int,
)
    requires
        shows_the_stack(style, frame, size, scale, n),
        0 <= j < n,
    ensures
        PARTS <= row_share(style, size, n) <= size.1 * PARTS,
        4 * PARTS <= row_top(style, size, n, j),
        row_top(style, size, n, j) + row_share(style, size, n) <= (size.1 - 4) * PARTS,
        row_top(style, size, n, n - 1) + row_share(style, size, n) + n > (size.1 - 4) * PARTS,
{
    let parts = PARTS as int;
    let gap = style.cfg.workspace_gap.0 as int;
    let left = (size.1 - 8) * parts - (n - 1) * gap;
    let share = row_share(style, size, n);
    vstd::arithmetic::div_mod::lemma_fundamental_div_mod(left, n);
    vstd::arithmetic::div_mod::lemma_mod_bound(left, n);
    assert(0 <= (n - 1) * gap) by (nonlinear_arith)
        requires
            1 <= n,
            0 <= gap,
    ;
    assert(share >= parts) by (nonlinear_arith)
        requires
            n * share + left % n == left,
            left % n < n,
            left >= n * parts,
            1 <= n,
    ;
    assert(share <= n * share) by (nonlinear_arith)
        requires
            1 <= n,
            0 <= share,
    ;
    assert(0 <= j * (share + gap) && j * (share + gap) + share <= n * share + (n - 1) * gap)
        by (nonlinear_arith)
        requires
            0 <= j <= n - 1,
            0 <= share,
            0 <= gap,
    {
        assert(j * (share + gap) <= (n - 1) * (share + gap));
        assert((n - 1) * (share + gap) + share == n * share + (n - 1) * gap);
    }
    assert((n - 1) * (share + gap) + share == n * share + (n - 1) * gap) by (nonlinear_arith);
}

/// The numbers that the stacked view is drawn by.
proof fn lemma_stack_numbers(
    style: Style<Fixed>,
    frame: (u32, u32),
    size: (int, int),
    scale: int,
    lines: Seq<Line<Fixed>>,
)
    requires
        shows_the_stack(style, frame, size, scale, lines.len() as int),
    ensures
        ({
            let log_w = Fixed::spec_from_u64(frame.0 as u64).spec_over(
                Fixed((scale * PARTS) as u64),
            );
            let log_h = Fixed::spec_from_u64(frame.1 as u64).spec_over(
                Fixed((scale * PARTS) as u64),
            );
            let n = lines.len() as int;
            &&& log_w.0 == size.0 * PARTS && log_h.0 == size.1 * PARTS
            &&& log_w.spec_minus(paddings()).spec_greater(Fixed::spec_from_u64(0)).0 == (size.0 - 8)
                * PARTS
            &&& shared_height(lines.len(), log_h, style.cfg.workspace_gap).0 == row_share(
                style,
                size,
                n,
            )
        }),
{
    let parts = PARTS as int;
    let n = lines.len() as int;
    let gap = style.cfg.workspace_gap;
    lemma_logical(frame.0, size.0, scale);
    lemma_logical(frame.1, size.1, scale);
    lemma_rows_fit(style, frame, size, scale, n, 0);
    let log_h = Fixed((size.1 * parts) as u64);
    assert(paddings::<Fixed>() == Fixed(8_000_000)) by {
        assert(Fixed::spec_from_u64(2) == Fixed(2_000_000));
        assert(Fixed::spec_from_u64(PADDING) == Fixed(4_000_000));
        assert(2_000_000int * 4_000_000 / 1_000_000 == 8_000_000);
    }
    let count = Fixed::spec_from_u64(lines.len() as u64);
    assert(count.0 == n * parts);
    assert(Fixed::spec_from_u64(1) == Fixed(1_000_000));
    assert(((n - 1) * parts) * gap.0 / parts == (n - 1) * gap.0) by {
        assert(((n - 1) * parts) * gap.0 == parts * ((n - 1) * gap.0)) by (nonlinear_arith);
        vstd::arithmetic::div_mod::lemma_div_multiples_vanish((n - 1) * gap.0, parts);
    }
    assert(0 <= (n - 1) * gap.0 <= 1_000_000 * (1_000_000 * parts)) by (nonlinear_arith)
        requires
            1 <= n <= 1_000_000,
            0 <= gap.0 <= 1_000_000 * parts,
            parts == 1_000_000,
    ;
    let left = (size.1 - 8) * parts - (n - 1) * gap.0;
    assert(log_h.spec_minus(paddings()).spec_minus(
        count.spec_minus(Fixed::spec_from_u64(1)).spec_times(gap),
    ).0 == left);
    lemma_over(left, n);
}

/// The rectangle of a tile that lies within what it is cut off at.
proof fn lemma_unclipped(
    style: Style<Fixed>,
    scale: Fixed,
    t: Tile<Fixed>,
    x0: Fixed,
    y0: Fixed,
    k: Fixed,
    clip: Bounds<Fixed>,
) -> (shape: Shape<Fixed>)
    requires
        clip.left == x0 && clip.top == y0,
        x0.0 + (t.x.0 + t.w.0) * k.0 / PARTS as int <= clip.right.0 <= u64::MAX / 2,
        y0.0 + (t.y.0 + t.h.0) * k.0 / PARTS as int <= clip.bottom.0 <= u64::MAX / 2,
        style.cfg.gap.0 <= u64::MAX / 4,
        t.w.0 * k.0 / PARTS as int > 2 * half_gap(style) + PARTS,
        t.h.0 * k.0 / PARTS as int > 2 * half_gap(style) + PARTS,
    ensures
        tile_shape(style, scale, mapped(t, x0, y0, k), t, Some(clip)) == Some(shape),
        shape.x.0 == x0.0 + t.x.0 * k.0 / PARTS as int + half_gap(style),
        shape.y.0 == y0.0 + t.y.0 * k.0 / PARTS as int + half_gap(style),
        shape.w.0 == t.w.0 * k.0 / PARTS as int - 2 * half_gap(style),
        shape.h.0 == t.h.0 * k.0 / PARTS as int - 2 * half_gap(style),
{
    lemma_scaled(t.x.0 as int, t.w.0 as int, k.0 as int);
    lemma_scaled(t.y.0 as int, t.h.0 as int, k.0 as int);
    lemma_half(style.cfg.gap);
    tile_shape(style, scale, mapped(t, x0, y0, k), t, Some(clip))->0
}

/// What a row of the stacked view is scaled by: the height of the tallest row with
/// tiled windows, where it has such itself, and that of its floating windows where
/// not.
pub open spec fn scaling_height(lines: Seq<Line<Fixed>>, j: int) -> int {
    if lines[j].row.total_width.0 > 0 && lines[j].row.max_height.0 > 0 {
        tallest_tiled(row_models(lines)).0 as int
    } else {
        lines[j].row.float_height.0 as int
    }
}

/// In the stacked view, a tile lies in the row of its workspace, where it lies in
/// the workspace, in the scale in which what the row is scaled by is as high as a
/// row. This is so for tiles that the widget is wide enough for, and that are
/// larger than a pixel there.
pub proof fn stacked_tiles_lie_in_their_rows(
    style: Style<Fixed>,
    frame: (u32, u32),
    size: (int, int),
    scale: int,
    focused: Option<RowModel<Fixed>>,
    lines: Seq<Line<Fixed>>,
    j: int,
    i: int,
)
    requires
        shows_the_stack(style, frame, size, scale, lines.len() as int),
        0 <= j < lines.len(),
        scaling_height(lines, j) > 0,
        0 <= i < lines[j].row.tiles.len(),
        ({
            let t = lines[j].row.tiles[i];
            let row_h = row_share(style, size, lines.len() as int);
            let k = row_h * PARTS / scaling_height(lines, j);
            &&& t.y.0 + t.h.0 <= scaling_height(lines, j)
            &&& (t.x.0 + t.w.0) * k / PARTS as int <= (size.0 - 8) * PARTS
            &&& t.w.0 * k / PARTS as int > 2 * half_gap(style) + PARTS
            &&& t.h.0 * k / PARTS as int > 2 * half_gap(style) + PARTS
        }),
    ensures
        ({
            let n = lines.len() as int;
            let t = lines[j].row.tiles[i];
            let k = row_share(style, size, n) * PARTS / scaling_height(lines, j);
            let half = half_gap(style);
            let shown = picture(
                style,
                frame.0,
                frame.1,
                Fixed((scale * PARTS) as u64),
                "all"@,
                focused,
                lines,
            );
            exists|m: int|
                {
                    let shape = #[trigger] shown[m];
                    &&& 0 <= m < shown.len()
                    &&& shape.x.0 == 4 * PARTS + t.x.0 * k / PARTS as int + half
                    &&& shape.y.0 == row_top(style, size, n, j) + t.y.0 * k / PARTS as int + half
                    &&& shape.w.0 == t.w.0 * k / PARTS as int - 2 * half
                    &&& shape.h.0 == t.h.0 * k / PARTS as int - 2 * half
                    &&& row_top(style, size, n, j) <= shape.y.0
                    &&& shape.y.0 + shape.h.0 <= row_top(style, size, n, j) + row_share(
                        style,
                        size,
                        n,
                    )
                }
        }),
{
    let parts = PARTS as int;
    let n = lines.len() as int;
    let line = lines[j];
    let t = line.row.tiles[i];
    let tallest = scaling_height(lines, j);
    let share = row_share(style, size, n);
    let top = row_top(style, size, n, j);
    let gap = style.cfg.workspace_gap;
    let half = half_gap(style);
    let scaled = Fixed((scale * PARTS) as u64);
    lemma_stack_numbers(style, frame, size, scale, lines);
    lemma_rows_fit(style, frame, size, scale, n, j);
    let log_w = Fixed::spec_from_u64(frame.0 as u64).spec_over(scaled);
    let log_h = Fixed::spec_from_u64(frame.1 as u64).spec_over(scaled);
    let row_h = shared_height(lines.len(), log_h, gap);
    let inner_w = log_w.spec_minus(paddings()).spec_greater(Fixed::spec_from_u64(0));
    let shared = shared_scale(row_models(lines), row_h);
    let k = row_scale(line.row, shared, row_h).0;
    lemma_fits(tallest, share, share * parts / tallest);
    assert(share * parts / tallest <= share * parts) by (nonlinear_arith)
        requires
            0 <= share * parts,
            0 < tallest,
    ;
    assert(k.0 == share * parts / tallest);
    lemma_scaled((t.y.0 + t.h.0) as int, tallest, k.0 as int);
    lemma_scaled(t.x.0 as int, t.w.0 as int, k.0 as int);
    lemma_scaled(t.y.0 as int, t.h.0 as int, k.0 as int);
    lemma_line_top(j as nat, row_h, gap);
    let x0 = Fixed::spec_from_u64(PADDING);
    let y0 = line_top(j as nat, row_h, gap);
    assert(x0 == Fixed(4_000_000));
    assert(y0.0 == top);
    let clip = at_least_a_pixel(x0, y0, inner_w, row_h);
    assert(Fixed::spec_from_u64(1) == Fixed(1_000_000));
    assert(clip.right.0 == (size.0 - 4) * parts);
    assert(clip.bottom.0 == top + share);
    let shape = lemma_unclipped(style, scaled, t, x0, y0, k, clip);
    lemma_tile_is_among(style, scaled, line.row.tiles, x0, y0, k, Some(clip), i);
    let shapes = tile_shapes(style, scaled, line.row.tiles, x0, y0, k, Some(clip));
    let whole = line_shapes(style, scaled, line, y0, shared, inner_w, row_h);
    let m = choose|m: int| 0 <= m < shapes.len() && shapes[m] == shape;
    assert(whole[whole.len() - shapes.len() + m] == shape);
    lemma_line_is_among(style, scaled, lines, shared, inner_w, row_h, gap, j, shape);
    assert(row_models(lines)[j] == line.row);
    assert(shows_lines(lines));
    let stack = stacked_picture(style, scaled, lines, log_w, log_h);
    let back = background(*style.cfg, log_w, log_h);
    let q = choose|q: int| 0 <= q < stack.len() && stack[q] == shape;
    let shown = picture(style, frame.0, frame.1, scaled, "all"@, focused, lines);
    assert(shown[back.len() + q] == shape);
}

/// Whether a shape lies between these edges.
pub open spec fn lies_between(
    shape: Shape<Fixed>,
    left: int,
    top: int,
    right: int,
    bottom: int,
) -> bool {
    &&& left <= shape.x.0 && shape.x.0 + shape.w.0 <= right
    &&& top <= shape.y.0 && shape.y.0 + shape.h.0 <= bottom
}

proof fn lemma_tiles_between(
    style: Style<Fixed>,
    scale: Fixed,
    tiles: Seq<Tile<Fixed>>,
    x0: Fixed,
    y0: Fixed,
    k: Fixed,
    clip: Bounds<Fixed>,
    m: int,
)
    requires
        0 <= m < tile_shapes(style, scale, tiles, x0, y0, k, Some(clip)).len(),
    ensures
        lies_between(
            tile_shapes(style, scale, tiles, x0, y0, k, Some(clip))[m],
            clip.left.0 as int,
            clip.top.0 as int,
            clip.right.0 as int,
            clip.bottom.0 as int,
        ),
    decreases tiles.len(),
{
    if tiles.len() > 0 {
        let front = tile_shapes(style, scale, tiles.drop_last(), x0, y0, k, Some(clip));
        if m < front.len() {
            lemma_tiles_between(style, scale, tiles.drop_last(), x0, y0, k, clip, m);
        }
    }
}

proof fn lemma_lines_between(
    style: Style<Fixed>,
    scale: Fixed,
    lines: Seq<Line<Fixed>>,
    k: Fixed,
    inner_w: Fixed,
    row_h: Fixed,
    gap: Fixed,
    right: int,
    bottom: int,
    m: int,
)
    requires
        0 <= m < all_lines(style, scale, lines, k, inner_w, row_h, gap).len(),
        inner_w.0 >= PARTS && row_h.0 >= PARTS,
        4 * PARTS + inner_w.0 <= right <= u64::MAX,
        bottom <= u64::MAX,
        forall|j: nat|
            #![trigger line_top(j, row_h, gap)]
            j < lines.len() ==> 4 * PARTS <= line_top(j, row_h, gap).0 && line_top(
                j,
                row_h,
                gap,
            ).0 + row_h.0 <= bottom,
    ensures
        lies_between(
            all_lines(style, scale, lines, k, inner_w, row_h, gap)[m],
            4 * PARTS as int,
            4 * PARTS as int,
            right,
            bottom,
        ),
    decreases lines.len(),
{
    if lines.len() > 0 {
        let n = (lines.len() - 1) as nat;
        let front = all_lines(style, scale, lines.drop_last(), k, inner_w, row_h, gap);
        if m < front.len() {
            lemma_lines_between(
                style,
                scale,
                lines.drop_last(),
                k,
                inner_w,
                row_h,
                gap,
                right,
                bottom,
                m,
            );
        } else {
            let line = lines.last();
            let y = line_top(n, row_h, gap);
            let padding = Fixed::spec_from_u64(PADDING);
            assert(padding == Fixed(4_000_000));
            assert(Fixed::spec_from_u64(1) == Fixed(1_000_000));
            let clip = at_least_a_pixel(padding, y, inner_w, row_h);
            let rk = row_scale(line.row, k, row_h).0;
            let shapes = tile_shapes(style, scale, line.row.tiles, padding, y, rk, Some(clip));
            let whole = line_shapes(style, scale, line, y, k, inner_w, row_h);
            let q = m - front.len() - (whole.len() - shapes.len());
            if q >= 0 {
                lemma_tiles_between(style, scale, line.row.tiles, padding, y, rk, clip, q);
                assert(whole[m - front.len()] == shapes[q]);
            }
        }
    }
}

/// Everything in the stacked view lies within the padding of the widget, whatever
/// the windows are like.
pub proof fn the_stack_is_drawn_within_the_widget(
    style: Style<Fixed>,
    frame: (u32, u32),
    size: (int, int),
    scale: int,
    focused: Option<RowModel<Fixed>>,
    lines: Seq<Line<Fixed>>,
    m: int,
)
    requires
        shows_the_stack(style, frame, size, scale, lines.len() as int),
        ({
            let shown = picture(
                style,
                frame.0,
                frame.1,
                Fixed((scale * PARTS) as u64),
                "all"@,
                focused,
                lines,
            );
            0 <= m < shown.len()
        }),
    ensures
        ({
            let shown = picture(
                style,
                frame.0,
                frame.1,
                Fixed((scale * PARTS) as u64),
                "all"@,
                focused,
                lines,
            );
            // The first shape may be the background, which covers the widget.
            ||| lies_between(
                shown[m],
                4 * PARTS as int,
                4 * PARTS as int,
                (size.0 - 4) * PARTS,
                (size.1 - 4) * PARTS,
            )
            ||| m == 0 && style.cfg.background_opacity.0 > 0 && shown[0].x.0 == 0 && shown[0].y.0
                == 0 && shown[0].w.0 == size.0 * PARTS && shown[0].h.0 == size.1 * PARTS
        }),
{
    let n = lines.len() as int;
    let gap = style.cfg.workspace_gap;
    let scaled = Fixed((scale * PARTS) as u64);
    lemma_stack_numbers(style, frame, size, scale, lines);
    lemma_rows_fit(style, frame, size, scale, n, 0);
    let log_w = Fixed::spec_from_u64(frame.0 as u64).spec_over(scaled);
    let log_h = Fixed::spec_from_u64(frame.1 as u64).spec_over(scaled);
    let row_h = shared_height(lines.len(), log_h, gap);
    let inner_w = log_w.spec_minus(paddings()).spec_greater(Fixed::spec_from_u64(0));
    let k = shared_scale(row_models(lines), row_h);
    let back = background(*style.cfg, log_w, log_h);
    if m >= back.len() {
        assert forall|j: nat| j < lines.len() implies {
            &&& 4 * PARTS <= #[trigger] line_top(j, row_h, gap).0
            &&& line_top(j, row_h, gap).0 + row_h.0 <= (size.1 - 4) * PARTS
        } by {
            lemma_rows_fit(style, frame, size, scale, n, j as int);
            lemma_line_top(j, row_h, gap);
        }
        lemma_lines_between(
            style,
            scaled,
            lines,
            k,
            inner_w,
            row_h,
            gap,
            (size.0 - 4) * PARTS,
            (size.1 - 4) * PARTS,
            m - back.len(),
        );
    }
}

/// What is cut off of a tile is what lies outside, and nothing else: the rest is
/// where it was. A tile is left out only where nothing of it is left.
pub proof fn only_what_is_outside_is_cut_off(
    tile: Area<Fixed>,
    half_gap: Fixed,
    clip: Bounds<Fixed>,
)
    requires
        tile.x.0 + tile.w.0 <= u64::MAX / 4,
        tile.y.0 + tile.h.0 <= u64::MAX / 4,
        half_gap.0 <= u64::MAX / 4,
    ensures
        ({
            let all = tile_area(tile, half_gap, None)->0;
            let left = most(all.x.0 as int, clip.left.0 as int);
            let top = most(all.y.0 as int, clip.top.0 as int);
            let right = least(all.x.0 + all.w.0, clip.right.0 as int);
            let bottom = least(all.y.0 + all.h.0, clip.bottom.0 as int);
            &&& tile_area(tile, half_gap, None) is Some
            &&& match tile_area(tile, half_gap, Some(clip)) {
                Some(area) => {
                    &&& area.x.0 == left && area.y.0 == top
                    &&& area.x.0 + area.w.0 == right && area.y.0 + area.h.0 == bottom
                    &&& left < right && top < bottom
                },
                None => left >= right || top >= bottom,
            }
        }),
{
    let two = Fixed::spec_from_u64(2);
    assert(two == Fixed(2_000_000));
    assert(half_gap.0 * two.0 == half_gap.0 * 2_000_000);
    assert(Fixed::spec_from_u64(1) == Fixed(1_000_000));
}

/// The frame of an active workspace lies around its row: as high as the row, and
/// as wide as its windows, or as the widget, where they are wider. No other
/// workspace has one.
pub proof fn active_workspaces_are_framed(
    style: Style<Fixed>,
    scale: Fixed,
    line: Line<Fixed>,
    y: Fixed,
    k: Fixed,
    inner_w: Fixed,
    row_h: Fixed,
)
    requires
        line.row.has_tiled(),
        inner_w.0 >= PARTS && row_h.0 >= PARTS,
        line.row.total_width.0 * k.0 / PARTS as int <= u64::MAX,
    ensures
        ({
            let shapes = line_shapes(style, scale, line, y, k, inner_w, row_h);
            let framed = line.is_active && style.cfg.active_workspace_border_width.0 > 0;
            let frame = shapes[0];
            &&& shapes.len() <= line.row.tiles.len() + if framed {
                1int
            } else {
                0
            }
            &&& framed ==> {
                &&& shapes.len() > 0
                &&& frame.x.0 == 4 * PARTS && frame.y == y
                &&& frame.h == row_h
                &&& frame.w.0 == most(
                    PARTS as int,
                    least(
                        line.row.total_width.0 * k.0 / PARTS as int,
                        inner_w.0 as int,
                    ),
                )
                &&& frame.fill is None && frame.icon is None
                &&& frame.border matches Some(b) && b.width
                    == style.cfg.active_workspace_border_width
            }
        }),
{
    assert(Fixed::spec_from_u64(1) == Fixed(1_000_000));
    assert(Fixed::spec_from_u64(PADDING) == Fixed(4_000_000));
    assert(line.row.total_width.0 * k.0 >= 0) by (nonlinear_arith)
        requires
            0 <= line.row.total_width.0,
            0 <= k.0,
    ;
    let clip = at_least_a_pixel(Fixed::spec_from_u64(PADDING), y, inner_w, row_h);
    lemma_no_more_shapes(
        style,
        scale,
        line.row.tiles,
        Fixed::spec_from_u64(PADDING),
        y,
        row_scale(line.row, k, row_h).0,
        Some(clip),
    );
}

proof fn lemma_no_more_shapes<S: Wide>(
    style: Style<S>,
    scale: S::Narrow,
    tiles: Seq<Tile<S>>,
    x0: S::Narrow,
    y0: S::Narrow,
    k: S::Narrow,
    clip: Option<Bounds<S::Narrow>>,
)
    ensures
        tile_shapes(style, scale, tiles, x0, y0, k, clip).len() <= tiles.len(),
    decreases tiles.len(),
{
    if tiles.len() > 0 {
        lemma_no_more_shapes(style, scale, tiles.drop_last(), x0, y0, k, clip);
    }
}

} // verus!
