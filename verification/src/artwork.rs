//! Icons in numbers: how large they are kept, and where they are drawn, counted in
//! millionths of a pixel.

use vstd::prelude::*;
use crate::drawn::{least, lemma_over, most};
use crate::icons::{canvas, canvas_side, placed_icon, shrunk, Blit};
use crate::layout::Tile;
use crate::pixmap::dimensions;
use crate::render::{tile_shape, Area, Bounds, Shape, Style};
use crate::scalar::{ratio, Fixed, Scalar, PARTS};

verus! {

/// Whether an icon lies in the middle of a tile, within seven tenths of either of
/// its sides, and is as large as that allows without being enlarged. All this is
/// in pixels of the buffer, of which there are `scale` to one of the widget; what
/// is said of sizes is so but for rounding.
pub open spec fn lies_in_the_middle(
    icon: (u32, u32),
    blit: Blit<Fixed>,
    scale: int,
    x: Fixed,
    y: Fixed,
    w: Fixed,
    h: Fixed,
) -> bool {
    let drawn_w = icon.0 * blit.zoom.0;
    let drawn_h = icon.1 * blit.zoom.0;
    let left = blit.dx.0 - x.0 * scale;
    let top = blit.dy.0 - y.0 * scale;
    let right = (x.0 + w.0) * scale - (blit.dx.0 + drawn_w);
    let bottom = (y.0 + h.0) * scale - (blit.dy.0 + drawn_h);
    let longer = most(icon.0 as int, icon.1 as int);
    let shorter_side = least(w.0 as int, h.0 as int);
    &&& 0 <= left && 0 <= top && 0 <= right && 0 <= bottom
    &&& 0 <= right - left <= scale && 0 <= bottom - top <= scale
    &&& 10 * drawn_w <= 7 * w.0 * scale && 10 * drawn_w <= 7 * h.0 * scale
    &&& 10 * drawn_h <= 7 * w.0 * scale && 10 * drawn_h <= 7 * h.0 * scale
    &&& PARTS * scale <= drawn_w && PARTS * scale <= drawn_h
    &&& blit.zoom.0 <= PARTS * scale
    &&& blit.zoom.0 < PARTS * scale ==> 10 * longer * blit.zoom.0 > 7 * shorter_side * scale
        - 10 * (longer + 1) * scale
}

/// An icon lies in the middle of its tile, as large as it may be.
pub proof fn icons_lie_in_their_tiles(
    icon: (u32, u32),
    scale: int,
    x: Fixed,
    y: Fixed,
    w: Fixed,
    h: Fixed,
)
    requires
        0 < scale <= u32::MAX,
        (x.0 + w.0) * scale <= u64::MAX,
        (y.0 + h.0) * scale <= u64::MAX,
    ensures
        placed_icon(icon, Fixed((scale * PARTS) as u64), x, y, w, h) matches Some(blit)
            ==> lies_in_the_middle(icon, blit, scale, x, y, w, h),
{
    let parts = PARTS as int;
    let scaled = Fixed((scale * PARTS) as u64);
    let (iw, ih) = (icon.0 as int, icon.1 as int);
    let longer = most(iw, ih);
    let side = least(w.0 as int, h.0 as int);
    let fit = w.spec_lesser(h).spec_times(ratio(7, 10));
    assert(ratio::<Fixed>(7, 10) == Fixed(700_000));
    assert(fit.0 == side * 700_000 / 1_000_000);
    let fw = Fixed::spec_from_u64(icon.0 as u64);
    let fh = Fixed::spec_from_u64(icon.1 as u64);
    assert(fw.0 == iw * parts && fh.0 == ih * parts);
    let k = fit.spec_over(fw.spec_greater(fh)).spec_lesser(Fixed::spec_from_u64(1));
    if placed_icon(icon, scaled, x, y, w, h) is Some {
        let blit = placed_icon(icon, scaled, x, y, w, h)->0;
        let n = k.0 as int;
        assert(iw > 0 && ih > 0);
        assert(fw.spec_greater(fh).0 == longer * parts);
        lemma_over(fit.0 as int, longer);
        assert(n == least(fit.0 as int / longer, parts));
        vstd::arithmetic::div_mod::lemma_fundamental_div_mod(fit.0 as int, longer);
        vstd::arithmetic::div_mod::lemma_mod_bound(fit.0 as int, longer);
        assert(longer * n <= fit.0) by (nonlinear_arith)
            requires
                0 < longer,
                n <= fit.0 as int / longer,
                longer * (fit.0 as int / longer) <= fit.0,
        ;
        assert(n < parts ==> longer * n > fit.0 - longer);
        lemma_times(iw, n);
        lemma_times(ih, n);
        let dw = fw.spec_times(k);
        let dh = fh.spec_times(k);
        assert(iw * n <= longer * n && ih * n <= longer * n) by (nonlinear_arith)
            requires
                iw <= longer,
                ih <= longer,
                0 <= n,
        ;
        assert(dw.0 == iw * n);
        assert(dh.0 == ih * n);
        assert(Fixed::spec_from_u64(2) == Fixed(2_000_000));
        lemma_halved((w.0 - dw.0) as int);
        lemma_halved((h.0 - dh.0) as int);
        let dx = x.0 + (w.0 - dw.0) / 2;
        let dy = y.0 + (h.0 - dh.0) / 2;
        assert(dx * scale <= (x.0 + w.0) * scale && dy * scale <= (y.0 + h.0) * scale)
            by (nonlinear_arith)
            requires
                dx <= x.0 + w.0,
                dy <= y.0 + h.0,
                0 < scale,
        ;
        lemma_whole_times(dx, scale);
        lemma_whole_times(dy, scale);
        lemma_whole_times(n, scale);
        assert(x.0 + w.0 <= (x.0 + w.0) * scale && y.0 + h.0 <= (y.0 + h.0) * scale)
            by (nonlinear_arith)
            requires
                0 < scale,
                0 <= x.0 + w.0,
                0 <= y.0 + h.0,
        ;
        assert(n * scale <= parts * scale) by (nonlinear_arith)
            requires
                n <= parts,
                0 < scale,
        ;
        assert(blit.dx.0 == dx * scale);
        assert(blit.dy.0 == dy * scale);
        assert(blit.zoom.0 == n * scale);
        lemma_icon_scaled(x.0 as int, w.0 as int, iw, n, dx, scale);
        lemma_icon_scaled(y.0 as int, h.0 as int, ih, n, dy, scale);
        lemma_icon_scaled(x.0 as int, h.0 as int, iw, n, x.0 + (h.0 - iw * n) / 2, scale);
        lemma_icon_scaled(y.0 as int, w.0 as int, ih, n, y.0 + (w.0 - ih * n) / 2, scale);
        if n < parts {
            assert(10 * (longer * n) > 7 * side - 10 * (longer + 1));
            assert(10 * longer * (n * scale) > 7 * side * scale - 10 * (longer + 1) * scale)
                by (nonlinear_arith)
                requires
                    10 * (longer * n) > 7 * side - 10 * (longer + 1),
                    0 < scale,
            {
                assert(10 * longer * (n * scale) == (10 * (longer * n)) * scale);
                assert((7 * side - 10 * (longer + 1)) * scale == 7 * side * scale - 10 * (longer
                    + 1) * scale);
            }
        } else {
            assert(n == parts);
        }
    }
}

proof fn lemma_times(a: int, n: int)
    ensures
        a * PARTS * n / PARTS as int == a * n,
{
    assert(a * PARTS * n == PARTS * (a * n)) by (nonlinear_arith);
    vstd::arithmetic::div_mod::lemma_div_multiples_vanish(a * n, PARTS as int);
}

proof fn lemma_whole_times(a: int, scale: int)
    ensures
        a * (scale * PARTS) / PARTS as int == a * scale,
{
    assert(a * (scale * PARTS) == PARTS * (a * scale)) by (nonlinear_arith);
    vstd::arithmetic::div_mod::lemma_div_multiples_vanish(a * scale, PARTS as int);
}

proof fn lemma_halved(a: int)
    ensures
        a * PARTS / 2_000_000 == a / 2,
{
}

proof fn lemma_icon_scaled(at: int, side: int, icon: int, n: int, d: int, scale: int)
    requires
        0 < scale,
        d == at + (side - icon * n) / 2,
        10 * (icon * n) <= 7 * side,
        0 <= side,
        PARTS <= icon * n,
    ensures
        0 <= d * scale - at * scale,
        0 <= (at + side) * scale - (d * scale + icon * (n * scale)),
        0 <= ((at + side) * scale - (d * scale + icon * (n * scale))) - (d * scale - at * scale)
            <= scale,
        10 * (icon * (n * scale)) <= 7 * side * scale,
        PARTS * scale <= icon * (n * scale),
{
    let left = d - at;
    let right = at + side - (d + icon * n);
    assert(0 <= left && left <= right <= left + 1);
    assert(icon * (n * scale) == (icon * n) * scale) by (nonlinear_arith);
    assert(d * scale - at * scale == left * scale) by (nonlinear_arith)
        requires
            left == d - at,
    ;
    assert((at + side) * scale - (d * scale + (icon * n) * scale) == right * scale)
        by (nonlinear_arith)
        requires
            right == at + side - (d + icon * n),
    ;
    assert(0 <= left * scale <= right * scale <= (left + 1) * scale)
        by (nonlinear_arith)
        requires
            0 <= left <= right <= left + 1,
            0 < scale,
    ;
    assert((left + 1) * scale == left * scale + scale) by (nonlinear_arith);
    assert(10 * ((icon * n) * scale) <= 7 * side * scale) by (nonlinear_arith)
        requires
            10 * (icon * n) <= 7 * side,
            0 < scale,
    ;
    assert(PARTS * scale <= (icon * n) * scale) by (nonlinear_arith)
        requires
            PARTS <= icon * n,
            0 < scale,
    ;
}

/// An icon is drawn where seven tenths of the shorter side of the tile leave room
/// for it: where its own shorter side is a pixel or more then, with a little to
/// spare for rounding. Without area there is nothing to draw.
pub proof fn icons_are_drawn_where_there_is_room(
    icon: (u32, u32),
    scale: int,
    x: Fixed,
    y: Fixed,
    w: Fixed,
    h: Fixed,
)
    requires
        0 < scale <= u32::MAX,
    ensures
        ({
            let drawn = placed_icon(icon, Fixed((scale * PARTS) as u64), x, y, w, h);
            let longer = most(icon.0 as int, icon.1 as int);
            let shorter = least(icon.0 as int, icon.1 as int);
            let side = least(w.0 as int, h.0 as int);
            &&& shorter == 0 || side == 0 ==> drawn is None
            &&& shorter > 0 && 7 * side * shorter >= 10 * longer * (PARTS + shorter + 1)
                ==> drawn is Some
            &&& 7 * side * shorter < 10 * longer * PARTS ==> drawn is None
        }),
{
    let parts = PARTS as int;
    let (iw, ih) = (icon.0 as int, icon.1 as int);
    let longer = most(iw, ih);
    let shorter = least(iw, ih);
    let side = least(w.0 as int, h.0 as int);
    let fit = w.spec_lesser(h).spec_times(ratio(7, 10));
    assert(ratio::<Fixed>(7, 10) == Fixed(700_000));
    assert(fit.0 == side * 700_000 / 1_000_000);
    let fw = Fixed::spec_from_u64(icon.0 as u64);
    let fh = Fixed::spec_from_u64(icon.1 as u64);
    assert(fw.0 == iw * parts && fh.0 == ih * parts);
    let one = Fixed::spec_from_u64(1);
    assert(one == Fixed(1_000_000));
    let k = fit.spec_over(fw.spec_greater(fh)).spec_lesser(one);
    if shorter > 0 && side == 0 {
        assert(10 * longer * (parts + shorter + 1) > 0) by (nonlinear_arith)
            requires
                0 < longer,
                0 < shorter,
                0 < parts,
        ;
        assert(7 * side * shorter == 0) by (nonlinear_arith)
            requires
                side == 0,
        ;
    }
    if shorter > 0 && side > 0 {
        let n = k.0 as int;
        assert(fw.spec_greater(fh).0 == longer * parts);
        lemma_over(fit.0 as int, longer);
        assert(n == least(fit.0 as int / longer, parts));
        vstd::arithmetic::div_mod::lemma_fundamental_div_mod(fit.0 as int, longer);
        vstd::arithmetic::div_mod::lemma_mod_bound(fit.0 as int, longer);
        lemma_times(iw, n);
        lemma_times(ih, n);
        assert(longer * n <= fit.0) by (nonlinear_arith)
            requires
                0 < longer,
                n <= fit.0 as int / longer,
                longer * (fit.0 as int / longer) <= fit.0,
        ;
        assert(iw * n <= longer * n && ih * n <= longer * n && shorter * n <= iw * n && shorter * n
            <= ih * n) by (nonlinear_arith)
            requires
                shorter <= iw <= longer,
                shorter <= ih <= longer,
                0 <= n,
        ;
        assert(fw.spec_times(k).0 == iw * n && fh.spec_times(k).0 == ih * n);
        if 7 * side * shorter >= 10 * longer * (parts + shorter + 1) {
            if n == parts {
                assert(shorter * n >= parts) by (nonlinear_arith)
                    requires
                        n == parts,
                        shorter >= 1,
                        parts == 1_000_000,
                ;
            } else {
                assert(longer * n > fit.0 - longer);
                assert(10 * (longer * n) > 7 * side - 10 * (longer + 1));
                assert(shorter * n >= parts) by (nonlinear_arith)
                    requires
                        10 * (longer * n) > 7 * side - 10 * (longer + 1),
                        7 * side * shorter >= 10 * longer * (parts + shorter + 1),
                        0 < shorter <= longer,
                {
                    assert(shorter * (10 * (longer * n)) >= shorter * (7 * side - 10 * (longer
                        + 1)));
                    assert(shorter * (7 * side - 10 * (longer + 1)) == 7 * side * shorter - 10
                        * longer * shorter - 10 * shorter);
                    assert(10 * longer * (parts + shorter + 1) == 10 * longer * parts + 10 * longer
                        * shorter + 10 * longer);
                    assert(shorter * (10 * (longer * n)) >= 10 * longer * parts);
                    assert(shorter * (10 * (longer * n)) == (10 * longer) * (shorter * n));
                    assert((10 * longer) * (shorter * n) >= (10 * longer) * parts);
                }
            }
        }
        if 7 * side * shorter < 10 * longer * parts {
            assert(shorter * n < parts) by (nonlinear_arith)
                requires
                    10 * (longer * n) <= 7 * side,
                    7 * side * shorter < 10 * longer * parts,
                    0 < shorter <= longer,
            {
                assert(shorter * (10 * (longer * n)) <= shorter * (7 * side));
                assert(shorter * (7 * side) == 7 * side * shorter);
                assert(shorter * (10 * (longer * n)) == (10 * longer) * (shorter * n));
                assert((10 * longer) * (shorter * n) < (10 * longer) * parts);
            }
        }
    }
}

/// The icon of a tile is that of its application, and lies in the middle of what
/// is drawn of the tile.
pub proof fn icons_are_those_of_their_windows(
    style: Style<Fixed>,
    scale: int,
    tile: Area<Fixed>,
    t: Tile<Fixed>,
    clip: Option<Bounds<Fixed>>,
    shape: Shape<Fixed>,
)
    requires
        0 < scale <= u32::MAX,
        tile_shape(style, Fixed((scale * PARTS) as u64), tile, t, clip) == Some(shape),
        (shape.x.0 + shape.w.0) * scale <= u64::MAX,
        (shape.y.0 + shape.h.0) * scale <= u64::MAX,
    ensures
        shape.icon matches Some(icon) ==> {
            &&& style.show_icons
            &&& t.app_id == Some(icon.app_id)
            &&& style.icons.known()[icon.app_id@] matches Some(image) && lies_in_the_middle(
                dimensions(image),
                icon.blit,
                scale,
                shape.x,
                shape.y,
                shape.w,
                shape.h,
            )
        },
        !style.show_icons ==> shape.icon is None,
{
    if let Some(icon) = shape.icon {
        let image = style.icons.known()[icon.app_id@]->0;
        icons_lie_in_their_tiles(
            dimensions(image),
            scale,
            shape.x,
            shape.y,
            shape.w,
            shape.h,
        );
    }
}

/// An icon with a side of more than 128 pixels is made smaller until its longer
/// side has 128, in its proportions, to the nearest pixel; others are left alone.
/// This is so up to half a million pixels, where rounding begins to tell.
pub proof fn large_icons_keep_their_proportions(size: (u32, u32))
    requires
        most(size.0 as int, size.1 as int) <= 500_000,
        size.0 > 0 && size.1 > 0,
    ensures
        ({
            let (w, h) = (size.0 as int, size.1 as int);
            let longer = most(w, h);
            match shrunk::<Fixed>(size) {
                Some(s) => {
                    &&& longer > 128
                    &&& 1 <= s.w <= 128 && 1 <= s.h <= 128
                    &&& w == longer ==> s.w == 128
                    &&& h == longer ==> s.h == 128
                    &&& s.w > 1 ==> -longer <= s.w * longer - 128 * w <= longer
                    &&& s.h > 1 ==> -longer <= s.h * longer - 128 * h <= longer
                    &&& s.w == 1 ==> 128 * w <= 2 * longer
                    &&& s.h == 1 ==> 128 * h <= 2 * longer
                    &&& s.k.0 * longer <= 128 * PARTS < (s.k.0 + 1) * longer
                },
                None => longer <= 128,
            }
        }),
{
    let parts = PARTS as int;
    let (w, h) = (size.0 as int, size.1 as int);
    let longer = most(w, h);
    assert(Fixed::spec_from_u64(128) == Fixed(128_000_000));
    assert(Fixed::spec_from_u64(1) == Fixed(1_000_000));
    if longer > 128 {
        let k = 128 * parts / longer;
        lemma_over(128 * parts, longer);
        vstd::arithmetic::div_mod::lemma_fundamental_div_mod(128 * parts, longer);
        vstd::arithmetic::div_mod::lemma_mod_bound(128 * parts, longer);
        assert(longer * k + 128 * parts % longer == 128 * parts);
        assert(0 <= k < parts) by (nonlinear_arith)
            requires
                longer * k <= 128 * parts,
                longer * k > 128 * parts - longer,
                longer > 128,
                parts == 1_000_000,
        ;
        let s = shrunk::<Fixed>(size)->0;
        assert(s.k.0 == k);
        assert(k * longer == longer * k) by (nonlinear_arith);
        assert((k + 1) * longer == k * longer + longer) by (nonlinear_arith);
        lemma_shrunk_side(w, longer, k);
        lemma_shrunk_side(h, longer, k);
        lemma_times(w, k);
        lemma_times(h, k);
        assert(Fixed::spec_from_u64(size.0 as u64).spec_times(s.k).0 == w * k);
        assert(Fixed::spec_from_u64(size.1 as u64).spec_times(s.k).0 == h * k);
        let rw = (w * k + PARTS / 2) / PARTS as int;
        let rh = (h * k + PARTS / 2) / PARTS as int;
        assert(Fixed((w * k) as u64).spec_round().0 == rw * parts);
        assert(Fixed((h * k) as u64).spec_round().0 == rh * parts);
        assert(s.w == most(rw, 1));
        assert(s.h == most(rh, 1));
        assert(1 * longer == longer && 0 * longer == 0);
        assert(rw <= 1 ==> rw * longer <= longer) by (nonlinear_arith)
            requires
                0 < longer,
        ;
        assert(rh <= 1 ==> rh * longer <= longer) by (nonlinear_arith)
            requires
                0 < longer,
        ;
    }
}

proof fn lemma_shrunk_side(side: int, longer: int, k: int)
    requires
        0 < side <= longer <= 500_000,
        longer * k <= 128 * PARTS,
        longer * k > 128 * PARTS - longer,
        0 <= k,
    ensures
        ({
            let r = (side * k + PARTS / 2) / PARTS as int;
            &&& 0 <= side * k <= 128 * PARTS
            &&& 0 <= r <= 128
            &&& side == longer ==> r == 128
            &&& -longer <= r * longer - 128 * side <= longer
        }),
{
    let parts = PARTS as int;
    let r = (side * k + parts / 2) / parts;
    assert(0 <= side * k <= longer * k) by (nonlinear_arith)
        requires
            0 < side <= longer,
            0 <= k,
    ;
    assert(r * parts <= side * k + 500_000 < r * parts + parts);
    assert(r * longer * parts <= 128 * side * parts + 500_000 * longer) by (nonlinear_arith)
        requires
            r * parts <= side * k + 500_000,
            longer * k <= 128 * parts,
            0 < side,
            0 < longer,
    {
        assert(longer * (r * parts) <= longer * (side * k + 500_000));
        assert(longer * (side * k) == side * (longer * k));
        assert(side * (longer * k) <= side * (128 * parts));
        assert(longer * (r * parts) == r * longer * parts);
        assert(side * (128 * parts) == 128 * side * parts);
    }
    assert(r * longer * parts >= 128 * side * parts - side * longer - 500_000 * longer)
        by (nonlinear_arith)
        requires
            r * parts > side * k + 500_000 - parts,
            longer * k > 128 * parts - longer,
            parts == 1_000_000,
            0 < side,
            0 < longer,
    {
        assert(longer * (r * parts) >= longer * (side * k - 500_000));
        assert(longer * (side * k) == side * (longer * k));
        assert(side * (longer * k) >= side * (128 * parts - longer));
        assert(longer * (r * parts) == r * longer * parts);
        assert(side * (128 * parts - longer) == 128 * side * parts - side * longer);
    }
    assert(side * longer <= 500_000 * longer) by (nonlinear_arith)
        requires
            0 < side <= 500_000,
            0 < longer,
    ;
}

/// A vector icon is drawn into whole pixels: those that hold all of it, or 128
/// where it is larger, and it is scaled to fill them.
pub proof fn vector_icons_fill_their_canvas(width: Fixed, height: Fixed)
    ensures
        match canvas(width, height) {
            Some(c) => {
                &&& width.0 > 0 && height.0 > 0
                &&& 1 <= c.w <= 128 && 1 <= c.h <= 128
                &&& is_canvas_side(width.0 as int, c.w as int, c.sx.0 as int)
                &&& is_canvas_side(height.0 as int, c.h as int, c.sy.0 as int)
            },
            None => width.0 == 0 || height.0 == 0,
        },
{
    assert(Fixed::spec_from_u64(128) == Fixed(128_000_000));
    assert(Fixed::spec_from_u64(1) == Fixed(1_000_000));
    if width.0 > 0 && height.0 > 0 {
        lemma_canvas_side(width);
        lemma_canvas_side(height);
    }
}

/// Whether `pixels` are the whole pixels for a side of this length, and `factor`
/// scales it to them, but for rounding.
pub open spec fn is_canvas_side(side: int, pixels: int, factor: int) -> bool {
    &&& if side <= 128 * PARTS {
        side <= pixels * PARTS < side + PARTS
    } else {
        pixels == 128
    }
    &&& factor * side <= pixels * PARTS * PARTS < (factor + 1) * side
}

proof fn lemma_canvas_side(side: Fixed)
    requires
        side.0 > 0,
    ensures
        ({
            let pixels = canvas_side(side);
            let factor = Fixed::spec_from_u64(pixels as u64).spec_over(side);
            1 <= pixels <= 128 && is_canvas_side(side.0 as int, pixels as int, factor.0 as int)
        }),
{
    let parts = PARTS as int;
    assert(Fixed::spec_from_u64(128) == Fixed(128_000_000));
    assert(Fixed::spec_from_u64(1) == Fixed(1_000_000));
    let pixels = canvas_side(side);
    assert(1 <= pixels <= 128);
    let all = pixels * parts * parts;
    vstd::arithmetic::div_mod::lemma_fundamental_div_mod(all, side.0 as int);
    vstd::arithmetic::div_mod::lemma_mod_bound(all, side.0 as int);
    let q = all / side.0 as int;
    assert(0 <= q <= all) by (nonlinear_arith)
        requires
            side.0 * q <= all,
            side.0 * q > all - side.0,
            side.0 > 0,
            all >= 0,
    ;
    assert(q * side.0 == side.0 * q) by (nonlinear_arith);
    assert((q + 1) * side.0 == q * side.0 + side.0) by (nonlinear_arith);
    assert(Fixed::spec_from_u64(pixels as u64).spec_over(side).0 == q);
}

} // verus!
