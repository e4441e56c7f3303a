//! What the shapes of the picture look like: their colours, borders and corners,
//! and the bytes that they end up as.

use vstd::prelude::*;
use crate::config::{colors_read_back, named_color, push_hex, AppearanceConfig};
use crate::drawn::least;
use crate::layout::Tile;
use crate::render::{background, highlight_color, outline, swapped, tile_shape, Area, Bounds, Color,
    Segment, Shape, Style};
use crate::scalar::{ratio, Fixed, Scalar, PARTS};

verus! {

/// A colour written as `#rrggbb` is read as those parts of full red, green and
/// blue, of which there are 255 each.
pub proof fn colors_are_parts_of_full(name: Seq<char>, r: u8, g: u8, b: u8)
    requires
        vstd::utf8::encode_utf8(name) == seq![0x23u8] + push_hex(
            push_hex(push_hex(Seq::empty(), r), g),
            b,
        ),
    ensures
        named_color::<Fixed>(name) == Some(
            (
                Fixed((r * PARTS / 255) as u64),
                Fixed((g * PARTS / 255) as u64),
                Fixed((b * PARTS / 255) as u64),
            ),
        ),
{
    colors_read_back(r, g, b);
    lemma_ratio(r as u64);
    lemma_ratio(g as u64);
    lemma_ratio(b as u64);
}

proof fn lemma_ratio(v: u64)
    requires
        v <= 255,
    ensures
        ratio::<Fixed>(v, 255) == Fixed((v * PARTS / 255) as u64),
{
    assert(Fixed::spec_from_u64(255) == Fixed(255_000_000));
    assert(v * PARTS * PARTS / 255_000_000 == v * PARTS / 255);
}

/// Whether a colour is the one that is named, with this opacity, but no more
/// than opaque.
pub open spec fn is_color(color: Color<Fixed>, name: Seq<char>, opacity: int) -> bool {
    &&& named_color::<Fixed>(name) == Some((color.r, color.g, color.b))
    &&& color.a.0 == least(opacity, PARTS as int)
}

/// A tile is filled with the colour and the opacity of focused windows where its
/// window has the focus, and with those of the others where not; it is not filled
/// where that opacity is nothing, or where no colour is named. Its border is that
/// of the window that had the focus last, or that of the others; it is opaque, and
/// left out where it has no width.
pub proof fn tiles_look_like_their_windows(
    style: Style<Fixed>,
    scale: Fixed,
    tile: Area<Fixed>,
    t: Tile<Fixed>,
    clip: Option<Bounds<Fixed>>,
    shape: Shape<Fixed>,
)
    requires
        tile_shape(style, scale, tile, t, clip) == Some(shape),
    ensures
        ({
            let cfg = *style.cfg;
            let fill_name = if t.focused {
                cfg.focused_color@
            } else {
                cfg.window_color@
            };
            let opacity = if t.focused {
                cfg.focused_opacity.0 as int
            } else {
                cfg.window_opacity.0 as int
            };
            let border_name = if t.is_last_focused {
                cfg.active_window_border_color@
            } else {
                cfg.border_color@
            };
            let border_width = if t.is_last_focused {
                cfg.active_window_border_width.0
            } else {
                cfg.border_width.0
            };
            &&& shape.radius == cfg.border_radius
            &&& match shape.fill {
                Some(color) => opacity > 0 && is_color(color, fill_name, opacity),
                None => opacity == 0 || named_color::<Fixed>(fill_name) is None,
            }
            &&& match shape.border {
                Some(border) => border_width > 0 && border.width.0 == border_width && is_color(
                    border.color,
                    border_name,
                    PARTS as int,
                ),
                None => border_width == 0 || named_color::<Fixed>(border_name) is None,
            }
        }),
{
    assert(Fixed::spec_from_u64(1) == Fixed(1_000_000));
}

/// The background covers the widget in its colour and opacity. There is none where
/// it is transparent, or where no colour is named.
pub proof fn backgrounds_cover_the_widget(
    cfg: AppearanceConfig<Fixed>,
    log_w: Fixed,
    log_h: Fixed,
)
    ensures
        ({
            let shapes = background(cfg, log_w, log_h);
            if cfg.background_opacity.0 > 0 && named_color::<Fixed>(cfg.background@) is Some {
                &&& shapes.len() == 1
                &&& shapes[0].x.0 == 0 && shapes[0].y.0 == 0
                &&& shapes[0].w == log_w && shapes[0].h == log_h
                &&& shapes[0].border is None && shapes[0].icon is None
                &&& shapes[0].radius == cfg.border_radius
                &&& shapes[0].fill matches Some(color) && is_color(
                    color,
                    cfg.background@,
                    cfg.background_opacity.0 as int,
                )
            } else {
                shapes.len() == 0
            }
        }),
{
    assert(Fixed::spec_from_u64(1) == Fixed(1_000_000));
}

/// The frame of an active workspace is opaque, in the colour that is named, or in
/// a light blue where none is.
pub proof fn frames_of_workspaces_are_opaque(name: Seq<char>)
    ensures
        highlight_color::<Fixed>(name).a.0 == PARTS,
        match named_color::<Fixed>(name) {
            Some(rgb) => is_color(highlight_color::<Fixed>(name), name, PARTS as int),
            None => {
                let color = highlight_color::<Fixed>(name);
                color.r.0 == 540_000 && color.g.0 == 710_000 && color.b.0 == 980_000
            },
        },
{
    assert(Fixed::spec_from_u64(1) == Fixed(1_000_000));
    assert(ratio::<Fixed>(54, 100) == Fixed(540_000));
    assert(ratio::<Fixed>(71, 100) == Fixed(710_000));
    assert(ratio::<Fixed>(98, 100) == Fixed(980_000));
}

/// The points of a stroke, its end last.
pub open spec fn points(s: Segment<Fixed>) -> Seq<(int, int)> {
    match s {
        Segment::MoveTo(x, y) => seq![(x.0 as int, y.0 as int)],
        Segment::LineTo(x, y) => seq![(x.0 as int, y.0 as int)],
        Segment::QuadTo(cx, cy, x, y) => seq![
            (cx.0 as int, cy.0 as int),
            (x.0 as int, y.0 as int),
        ],
        Segment::Rect => Seq::empty(),
        Segment::Close => Seq::empty(),
    }
}

/// How far a radius can go: half of either side at most.
pub open spec fn corner(w: Fixed, h: Fixed, radius: Fixed) -> int {
    least(radius.0 as int, least(w.0 as int / 2, h.0 as int / 2))
}

/// The outline of a rectangle goes once round it: with corners to speak of, it
/// runs along all four sides, from `corner` behind one end to `corner` before the
/// other, and turns at each corner of the rectangle; without, it is the rectangle.
pub proof fn outlines_go_round(x: Fixed, y: Fixed, w: Fixed, h: Fixed, radius: Fixed)
    requires
        x.0 + w.0 <= u64::MAX,
        y.0 + h.0 <= u64::MAX,
    ensures
        ({
            let path = outline(x, y, w, h, radius);
            let r = corner(w, h, radius);
            let (left, top) = (x.0 as int, y.0 as int);
            let (right, bottom) = (x.0 + w.0, y.0 + h.0);
            &&& path.len() > 0 && path.last() is Close
            &&& if r <= 1_000 {
                path.len() == 2 && path[0] is Rect
            } else {
                &&& path.len() == 10
                &&& path[0] is MoveTo && points(path[0]) == seq![(left + r, top)]
                &&& path[1] is LineTo && points(path[1]) == seq![(right - r, top)]
                &&& points(path[2]) == seq![(right, top), (right, top + r)]
                &&& path[3] is LineTo && points(path[3]) == seq![(right, bottom - r)]
                &&& points(path[4]) == seq![(right, bottom), (right - r, bottom)]
                &&& path[5] is LineTo && points(path[5]) == seq![(left + r, bottom)]
                &&& points(path[6]) == seq![(left, bottom), (left, bottom - r)]
                &&& path[7] is LineTo && points(path[7]) == seq![(left, top + r)]
                &&& points(path[8]) == seq![(left, top), (left + r, top)]
            }
        }),
{
    let two = Fixed::spec_from_u64(2);
    assert(two == Fixed(2_000_000));
    assert(w.0 * PARTS / 2_000_000 == w.0 as int / 2);
    assert(h.0 * PARTS / 2_000_000 == h.0 as int / 2);
    assert(ratio::<Fixed>(1, 1000) == Fixed(1_000));
    let r = radius.spec_lesser(w.spec_over(two)).spec_lesser(h.spec_over(two)).spec_greater(
        Fixed::spec_from_u64(0),
    );
    assert(r.0 == corner(w, h, radius));
}

/// A pixel of red, green, blue and alpha becomes one of blue, green, red and
/// alpha, in its place.
pub proof fn red_and_blue_change_places(s: Seq<u8>, pixel: int)
    requires
        0 <= pixel,
        4 * pixel + 4 <= s.len(),
    ensures
        swapped(s).len() == s.len(),
        swapped(s)[4 * pixel] == s[4 * pixel + 2],
        swapped(s)[4 * pixel + 1] == s[4 * pixel + 1],
        swapped(s)[4 * pixel + 2] == s[4 * pixel],
        swapped(s)[4 * pixel + 3] == s[4 * pixel + 3],
{
}

} // verus!
