//! The picture of the minimap, and the frame that it is painted into.

use vstd::prelude::*;
use crate::config::{named_color, parse_hex, AppearanceConfig};
use crate::icons::{draw_icon, lemma_asked_in_turn, lemma_nothing_asked, looked_for, placed_icon,
    Blit, IconCache};
use crate::layout::{Row, RowModel, Tile};
use crate::pixmap::{self, byte_count, dimensions, pixels};
use crate::scalar::{clamp, clamped, fraction, ratio, Px, Scalar, Wide};
use crate::text::same_text;
use tiny_skia::Pixmap;

verus! {

/// Four bytes to a pixel, the first and the third exchanged: RGBA to BGRA and
/// back. Bytes that make no whole pixel stay.
pub open spec fn swapped(s: Seq<u8>) -> Seq<u8> {
    Seq::new(
        s.len(),
        |i: int|
            if i / 4 * 4 + 4 > s.len() {
                s[i]
            } else if i % 4 == 0 {
                s[i + 2]
            } else if i % 4 == 2 {
                s[i - 2]
            } else {
                s[i]
            },
    )
}

/// Exchanges the first and the third byte of each pixel.
fn swap_channels(data: &mut Vec<u8>)
    ensures
        final(data)@ == swapped(old(data)@),
{
    let n: usize = data.len() / 4;
    let mut k: usize = 0;
    while k < n
        invariant
            n == old(data)@.len() / 4,
            4 * n <= usize::MAX,
            k <= n,
            data@.len() == old(data)@.len(),
            forall|i: int| 0 <= i < 4 * k ==> #[trigger] data@[i] == swapped(old(data)@)[i],
            forall|i: int| 4 * k <= i < data@.len() ==> #[trigger] data@[i] == old(data)@[i],
        decreases n - k,
    {
        let a: u8 = data[4 * k];
        let b: u8 = data[4 * k + 2];
        data[4 * k] = b;
        data[4 * k + 2] = a;
        k = k + 1;
    }
    assert(data@ =~= swapped(old(data)@));
}

/// Exchanging the channels twice changes nothing.
pub proof fn swapping_twice_restores(s: Seq<u8>)
    ensures
        swapped(swapped(s)) == s,
{
    assert(swapped(swapped(s)) =~= s);
}

/// Whether a frame is a blank image of this size.
pub open spec fn is_blank_frame(p: Pixmap, w: u32, h: u32) -> bool {
    &&& dimensions(p) == (w, h)
    &&& pixels(p) == Seq::new(byte_count(w, h) as nat, |i: int| 0u8)
}

/// Whether a frame of this size can be held.
pub open spec fn frame_fits(w: u32, h: u32) -> bool {
    0 < w <= crate::pixmap::MAX_WIDTH && 0 < h && byte_count(w, h) <= u32::MAX
}

/// A blank frame in the memory of `scratch`, whatever was painted there before.
fn blank_frame(scratch: &mut Vec<u8>, w: u32, h: u32) -> (r: Option<Pixmap>)
    ensures
        r is Some <==> frame_fits(w, h),
        r matches Some(p) ==> is_blank_frame(p, w, h) && final(scratch)@.len() == 0,
        byte_count(w, h) > u32::MAX ==> final(scratch)@ == old(scratch)@,
        byte_count(w, h) <= u32::MAX ==> final(scratch)@.len() == 0,
{
    let area: u32 = match w.checked_mul(h) {
        Some(area) => area,
        None => {
            return None;
        },
    };
    let len: u32 = match area.checked_mul(4) {
        Some(len) => len,
        None => {
            return None;
        },
    };
    let mut data: Vec<u8> = Vec::new();
    std::mem::swap(scratch, &mut data);
    data.clear();
    data.resize(len as usize, 0);
    assert(data@ =~= Seq::new(byte_count(w, h) as nat, |i: int| 0u8));
    pixmap::from_vec(data, w, h)
}

/// Space around the content of the widget in logical pixels.
pub const PADDING: u64 = 4;

/// The row of one workspace in the stacked view.
pub struct RowView<S> {
    pub is_active: bool,
    pub row: Row<S>,
}

/// A colour with its opacity, in fractions.
pub struct Color<N> {
    pub r: N,
    pub g: N,
    pub b: N,
    pub a: N,
}

/// A line around a shape.
pub struct Border<N> {
    pub color: Color<N>,
    pub width: N,
}

/// The icon of an application, and how it is drawn.
pub struct Icon<N> {
    pub app_id: String,
    pub blit: Blit<N>,
}

/// One part of the picture: a rectangle with rounded corners (logical pixels),
/// first filled, then given its border, then its icon.
pub struct Shape<N> {
    pub x: N,
    pub y: N,
    pub w: N,
    pub h: N,
    pub radius: N,
    pub fill: Option<Color<N>>,
    pub border: Option<Border<N>>,
    pub icon: Option<Icon<N>>,
}

/// A rectangle by its edges.
pub struct Bounds<N> {
    pub left: N,
    pub top: N,
    pub right: N,
    pub bottom: N,
}

/// A stroke of a path.
pub enum Segment<N> {
    /// The whole rectangle.
    Rect,
    MoveTo(N, N),
    LineTo(N, N),
    /// A curve by its control point and its end.
    QuadTo(N, N, N, N),
    Close,
}

/// The outline of a rectangle whose corners are rounded by `radius`, as far as
/// the sides allow.
pub open spec fn outline<N: Scalar>(x: N, y: N, w: N, h: N, radius: N) -> Seq<Segment<N>> {
    let two = N::spec_from_u64(2);
    let r = radius.spec_lesser(w.spec_over(two)).spec_lesser(h.spec_over(two)).spec_greater(
        N::spec_from_u64(0),
    );
    let right = x.spec_plus(w);
    let bottom = y.spec_plus(h);
    if r.spec_up_to(ratio(1, 1000)) {
        seq![Segment::Rect, Segment::Close]
    } else {
        seq![
            Segment::MoveTo(x.spec_plus(r), y),
            Segment::LineTo(right.spec_minus(r), y),
            Segment::QuadTo(right, y, right, y.spec_plus(r)),
            Segment::LineTo(right, bottom.spec_minus(r)),
            Segment::QuadTo(right, bottom, right.spec_minus(r), bottom),
            Segment::LineTo(x.spec_plus(r), bottom),
            Segment::QuadTo(x, bottom, x, bottom.spec_minus(r)),
            Segment::LineTo(x, y.spec_plus(r)),
            Segment::QuadTo(x, y, x.spec_plus(r), y),
            Segment::Close,
        ]
    }
}

/// The outline of a rectangle with rounded corners.
pub fn rounded_rect<N: Scalar>(x: N, y: N, w: N, h: N, radius: N) -> (r: Vec<Segment<N>>)
    ensures
        r@ == outline(x, y, w, h, radius),
{
    let two = N::from_u64(2);
    let r = radius.lesser(w.over(two)).lesser(h.over(two)).greater(N::from_u64(0));
    let right = x.plus(w);
    let bottom = y.plus(h);
    let mut path: Vec<Segment<N>> = Vec::new();
    if r.up_to(fraction(1, 1000)) {
        path.push(Segment::Rect);
    } else {
        path.push(Segment::MoveTo(x.plus(r), y));
        path.push(Segment::LineTo(right.minus(r), y));
        path.push(Segment::QuadTo(right, y, right, y.plus(r)));
        path.push(Segment::LineTo(right, bottom.minus(r)));
        path.push(Segment::QuadTo(right, bottom, right.minus(r), bottom));
        path.push(Segment::LineTo(x.plus(r), bottom));
        path.push(Segment::QuadTo(x, bottom, x, bottom.minus(r)));
        path.push(Segment::LineTo(x, y.plus(r)));
        path.push(Segment::QuadTo(x, y, x.plus(r), y));
    }
    path.push(Segment::Close);
    assert(path@ =~= outline(x, y, w, h, radius));
    path
}

/// The scale that icons are drawn in, for the vertical scale of the buffer.
pub fn scale_of<N: Scalar>(sy: N) -> (r: N)
    ensures
        r == spec_scale_of(sy),
{
    if N::from_u64(0).below(sy) {
        sy
    } else {
        N::from_u64(1)
    }
}

pub open spec fn spec_scale_of<N: Scalar>(sy: N) -> N {
    if N::spec_from_u64(0).spec_below(sy) {
        sy
    } else {
        N::spec_from_u64(1)
    }
}

/// A colour with its opacity kept between 0 and 1.
pub open spec fn paint<N: Scalar>(rgb: (N, N, N), a: N) -> Color<N> {
    Color {
        r: rgb.0,
        g: rgb.1,
        b: rgb.2,
        a: clamped(a, N::spec_from_u64(0), N::spec_from_u64(1)),
    }
}

fn set_paint_color<N: Scalar>(rgb: (N, N, N), a: N) -> (r: Color<N>)
    ensures
        r == paint(rgb, a),
{
    Color { r: rgb.0, g: rgb.1, b: rgb.2, a: clamp(a, N::from_u64(0), N::from_u64(1)) }
}

/// A rectangle whose sides are at least 1.
pub open spec fn at_least_a_pixel<N: Scalar>(x: N, y: N, w: N, h: N) -> Bounds<N> {
    let one = N::spec_from_u64(1);
    Bounds {
        left: x,
        top: y,
        right: w.spec_greater(one).spec_plus(x),
        bottom: h.spec_greater(one).spec_plus(y),
    }
}

fn rect_min<N: Scalar>(x: N, y: N, w: N, h: N) -> (r: Bounds<N>)
    ensures
        r == at_least_a_pixel(x, y, w, h),
{
    let one = N::from_u64(1);
    Bounds { left: x, top: y, right: w.greater(one).plus(x), bottom: h.greater(one).plus(y) }
}

/// A rectangle by its corner and its sides.
pub struct Area<N> {
    pub x: N,
    pub y: N,
    pub w: N,
    pub h: N,
}

/// The rectangle of a tile: inset by half the gap between tiles but at least a
/// pixel large, and cut off at `clip`. Nothing, where all of it is cut off.
pub open spec fn tile_area<N: Scalar>(
    tile: Area<N>,
    half_gap: N,
    clip: Option<Bounds<N>>,
) -> Option<Area<N>> {
    let zero = N::spec_from_u64(0);
    let one = N::spec_from_u64(1);
    let inset = half_gap.spec_times(N::spec_from_u64(2));
    let x = tile.x.spec_plus(half_gap);
    let y = tile.y.spec_plus(half_gap);
    let w = tile.w.spec_minus(inset).spec_greater(one);
    let h = tile.h.spec_minus(inset).spec_greater(one);
    match clip {
        None => Some(Area { x, y, w, h }),
        Some(c) => {
            let nx = x.spec_greater(c.left);
            let ny = y.spec_greater(c.top);
            let nw = x.spec_plus(w).spec_lesser(c.right).spec_minus(nx);
            let nh = y.spec_plus(h).spec_lesser(c.bottom).spec_minus(ny);
            if nw.spec_up_to(zero) || nh.spec_up_to(zero) {
                None
            } else {
                Some(Area { x: nx, y: ny, w: nw, h: nh })
            }
        },
    }
}

fn fit_tile<N: Scalar>(tile: Area<N>, half_gap: N, clip: &Option<Bounds<N>>) -> (r: Option<Area<N>>)
    ensures
        r == tile_area(tile, half_gap, *clip),
{
    let zero = N::from_u64(0);
    let one = N::from_u64(1);
    let inset = half_gap.times(N::from_u64(2));
    let x = tile.x.plus(half_gap);
    let y = tile.y.plus(half_gap);
    let w = tile.w.minus(inset).greater(one);
    let h = tile.h.minus(inset).greater(one);
    match clip {
        None => Some(Area { x, y, w, h }),
        Some(c) => {
            let nx = x.greater(c.left);
            let ny = y.greater(c.top);
            let nw = x.plus(w).lesser(c.right).minus(nx);
            let nh = y.plus(h).lesser(c.bottom).minus(ny);
            if nw.up_to(zero) || nh.up_to(zero) {
                None
            } else {
                Some(Area { x: nx, y: ny, w: nw, h: nh })
            }
        },
    }
}

/// What a tile is filled with: the colour of focused windows or that of the
/// others, unless it is transparent or no colour.
pub open spec fn tile_fill<S: Wide>(
    cfg: AppearanceConfig<S>,
    focused: bool,
) -> Option<Color<S::Narrow>> {
    let name = if focused {
        cfg.focused_color@
    } else {
        cfg.window_color@
    };
    let alpha = if focused {
        cfg.focused_opacity.spec_narrow()
    } else {
        cfg.window_opacity.spec_narrow()
    };
    match named_color::<S::Narrow>(name) {
        Some(rgb) => if <S::Narrow as Scalar>::spec_from_u64(0).spec_below(alpha) {
            Some(paint(rgb, alpha))
        } else {
            None
        },
        None => None,
    }
}

fn fill_of<S: Wide>(cfg: &AppearanceConfig<S>, focused: bool) -> (r: Option<Color<S::Narrow>>)
    ensures
        r == tile_fill(*cfg, focused),
{
    let name: &str = if focused {
        cfg.focused_color.as_str()
    } else {
        cfg.window_color.as_str()
    };
    let alpha: S::Narrow = if focused {
        cfg.focused_opacity.narrow()
    } else {
        cfg.window_opacity.narrow()
    };
    if !<S::Narrow as Scalar>::from_u64(0).below(alpha) {
        return None;
    }
    match parse_hex::<S::Narrow>(name) {
        Some(rgb) => Some(set_paint_color(rgb, alpha)),
        None => None,
    }
}

/// A border of this width and colour, unless it has no width or no colour.
pub open spec fn border_of<S: Wide>(name: Seq<char>, width: S) -> Option<Border<S::Narrow>> {
    match named_color::<S::Narrow>(name) {
        Some(rgb) => if S::spec_from_u64(0).spec_below(width) {
            Some(
                Border {
                    color: paint(rgb, <S::Narrow as Scalar>::spec_from_u64(1)),
                    width: width.spec_narrow(),
                },
            )
        } else {
            None
        },
        None => None,
    }
}

fn make_border<S: Wide>(name: &str, width: S) -> (r: Option<Border<S::Narrow>>)
    ensures
        r == border_of(name@, width),
{
    if !S::from_u64(0).below(width) {
        return None;
    }
    match parse_hex::<S::Narrow>(name) {
        Some(rgb) => Some(
            Border {
                color: set_paint_color(rgb, <S::Narrow as Scalar>::from_u64(1)),
                width: width.narrow(),
            },
        ),
        None => None,
    }
}

/// The border of a tile: the window that had the focus last gets its own.
pub open spec fn tile_border<S: Wide>(
    cfg: AppearanceConfig<S>,
    is_last_focused: bool,
) -> Option<Border<S::Narrow>> {
    if is_last_focused {
        border_of(cfg.active_window_border_color@, cfg.active_window_border_width)
    } else {
        border_of(cfg.border_color@, cfg.border_width)
    }
}

/// The icon of a tile, in icon mode.
pub open spec fn tile_icon<N: Scalar>(
    app_id: Option<String>,
    known: Map<Seq<char>, Option<Pixmap>>,
    scale: N,
    area: Area<N>,
) -> Option<Icon<N>> {
    match app_id {
        Some(id) => if known.contains_key(id@) && known[id@] is Some {
            match placed_icon(
                dimensions(known[id@]->0),
                scale,
                area.x,
                area.y,
                area.w,
                area.h,
            ) {
                Some(blit) => Some(Icon { app_id: id, blit }),
                None => None,
            }
        } else {
            None
        },
        None => None,
    }
}

fn icon_of<N: Scalar, L: Fn(&str) -> Option<Pixmap>>(
    app_id: &Option<String>,
    icons: &mut IconCache,
    look_up: &L,
    scale: N,
    area: &Area<N>,
) -> (r: Option<Icon<N>>)
    requires
        forall|id: &str| #[trigger] look_up.requires((id,)),
    ensures
        looked_for(
            *old(icons),
            match *app_id {
                Some(id) => set![id@],
                None => Set::empty(),
            },
            *look_up,
            *final(icons),
        ),
        r == tile_icon(*app_id, final(icons).known(), scale, *area),
{
    match app_id {
        Some(id) => {
            icons.resolve_into(id.as_str(), look_up);
            match icons.get(id.as_str()) {
                Some(icon) => match draw_icon(icon, scale, area.x, area.y, area.w, area.h) {
                    Some(blit) => Some(Icon { app_id: id.clone(), blit }),
                    None => None,
                },
                None => None,
            }
        },
        None => {
            proof {
                lemma_nothing_asked(*icons, *look_up);
            }
            None
        },
    }
}

/// What all tiles of a picture share.
pub struct Style<'a, S> {
    pub cfg: &'a AppearanceConfig<S>,
    pub icons: &'a IconCache,
    /// Draw icons.
    pub show_icons: bool,
}

/// The shape of a tile whose rectangle in the widget is `tile`.
pub open spec fn tile_shape<S: Wide>(
    style: Style<S>,
    scale: S::Narrow,
    tile: Area<S::Narrow>,
    t: Tile<S>,
    clip: Option<Bounds<S::Narrow>>,
) -> Option<Shape<S::Narrow>> {
    let half_gap = style.cfg.gap.spec_narrow().spec_times(ratio(5, 10));
    match tile_area(tile, half_gap, clip) {
        Some(area) => Some(
            Shape {
                x: area.x,
                y: area.y,
                w: area.w,
                h: area.h,
                radius: style.cfg.border_radius.spec_narrow(),
                fill: tile_fill(*style.cfg, t.focused),
                border: tile_border(*style.cfg, t.is_last_focused),
                icon: if style.show_icons {
                    tile_icon(t.app_id, style.icons.known(), spec_scale_of(scale), area)
                } else {
                    None
                },
            },
        ),
        None => None,
    }
}

/// The application whose icon is needed for a tile: in icon mode, where the tile
/// is drawn.
pub open spec fn tile_ids<S: Wide>(
    cfg: AppearanceConfig<S>,
    show_icons: bool,
    tile: Area<S::Narrow>,
    t: Tile<S>,
    clip: Option<Bounds<S::Narrow>>,
) -> Set<Seq<char>> {
    let half_gap = cfg.gap.spec_narrow().spec_times(ratio(5, 10));
    match t.app_id {
        Some(id) => if show_icons && tile_area(tile, half_gap, clip) is Some {
            set![id@]
        } else {
            Set::empty()
        },
        None => Set::empty(),
    }
}

fn draw_tile<S: Wide, L: Fn(&str) -> Option<Pixmap>>(
    cfg: &AppearanceConfig<S>,
    show_icons: bool,
    icons: &mut IconCache,
    look_up: &L,
    scale: S::Narrow,
    tile: Area<S::Narrow>,
    t: &Tile<S>,
    clip: &Option<Bounds<S::Narrow>>,
) -> (r: Option<Shape<S::Narrow>>)
    requires
        forall|id: &str| #[trigger] look_up.requires((id,)),
    ensures
        looked_for(
            *old(icons),
            tile_ids(*cfg, show_icons, tile, *t, *clip),
            *look_up,
            *final(icons),
        ),
        r == tile_shape(Style { cfg, icons: &*final(icons), show_icons }, scale, tile, *t, *clip),
{
    proof {
        lemma_nothing_asked(*icons, *look_up);
    }
    let half_gap = cfg.gap.narrow().times(fraction(5, 10));
    let area = match fit_tile(tile, half_gap, clip) {
        Some(area) => area,
        None => {
            return None;
        },
    };
    let border = if t.is_last_focused {
        make_border(cfg.active_window_border_color.as_str(), cfg.active_window_border_width)
    } else {
        make_border(cfg.border_color.as_str(), cfg.border_width)
    };
    let icon = if show_icons {
        icon_of(&t.app_id, icons, look_up, scale_of(scale), &area)
    } else {
        None
    };
    Some(
        Shape {
            x: area.x,
            y: area.y,
            w: area.w,
            h: area.h,
            radius: cfg.border_radius.narrow(),
            fill: fill_of(cfg, t.focused),
            border,
            icon,
        },
    )
}

/// Where a tile lies in the widget, with the origin of its workspace at `x0`,
/// `y0`, scaled by `k`.
pub open spec fn mapped<S: Wide>(t: Tile<S>, x0: S::Narrow, y0: S::Narrow, k: S::Narrow) -> Area<
    S::Narrow,
> {
    Area {
        x: x0.spec_plus(t.x.spec_narrow().spec_times(k)),
        y: y0.spec_plus(t.y.spec_narrow().spec_times(k)),
        w: t.w.spec_narrow().spec_times(k),
        h: t.h.spec_narrow().spec_times(k),
    }
}

/// The shapes of some tiles, in their order.
pub open spec fn tile_shapes<S: Wide>(
    style: Style<S>,
    scale: S::Narrow,
    tiles: Seq<Tile<S>>,
    x0: S::Narrow,
    y0: S::Narrow,
    k: S::Narrow,
    clip: Option<Bounds<S::Narrow>>,
) -> Seq<Shape<S::Narrow>>
    decreases tiles.len(),
{
    if tiles.len() == 0 {
        Seq::empty()
    } else {
        let front = tile_shapes(style, scale, tiles.drop_last(), x0, y0, k, clip);
        match tile_shape(style, scale, mapped(tiles.last(), x0, y0, k), tiles.last(), clip) {
            Some(shape) => front.push(shape),
            None => front,
        }
    }
}

/// The applications whose icons are needed for some tiles.
pub open spec fn tiles_ids<S: Wide>(
    cfg: AppearanceConfig<S>,
    show_icons: bool,
    tiles: Seq<Tile<S>>,
    x0: S::Narrow,
    y0: S::Narrow,
    k: S::Narrow,
    clip: Option<Bounds<S::Narrow>>,
) -> Set<Seq<char>>
    decreases tiles.len(),
{
    if tiles.len() == 0 {
        Set::empty()
    } else {
        tiles_ids(cfg, show_icons, tiles.drop_last(), x0, y0, k, clip).union(
            tile_ids(cfg, show_icons, mapped(tiles.last(), x0, y0, k), tiles.last(), clip),
        )
    }
}

/// Whether two styles differ at most in the icons that are known, and what the
/// first knows, the second knows too.
pub open spec fn knows_more<S>(a: Style<S>, b: Style<S>) -> bool {
    &&& *a.cfg == *b.cfg
    &&& a.show_icons == b.show_icons
    &&& forall|id: Seq<char>| #[trigger]
        a.icons.known().contains_key(id) ==> b.icons.known().contains_key(id)
            && b.icons.known()[id] == a.icons.known()[id]
}

/// Tiles whose icons are known are drawn alike, whatever else comes to be known.
proof fn lemma_tiles_settled<S: Wide>(
    a: Style<S>,
    b: Style<S>,
    scale: S::Narrow,
    tiles: Seq<Tile<S>>,
    x0: S::Narrow,
    y0: S::Narrow,
    k: S::Narrow,
    clip: Option<Bounds<S::Narrow>>,
)
    requires
        knows_more(a, b),
        tiles_ids(*a.cfg, a.show_icons, tiles, x0, y0, k, clip).subset_of(
            a.icons.known().dom(),
        ),
    ensures
        tile_shapes(a, scale, tiles, x0, y0, k, clip) == tile_shapes(
            b,
            scale,
            tiles,
            x0,
            y0,
            k,
            clip,
        ),
    decreases tiles.len(),
{
    if tiles.len() > 0 {
        let front = tiles_ids(*a.cfg, a.show_icons, tiles.drop_last(), x0, y0, k, clip);
        let all = tiles_ids(*a.cfg, a.show_icons, tiles, x0, y0, k, clip);
        assert(front.subset_of(all));
        lemma_tiles_settled(a, b, scale, tiles.drop_last(), x0, y0, k, clip);
        if let Some(id) = tiles.last().app_id {
            let t = tiles.last();
            let own = tile_ids(*a.cfg, a.show_icons, mapped(t, x0, y0, k), t, clip);
            if own.contains(id@) {
                assert(all.contains(id@));
                assert(a.icons.known().contains_key(id@));
            }
        }
    }
}

fn draw_tiles<S: Wide, L: Fn(&str) -> Option<Pixmap>>(
    out: &mut Vec<Shape<S::Narrow>>,
    cfg: &AppearanceConfig<S>,
    show_icons: bool,
    icons: &mut IconCache,
    look_up: &L,
    scale: S::Narrow,
    tiles: &[Tile<S>],
    x0: S::Narrow,
    y0: S::Narrow,
    k: S::Narrow,
    clip: &Option<Bounds<S::Narrow>>,
)
    requires
        forall|id: &str| #[trigger] look_up.requires((id,)),
    ensures
        looked_for(
            *old(icons),
            tiles_ids(*cfg, show_icons, tiles@, x0, y0, k, *clip),
            *look_up,
            *final(icons),
        ),
        final(out)@ == old(out)@ + tile_shapes(
            Style { cfg, icons: &*final(icons), show_icons },
            scale,
            tiles@,
            x0,
            y0,
            k,
            *clip,
        ),
{
    let mut i: usize = 0;
    proof {
        lemma_nothing_asked(*icons, *look_up);
    }
    assert(out@ =~= old(out)@ + tile_shapes(
        Style { cfg, icons: &*icons, show_icons },
        scale,
        tiles@.take(0),
        x0,
        y0,
        k,
        *clip,
    ));
    while i < tiles.len()
        invariant
            i <= tiles@.len(),
            looked_for(
                *old(icons),
                tiles_ids(*cfg, show_icons, tiles@.take(i as int), x0, y0, k, *clip),
                *look_up,
                *icons,
            ),
            out@ == old(out)@ + tile_shapes(
                Style { cfg, icons: &*icons, show_icons },
                scale,
                tiles@.take(i as int),
                x0,
                y0,
                k,
                *clip,
            ),
            forall|id: &str| #[trigger] look_up.requires((id,)),
        decreases tiles@.len() - i,
    {
        let t: &Tile<S> = &tiles[i];
        let ghost between = *icons;
        let tile = Area {
            x: x0.plus(t.x.narrow().times(k)),
            y: y0.plus(t.y.narrow().times(k)),
            w: t.w.narrow().times(k),
            h: t.h.narrow().times(k),
        };
        let shape = draw_tile(cfg, show_icons, icons, look_up, scale, tile, t, clip);
        proof {
            let a = Style { cfg, icons: &between, show_icons };
            let b = Style { cfg, icons: &*icons, show_icons };
            let front = tiles@.take(i as int);
            assert(tiles@.take(i + 1).drop_last() =~= front);
            assert(tiles@.take(i + 1).last() == *t);
            lemma_tiles_settled(a, b, scale, front, x0, y0, k, *clip);
            lemma_asked_in_turn(
                *old(icons),
                tiles_ids(*cfg, show_icons, front, x0, y0, k, *clip),
                between,
                tile_ids(*cfg, show_icons, mapped(*t, x0, y0, k), *t, *clip),
                *look_up,
                *icons,
            );
        }
        if let Some(shape) = shape {
            out.push(shape);
        }
        assert(out@ =~= old(out)@ + tile_shapes(
            Style { cfg, icons: &*icons, show_icons },
            scale,
            tiles@.take(i + 1),
            x0,
            y0,
            k,
            *clip,
        ));
        i = i + 1;
    }
    assert(tiles@.take(i as int) =~= tiles@);
}

/// Twice the padding.
pub open spec fn paddings<N: Scalar>() -> N {
    N::spec_from_u64(2).spec_times(N::spec_from_u64(PADDING))
}

/// Whether there is anything to draw of a row, and room for it.
pub open spec fn shows_row<S: Wide>(row: RowModel<S>, log_h: S::Narrow) -> bool {
    let zero = <S::Narrow as Scalar>::spec_from_u64(0);
    let inner_h = log_h.spec_minus(paddings()).spec_greater(zero);
    !(row.tiles.len() == 0 || inner_h.spec_up_to(zero) || row.scale_h().spec_up_to(
        S::spec_from_u64(0),
    ))
}

/// Where the row of one workspace begins, and its scale: as high as the widget,
/// in the middle of its width.
pub open spec fn row_place<S: Wide>(row: RowModel<S>, log_w: S::Narrow, log_h: S::Narrow) -> (
    S::Narrow,
    S::Narrow,
) {
    let zero = <S::Narrow as Scalar>::spec_from_u64(0);
    let padding = <S::Narrow as Scalar>::spec_from_u64(PADDING);
    let inner_h = log_h.spec_minus(paddings()).spec_greater(zero);
    let k = inner_h.spec_over(row.scale_h().spec_narrow());
    let content_w = row.scale_w().spec_narrow().spec_times(k);
    let margin = log_w.spec_minus(paddings()).spec_minus(content_w).spec_greater(zero).spec_over(
        <S::Narrow as Scalar>::spec_from_u64(2),
    );
    (padding.spec_plus(margin), k)
}

/// The picture of one workspace.
pub open spec fn current_picture<S: Wide>(
    style: Style<S>,
    scale: S::Narrow,
    focused: Option<RowModel<S>>,
    log_w: S::Narrow,
    log_h: S::Narrow,
) -> Seq<Shape<S::Narrow>> {
    match focused {
        Some(row) => if shows_row(row, log_h) {
            let (x0, k) = row_place(row, log_w, log_h);
            let y0 = <S::Narrow as Scalar>::spec_from_u64(PADDING);
            tile_shapes(style, scale, row.tiles, x0, y0, k, None)
        } else {
            Seq::empty()
        },
        None => Seq::empty(),
    }
}

/// The applications whose icons are needed for the picture of one workspace.
pub open spec fn current_ids<S: Wide>(
    cfg: AppearanceConfig<S>,
    show_icons: bool,
    focused: Option<RowModel<S>>,
    log_w: S::Narrow,
    log_h: S::Narrow,
) -> Set<Seq<char>> {
    match focused {
        Some(row) => if shows_row(row, log_h) {
            let (x0, k) = row_place(row, log_w, log_h);
            let y0 = <S::Narrow as Scalar>::spec_from_u64(PADDING);
            tiles_ids(cfg, show_icons, row.tiles, x0, y0, k, None)
        } else {
            Set::empty()
        },
        None => Set::empty(),
    }
}

/// The view of a row that may be missing.
pub open spec fn model_of<S>(row: Option<&Row<S>>) -> Option<RowModel<S>> {
    match row {
        Some(row) => Some(row@),
        None => None,
    }
}

fn draw_current<S: Wide, L: Fn(&str) -> Option<Pixmap>>(
    out: &mut Vec<Shape<S::Narrow>>,
    cfg: &AppearanceConfig<S>,
    show_icons: bool,
    icons: &mut IconCache,
    look_up: &L,
    scale: S::Narrow,
    focused: Option<&Row<S>>,
    log_w: S::Narrow,
    log_h: S::Narrow,
)
    requires
        forall|id: &str| #[trigger] look_up.requires((id,)),
    ensures
        looked_for(
            *old(icons),
            current_ids(
                *cfg,
                show_icons,
                model_of(focused),
                log_w,
                log_h,
            ),
            *look_up,
            *final(icons),
        ),
        final(out)@ == old(out)@ + current_picture(
            Style { cfg, icons: &*final(icons), show_icons },
            scale,
            model_of(focused),
            log_w,
            log_h,
        ),
{
    proof {
        lemma_nothing_asked(*icons, *look_up);
    }
    let row: &Row<S> = match focused {
        Some(row) => row,
        None => {
            assert(out@ =~= old(out)@ + Seq::<Shape<S::Narrow>>::empty());
            return;
        },
    };
    let zero = <S::Narrow as Scalar>::from_u64(0);
    let two = <S::Narrow as Scalar>::from_u64(2);
    let padding = <S::Narrow as Scalar>::from_u64(PADDING);
    let paddings = two.times(padding);
    let inner_h = log_h.minus(paddings).greater(zero);
    if !row.has_content() || inner_h.up_to(zero) || row.scale_h().up_to(S::from_u64(0)) {
        assert(out@ =~= old(out)@ + Seq::<Shape<S::Narrow>>::empty());
        return;
    }
    let k = inner_h.over(row.scale_h().narrow());
    let content_w = row.scale_w().narrow().times(k);
    let margin = log_w.minus(paddings).minus(content_w).greater(zero).over(two);
    draw_tiles(
        out,
        cfg,
        show_icons,
        icons,
        look_up,
        scale,
        row.tiles.as_slice(),
        padding.plus(margin),
        padding,
        k,
        &None,
    );
}

/// A row of the stacked view, as a value.
pub struct Line<S> {
    pub is_active: bool,
    pub row: RowModel<S>,
}

/// The rows of the stacked view, as values.
pub open spec fn lines<S>(rows: Seq<RowView<S>>) -> Seq<Line<S>> {
    rows.map_values(|r: RowView<S>| Line { is_active: r.is_active, row: r.row@ })
}

/// The height of the tallest column of tiled windows. Floating windows do not
/// count: dragging one must not resize the rows.
pub open spec fn tallest_tiled<S: Wide>(rows: Seq<RowModel<S>>) -> S::Narrow
    decreases rows.len(),
{
    if rows.len() == 0 {
        <S::Narrow as Scalar>::spec_from_u64(0)
    } else {
        let front = tallest_tiled(rows.drop_last());
        if rows.last().has_tiled() {
            front.spec_greater(rows.last().max_height.spec_narrow())
        } else {
            front
        }
    }
}

/// The one scale of all rows with tiled windows, so that they can be compared.
pub open spec fn shared_scale<S: Wide>(rows: Seq<RowModel<S>>, row_h: S::Narrow) -> S::Narrow {
    let zero = <S::Narrow as Scalar>::spec_from_u64(0);
    if zero.spec_below(tallest_tiled(rows)) {
        row_h.spec_over(tallest_tiled(rows))
    } else {
        zero
    }
}

/// The scale of one row, with the width of its content in that scale: rows
/// without tiled windows are scaled by their own floating windows.
pub open spec fn row_scale<S: Wide>(row: RowModel<S>, k: S::Narrow, row_h: S::Narrow) -> (
    S::Narrow,
    S::Narrow,
) {
    let zero = <S::Narrow as Scalar>::spec_from_u64(0);
    if row.has_tiled() {
        (k, row.total_width.spec_narrow().spec_times(k))
    } else if S::spec_from_u64(0).spec_below(row.float_height) {
        let rk = row_h.spec_over(row.float_height.spec_narrow());
        (rk, row.float_width.spec_narrow().spec_times(rk))
    } else {
        (zero, zero)
    }
}

fn scale_row<S: Wide>(row: &Row<S>, k: S::Narrow, row_h: S::Narrow) -> (r: (S::Narrow, S::Narrow))
    ensures
        r == row_scale(row@, k, row_h),
{
    let zero = <S::Narrow as Scalar>::from_u64(0);
    if row.has_tiled() {
        (k, row.total_width.narrow().times(k))
    } else if S::from_u64(0).below(row.float_height) {
        let rk = row_h.over(row.float_height.narrow());
        (rk, row.float_width.narrow().times(rk))
    } else {
        (zero, zero)
    }
}

/// The colour of the frame around the active workspace.
pub open spec fn highlight_color<N: Scalar>(name: Seq<char>) -> Color<N> {
    let one = N::spec_from_u64(1);
    match named_color::<N>(name) {
        Some(rgb) => paint(rgb, one),
        None => paint((ratio(54, 100), ratio(71, 100), ratio(98, 100)), one),
    }
}

/// The frame around an active workspace: as wide as its content, within the
/// widget.
pub open spec fn highlight<S: Wide>(
    cfg: AppearanceConfig<S>,
    y: S::Narrow,
    content_w: S::Narrow,
    inner_w: S::Narrow,
    row_h: S::Narrow,
) -> Shape<S::Narrow> {
    let one = <S::Narrow as Scalar>::spec_from_u64(1);
    Shape {
        x: <S::Narrow as Scalar>::spec_from_u64(PADDING),
        y,
        w: content_w.spec_lesser(inner_w).spec_greater(one).spec_greater(one),
        h: row_h.spec_greater(one),
        radius: cfg.border_radius.spec_narrow(),
        fill: None,
        border: Some(
            Border {
                color: highlight_color(cfg.active_workspace_border_color@),
                width: cfg.active_workspace_border_width.spec_narrow(),
            },
        ),
        icon: None,
    }
}

fn draw_highlight<S: Wide>(
    cfg: &AppearanceConfig<S>,
    y: S::Narrow,
    content_w: S::Narrow,
    inner_w: S::Narrow,
    row_h: S::Narrow,
) -> (r: Shape<S::Narrow>)
    ensures
        r == highlight(*cfg, y, content_w, inner_w, row_h),
{
    let one = <S::Narrow as Scalar>::from_u64(1);
    let color = match parse_hex::<S::Narrow>(cfg.active_workspace_border_color.as_str()) {
        Some(rgb) => set_paint_color(rgb, one),
        None => set_paint_color((fraction(54, 100), fraction(71, 100), fraction(98, 100)), one),
    };
    Shape {
        x: <S::Narrow as Scalar>::from_u64(PADDING),
        y,
        w: content_w.lesser(inner_w).greater(one).greater(one),
        h: row_h.greater(one),
        radius: cfg.border_radius.narrow(),
        fill: None,
        border: Some(Border { color, width: cfg.active_workspace_border_width.narrow() }),
        icon: None,
    }
}

/// The shapes of one row of the stacked view, whose top is at `y`.
pub open spec fn line_shapes<S: Wide>(
    style: Style<S>,
    scale: S::Narrow,
    line: Line<S>,
    y: S::Narrow,
    k: S::Narrow,
    inner_w: S::Narrow,
    row_h: S::Narrow,
) -> Seq<Shape<S::Narrow>> {
    let padding = <S::Narrow as Scalar>::spec_from_u64(PADDING);
    let (rk, content_w) = row_scale(line.row, k, row_h);
    let frame = if line.is_active && S::spec_from_u64(0).spec_below(
        style.cfg.active_workspace_border_width,
    ) {
        seq![highlight(*style.cfg, y, content_w, inner_w, row_h)]
    } else {
        Seq::empty()
    };
    let clip = at_least_a_pixel(padding, y, inner_w, row_h);
    frame + tile_shapes(style, scale, line.row.tiles, padding, y, rk, Some(clip))
}

/// The applications whose icons are needed for one row of the stacked view.
pub open spec fn line_ids<S: Wide>(
    cfg: AppearanceConfig<S>,
    show_icons: bool,
    line: Line<S>,
    y: S::Narrow,
    k: S::Narrow,
    inner_w: S::Narrow,
    row_h: S::Narrow,
) -> Set<Seq<char>> {
    let padding = <S::Narrow as Scalar>::spec_from_u64(PADDING);
    let clip = at_least_a_pixel(padding, y, inner_w, row_h);
    let rk = row_scale(line.row, k, row_h).0;
    tiles_ids(cfg, show_icons, line.row.tiles, padding, y, rk, Some(clip))
}

fn draw_line<S: Wide, L: Fn(&str) -> Option<Pixmap>>(
    out: &mut Vec<Shape<S::Narrow>>,
    cfg: &AppearanceConfig<S>,
    show_icons: bool,
    icons: &mut IconCache,
    look_up: &L,
    scale: S::Narrow,
    view: &RowView<S>,
    y: S::Narrow,
    k: S::Narrow,
    inner_w: S::Narrow,
    row_h: S::Narrow,
)
    requires
        forall|id: &str| #[trigger] look_up.requires((id,)),
    ensures
        looked_for(
            *old(icons),
            line_ids(
                *cfg,
                show_icons,
                (Line { is_active: view.is_active, row: view.row@ }),
                y,
                k,
                inner_w,
                row_h,
            ),
            *look_up,
            *final(icons),
        ),
        final(out)@ == old(out)@ + line_shapes(
            Style { cfg, icons: &*final(icons), show_icons },
            scale,
            (Line { is_active: view.is_active, row: view.row@ }),
            y,
            k,
            inner_w,
            row_h,
        ),
{
    let padding = <S::Narrow as Scalar>::from_u64(PADDING);
    let (rk, content_w) = scale_row(&view.row, k, row_h);
    if view.is_active && S::from_u64(0).below(cfg.active_workspace_border_width) {
        out.push(draw_highlight(cfg, y, content_w, inner_w, row_h));
    }
    let clip = Some(rect_min(padding, y, inner_w, row_h));
    draw_tiles(
        out,
        cfg,
        show_icons,
        icons,
        look_up,
        scale,
        view.row.tiles.as_slice(),
        padding,
        y,
        rk,
        &clip,
    );
    assert(out@ =~= old(out)@ + line_shapes(
        Style { cfg, icons: &*icons, show_icons },
        scale,
        (Line { is_active: view.is_active, row: view.row@ }),
        y,
        k,
        inner_w,
        row_h,
    ));
}

/// Where the row after `n` others begins.
pub open spec fn line_top<N: Scalar>(n: nat, row_h: N, gap: N) -> N
    decreases n,
{
    if n == 0 {
        N::spec_from_u64(PADDING)
    } else {
        line_top((n - 1) as nat, row_h, gap).spec_plus(row_h.spec_plus(gap))
    }
}

/// The rows of the stacked view, one below the other.
pub open spec fn all_lines<S: Wide>(
    style: Style<S>,
    scale: S::Narrow,
    lines: Seq<Line<S>>,
    k: S::Narrow,
    inner_w: S::Narrow,
    row_h: S::Narrow,
    gap: S::Narrow,
) -> Seq<Shape<S::Narrow>>
    decreases lines.len(),
{
    if lines.len() == 0 {
        Seq::empty()
    } else {
        let n = (lines.len() - 1) as nat;
        all_lines(style, scale, lines.drop_last(), k, inner_w, row_h, gap) + line_shapes(
            style,
            scale,
            lines.last(),
            line_top(n, row_h, gap),
            k,
            inner_w,
            row_h,
        )
    }
}

/// The applications whose icons are needed for the rows of the stacked view.
pub open spec fn lines_ids<S: Wide>(
    cfg: AppearanceConfig<S>,
    show_icons: bool,
    lines: Seq<Line<S>>,
    k: S::Narrow,
    inner_w: S::Narrow,
    row_h: S::Narrow,
    gap: S::Narrow,
) -> Set<Seq<char>>
    decreases lines.len(),
{
    if lines.len() == 0 {
        Set::empty()
    } else {
        let n = (lines.len() - 1) as nat;
        lines_ids(cfg, show_icons, lines.drop_last(), k, inner_w, row_h, gap).union(
            line_ids(cfg, show_icons, lines.last(), line_top(n, row_h, gap), k, inner_w, row_h),
        )
    }
}

/// Rows whose icons are known are drawn alike, whatever else comes to be known.
proof fn lemma_lines_settled<S: Wide>(
    a: Style<S>,
    b: Style<S>,
    scale: S::Narrow,
    lines: Seq<Line<S>>,
    k: S::Narrow,
    inner_w: S::Narrow,
    row_h: S::Narrow,
    gap: S::Narrow,
)
    requires
        knows_more(a, b),
        lines_ids(*a.cfg, a.show_icons, lines, k, inner_w, row_h, gap).subset_of(
            a.icons.known().dom(),
        ),
    ensures
        all_lines(a, scale, lines, k, inner_w, row_h, gap) == all_lines(
            b,
            scale,
            lines,
            k,
            inner_w,
            row_h,
            gap,
        ),
    decreases lines.len(),
{
    if lines.len() > 0 {
        let n = (lines.len() - 1) as nat;
        let y = line_top(n, row_h, gap);
        let line = lines.last();
        let all = lines_ids(*a.cfg, a.show_icons, lines, k, inner_w, row_h, gap);
        let front = lines.drop_last();
        assert(lines_ids(*a.cfg, a.show_icons, front, k, inner_w, row_h, gap).subset_of(all));
        assert(line_ids(*a.cfg, a.show_icons, line, y, k, inner_w, row_h).subset_of(all));
        lemma_lines_settled(a, b, scale, lines.drop_last(), k, inner_w, row_h, gap);
        let padding = <S::Narrow as Scalar>::spec_from_u64(PADDING);
        lemma_tiles_settled(
            a,
            b,
            scale,
            line.row.tiles,
            padding,
            y,
            row_scale(line.row, k, row_h).0,
            Some(at_least_a_pixel(padding, y, inner_w, row_h)),
        );
    }
}

/// Where the icons of all tiles are known, none is looked for.
pub proof fn lemma_tiles_known<S: Wide>(
    style: Style<S>,
    tiles: Seq<Tile<S>>,
    x0: S::Narrow,
    y0: S::Narrow,
    k: S::Narrow,
    clip: Option<Bounds<S::Narrow>>,
)
    requires
        style.show_icons ==> are_known(tiles, *style.icons),
    ensures
        tiles_ids(*style.cfg, style.show_icons, tiles, x0, y0, k, clip).subset_of(
            style.icons.known().dom(),
        ),
    decreases tiles.len(),
{
    if tiles.len() > 0 {
        let front = tiles.drop_last();
        if style.show_icons {
            assert forall|i: int| 0 <= i < front.len() implies is_known(
                #[trigger] front[i],
                *style.icons,
            ) by {
                assert(is_known(tiles[i], *style.icons));
            }
            assert(is_known(tiles[tiles.len() - 1], *style.icons));
        }
        lemma_tiles_known(style, front, x0, y0, k, clip);
    }
}

/// Where the icons of all rows are known, none is looked for.
pub proof fn lemma_lines_known<S: Wide>(
    style: Style<S>,
    lines: Seq<Line<S>>,
    k: S::Narrow,
    inner_w: S::Narrow,
    row_h: S::Narrow,
    gap: S::Narrow,
)
    requires
        style.show_icons ==> forall|i: int|
            0 <= i < lines.len() ==> are_known((#[trigger] lines[i]).row.tiles, *style.icons),
    ensures
        lines_ids(*style.cfg, style.show_icons, lines, k, inner_w, row_h, gap).subset_of(
            style.icons.known().dom(),
        ),
    decreases lines.len(),
{
    if lines.len() > 0 {
        let front = lines.drop_last();
        let line = lines.last();
        let y = line_top((lines.len() - 1) as nat, row_h, gap);
        if style.show_icons {
            assert forall|i: int| 0 <= i < front.len() implies are_known(
                (#[trigger] front[i]).row.tiles,
                *style.icons,
            ) by {
                assert(are_known(lines[i].row.tiles, *style.icons));
            }
            assert(are_known(lines[lines.len() - 1].row.tiles, *style.icons));
        }
        lemma_lines_known(style, front, k, inner_w, row_h, gap);
        let padding = <S::Narrow as Scalar>::spec_from_u64(PADDING);
        lemma_tiles_known(
            style,
            line.row.tiles,
            padding,
            y,
            row_scale(line.row, k, row_h).0,
            Some(at_least_a_pixel(padding, y, inner_w, row_h)),
        );
    }
}

/// Whether the icon of a tile was looked for.
pub open spec fn is_known<S>(t: Tile<S>, icons: IconCache) -> bool {
    t.app_id matches Some(id) ==> icons.known().contains_key(id@)
}

/// Whether the icons of some tiles were looked for.
pub open spec fn are_known<S>(tiles: Seq<Tile<S>>, icons: IconCache) -> bool {
    forall|i: int| 0 <= i < tiles.len() ==> is_known(#[trigger] tiles[i], icons)
}

/// The height of a row where `n` of them share the height of the widget.
pub open spec fn shared_height<N: Scalar>(n: nat, log_h: N, gap: N) -> N {
    let count = N::spec_from_u64(n as u64);
    let one = N::spec_from_u64(1);
    log_h.spec_minus(paddings()).spec_minus(count.spec_minus(one).spec_times(gap)).spec_over(
        count,
    ).spec_greater(one)
}

/// The rows of some lines.
pub open spec fn row_models<S>(lines: Seq<Line<S>>) -> Seq<RowModel<S>> {
    lines.map_values(|l: Line<S>| l.row)
}

/// Whether there is anything to draw of some rows.
pub open spec fn shows_lines<S: Wide>(lines: Seq<Line<S>>) -> bool {
    let zero = <S::Narrow as Scalar>::spec_from_u64(0);
    !(lines.len() == 0 || (tallest_tiled(row_models(lines)).spec_up_to(zero) && forall|i: int|
        0 <= i < lines.len() ==> (#[trigger] lines[i]).row.tiles.len() == 0))
}

/// The picture of the stacked view: rows of the same height, every one from the
/// left edge on.
pub open spec fn stacked_picture<S: Wide>(
    style: Style<S>,
    scale: S::Narrow,
    lines: Seq<Line<S>>,
    log_w: S::Narrow,
    log_h: S::Narrow,
) -> Seq<Shape<S::Narrow>> {
    let zero = <S::Narrow as Scalar>::spec_from_u64(0);
    let gap = style.cfg.workspace_gap.spec_narrow();
    let row_h = shared_height(lines.len(), log_h, gap);
    let inner_w = log_w.spec_minus(paddings()).spec_greater(zero);
    let k = shared_scale(row_models(lines), row_h);
    if shows_lines(lines) {
        all_lines(style, scale, lines, k, inner_w, row_h, gap)
    } else {
        Seq::empty()
    }
}

/// The applications whose icons are needed for the picture of the stacked view.
pub open spec fn stacked_ids<S: Wide>(
    cfg: AppearanceConfig<S>,
    show_icons: bool,
    lines: Seq<Line<S>>,
    log_w: S::Narrow,
    log_h: S::Narrow,
) -> Set<Seq<char>> {
    let zero = <S::Narrow as Scalar>::spec_from_u64(0);
    let gap = cfg.workspace_gap.spec_narrow();
    let row_h = shared_height(lines.len(), log_h, gap);
    let inner_w = log_w.spec_minus(paddings()).spec_greater(zero);
    let k = shared_scale(row_models(lines), row_h);
    if shows_lines(lines) {
        lines_ids(cfg, show_icons, lines, k, inner_w, row_h, gap)
    } else {
        Set::empty()
    }
}

/// The height of the tallest column of tiled windows.
pub fn tallest_of<S: Wide>(rows: &[RowView<S>]) -> (r: S::Narrow)
    ensures
        r == tallest_tiled(row_models(lines(rows@))),
{
    let ghost models = row_models(lines(rows@));
    let mut r = <S::Narrow as Scalar>::from_u64(0);
    let mut i: usize = 0;
    assert(models.take(0) =~= Seq::empty());
    while i < rows.len()
        invariant
            i <= rows@.len(),
            models == row_models(lines(rows@)),
            r == tallest_tiled(models.take(i as int)),
        decreases rows@.len() - i,
    {
        assert(models.take(i + 1).drop_last() =~= models.take(i as int));
        assert(models.take(i + 1).last() == rows@[i as int].row@);
        if rows[i].row.has_tiled() {
            r = r.greater(rows[i].row.max_height.narrow());
        }
        i = i + 1;
    }
    assert(models.take(i as int) =~= models);
    r
}

fn none_has_content<S: Wide>(rows: &[RowView<S>]) -> (r: bool)
    ensures
        r == forall|i: int|
            0 <= i < rows@.len() ==> (#[trigger] lines(rows@)[i]).row.tiles.len() == 0,
{
    let mut i: usize = 0;
    while i < rows.len()
        invariant
            i <= rows@.len(),
            forall|j: int| 0 <= j < i ==> (#[trigger] lines(rows@)[j]).row.tiles.len() == 0,
        decreases rows@.len() - i,
    {
        assert(lines(rows@)[i as int].row == rows@[i as int].row@);
        if rows[i].row.has_content() {
            return false;
        }
        i = i + 1;
    }
    true
}

fn draw_all<S: Wide, L: Fn(&str) -> Option<Pixmap>>(
    out: &mut Vec<Shape<S::Narrow>>,
    cfg: &AppearanceConfig<S>,
    show_icons: bool,
    icons: &mut IconCache,
    look_up: &L,
    scale: S::Narrow,
    rows: &[RowView<S>],
    log_w: S::Narrow,
    log_h: S::Narrow,
)
    requires
        forall|id: &str| #[trigger] look_up.requires((id,)),
    ensures
        looked_for(
            *old(icons),
            stacked_ids(
                *cfg,
                show_icons,
                lines(rows@),
                log_w,
                log_h,
            ),
            *look_up,
            *final(icons),
        ),
        final(out)@ == old(out)@ + stacked_picture(
            Style { cfg, icons: &*final(icons), show_icons },
            scale,
            lines(rows@),
            log_w,
            log_h,
        ),
{
    let ghost all = lines(rows@);
    proof {
        lemma_nothing_asked(*icons, *look_up);
    }
    if rows.len() == 0 {
        assert(out@ =~= old(out)@ + Seq::<Shape<S::Narrow>>::empty());
        return;
    }
    let zero = <S::Narrow as Scalar>::from_u64(0);
    let one = <S::Narrow as Scalar>::from_u64(1);
    let padding = <S::Narrow as Scalar>::from_u64(PADDING);
    let paddings = <S::Narrow as Scalar>::from_u64(2).times(padding);
    let n = <S::Narrow as Scalar>::from_u64(rows.len() as u64);
    let gap = cfg.workspace_gap.narrow();
    let row_h = log_h.minus(paddings).minus(n.minus(one).times(gap)).over(n).greater(one);
    let tallest = tallest_of(rows);
    if tallest.up_to(zero) && none_has_content(rows) {
        assert(out@ =~= old(out)@ + Seq::<Shape<S::Narrow>>::empty());
        return;
    }
    let k = if zero.below(tallest) {
        row_h.over(tallest)
    } else {
        zero
    };
    let inner_w = log_w.minus(paddings).greater(zero);
    let mut y = padding;
    let mut i: usize = 0;
    assert(all.take(0) =~= Seq::empty());
    assert(out@ =~= old(out)@ + all_lines(
        Style { cfg, icons: &*icons, show_icons },
        scale,
        all.take(0),
        k,
        inner_w,
        row_h,
        gap,
    ));
    while i < rows.len()
        invariant
            i <= rows@.len(),
            all == lines(rows@),
            y == line_top(i as nat, row_h, gap),
            looked_for(
                *old(icons),
                lines_ids(*cfg, show_icons, all.take(i as int), k, inner_w, row_h, gap),
                *look_up,
                *icons,
            ),
            out@ == old(out)@ + all_lines(
                Style { cfg, icons: &*icons, show_icons },
                scale,
                all.take(i as int),
                k,
                inner_w,
                row_h,
                gap,
            ),
            forall|id: &str| #[trigger] look_up.requires((id,)),
        decreases rows@.len() - i,
    {
        let ghost between = *icons;
        assert(all.take(i + 1).drop_last() =~= all.take(i as int));
        draw_line(
            out,
            cfg,
            show_icons,
            icons,
            look_up,
            scale,
            &rows[i],
            y,
            k,
            inner_w,
            row_h,
        );
        proof {
            let a = Style { cfg, icons: &between, show_icons };
            let b = Style { cfg, icons: &*icons, show_icons };
            let front = all.take(i as int);
            lemma_lines_settled(a, b, scale, front, k, inner_w, row_h, gap);
            lemma_asked_in_turn(
                *old(icons),
                lines_ids(*cfg, show_icons, front, k, inner_w, row_h, gap),
                between,
                line_ids(
                    *cfg,
                    show_icons,
                    all[i as int], y, k, inner_w, row_h),
                *look_up,
                *icons,
            );
        }
        assert(out@ =~= old(out)@ + all_lines(
            Style { cfg, icons: &*icons, show_icons },
            scale,
            all.take(i + 1),
            k,
            inner_w,
            row_h,
            gap,
        ));
        y = y.plus(row_h.plus(gap));
        i = i + 1;
    }
    assert(all.take(i as int) =~= all);
}

/// Rows never shift against each other: in the stacked view, windows with the
/// same place and width in their workspaces have the same place and width in
/// the widget, whichever row they are in.
pub proof fn rows_are_left_aligned<S: Wide>(
    a: Tile<S>,
    b: Tile<S>,
    y_a: S::Narrow,
    y_b: S::Narrow,
    k: S::Narrow,
    half_gap: S::Narrow,
    inner_w: S::Narrow,
    row_h: S::Narrow,
)
    requires
        a.x == b.x,
        a.w == b.w,
    ensures
        ({
            let padding = <S::Narrow as Scalar>::spec_from_u64(PADDING);
            let clip_a = at_least_a_pixel(padding, y_a, inner_w, row_h);
            let clip_b = at_least_a_pixel(padding, y_b, inner_w, row_h);
            let area_a = tile_area(mapped(a, padding, y_a, k), half_gap, Some(clip_a));
            let area_b = tile_area(mapped(b, padding, y_b, k), half_gap, Some(clip_b));
            area_a is Some && area_b is Some ==> area_a->0.x == area_b->0.x && area_a->0.w
                == area_b->0.w
        }),
{
}

/// In whole pixels, what is drawn of a tile stays in the row that it is cut off
/// at.
pub proof fn tiles_stay_in_their_row(tile: Area<Px>, half_gap: Px, clip: Bounds<Px>)
    ensures
        tile_area(tile, half_gap, Some(clip)) matches Some(area) ==> {
            &&& clip.left.0 <= area.x.0 && area.x.0 + area.w.0 <= clip.right.0
            &&& clip.top.0 <= area.y.0 && area.y.0 + area.h.0 <= clip.bottom.0
            &&& area.w.0 > 0 && area.h.0 > 0
        },
{
}

proof fn lemma_tallest_unchanged<S: Wide>(rows: Seq<RowModel<S>>, i: int, row: RowModel<S>)
    requires
        0 <= i < rows.len(),
        row.has_tiled() == rows[i].has_tiled(),
        row.max_height == rows[i].max_height,
    ensures
        tallest_tiled(rows.update(i, row)) == tallest_tiled(rows),
    decreases rows.len(),
{
    let changed = rows.update(i, row);
    if i < rows.len() - 1 {
        assert(changed.drop_last() =~= rows.drop_last().update(i, row));
        lemma_tallest_unchanged(rows.drop_last(), i, row);
    } else {
        assert(changed.drop_last() =~= rows.drop_last());
    }
}

/// Dragging a floating window of one workspace leaves the rows of all others
/// as they are, and its tiled windows too: where the tiled windows of row `i`
/// stay, every other row keeps its shapes, and row `i` its scale.
pub proof fn floating_windows_leave_rows_alone<S: Wide>(
    style: Style<S>,
    scale: S::Narrow,
    lines: Seq<Line<S>>,
    i: int,
    row: RowModel<S>,
    y: S::Narrow,
    inner_w: S::Narrow,
    row_h: S::Narrow,
    j: int,
)
    requires
        0 <= i < lines.len(),
        0 <= j < lines.len(),
        row.total_width == lines[i].row.total_width,
        row.max_height == lines[i].row.max_height,
    ensures
        ({
            let changed = lines.update(i, Line { is_active: lines[i].is_active, row });
            let k = shared_scale(row_models(lines), row_h);
            &&& shared_scale(row_models(changed), row_h) == k
            &&& i != j ==> line_shapes(style, scale, changed[j], y, k, inner_w, row_h)
                == line_shapes(style, scale, lines[j], y, k, inner_w, row_h)
            &&& row.has_tiled() ==> row_scale(row, k, row_h) == row_scale(
                lines[i].row,
                k,
                row_h,
            )
        }),
{
    let changed = lines.update(i, Line { is_active: lines[i].is_active, row });
    assert(row_models(changed) =~= row_models(lines).update(i, row));
    lemma_tallest_unchanged(row_models(lines), i, row);
}

/// The background of the widget, unless it is transparent or no colour.
pub open spec fn background<S: Wide>(
    cfg: AppearanceConfig<S>,
    log_w: S::Narrow,
    log_h: S::Narrow,
) -> Seq<Shape<S::Narrow>> {
    let zero = <S::Narrow as Scalar>::spec_from_u64(0);
    match named_color::<S::Narrow>(cfg.background@) {
        Some(rgb) => if S::spec_from_u64(0).spec_below(cfg.background_opacity) {
            seq![
                Shape {
                    x: zero,
                    y: zero,
                    w: log_w,
                    h: log_h,
                    radius: cfg.border_radius.spec_narrow(),
                    fill: Some(paint(rgb, cfg.background_opacity.spec_narrow())),
                    border: None,
                    icon: None,
                },
            ]
        } else {
            Seq::empty()
        },
        None => Seq::empty(),
    }
}

fn draw_background<S: Wide>(
    cfg: &AppearanceConfig<S>,
    log_w: S::Narrow,
    log_h: S::Narrow,
) -> (r: Vec<Shape<S::Narrow>>)
    ensures
        r@ == background(*cfg, log_w, log_h),
{
    let mut r: Vec<Shape<S::Narrow>> = Vec::new();
    let zero = <S::Narrow as Scalar>::from_u64(0);
    if S::from_u64(0).below(cfg.background_opacity) {
        if let Some(rgb) = parse_hex::<S::Narrow>(cfg.background.as_str()) {
            r.push(
                Shape {
                    x: zero,
                    y: zero,
                    w: log_w,
                    h: log_h,
                    radius: cfg.border_radius.narrow(),
                    fill: Some(set_paint_color(rgb, cfg.background_opacity.narrow())),
                    border: None,
                    icon: None,
                },
            );
        }
    }
    assert(r@ =~= background(*cfg, log_w, log_h));
    r
}

/// Whether a number can be a side of a rectangle.
pub open spec fn is_side<N: Scalar>(x: N) -> bool {
    x.spec_is_finite() && N::spec_from_u64(0).spec_up_to(x)
}

/// Whether the background can be painted: there is none, or its sides are ones.
pub open spec fn background_fits<S: Wide>(
    cfg: AppearanceConfig<S>,
    log_w: S::Narrow,
    log_h: S::Narrow,
) -> bool {
    background(cfg, log_w, log_h).len() == 0 || (is_side(log_w) && is_side(log_h))
}

fn can_be_backed<S: Wide>(
    cfg: &AppearanceConfig<S>,
    log_w: S::Narrow,
    log_h: S::Narrow,
) -> (r: bool)
    ensures
        r == background_fits(*cfg, log_w, log_h),
{
    let zero = <S::Narrow as Scalar>::from_u64(0);
    if !S::from_u64(0).below(cfg.background_opacity) {
        return true;
    }
    match parse_hex::<S::Narrow>(cfg.background.as_str()) {
        Some(_) => log_w.is_finite() && zero.up_to(log_w) && log_h.is_finite() && zero.up_to(log_h),
        None => true,
    }
}

/// Whether a frame of this size can be held, and its background painted.
pub open spec fn can_render<S: Wide>(
    cfg: AppearanceConfig<S>,
    phys_w: u32,
    phys_h: u32,
    scale: S::Narrow,
) -> bool {
    frame_fits(phys_w, phys_h) && background_fits(
        cfg,
        <S::Narrow as Scalar>::spec_from_u64(phys_w as u64).spec_over(scale),
        <S::Narrow as Scalar>::spec_from_u64(phys_h as u64).spec_over(scale),
    )
}

/// The picture of the widget: the background, and the rows of the stacked view
/// or the one of the focused workspace.
pub open spec fn picture<S: Wide>(
    style: Style<S>,
    phys_w: u32,
    phys_h: u32,
    scale: S::Narrow,
    mode: Seq<char>,
    focused: Option<RowModel<S>>,
    lines: Seq<Line<S>>,
) -> Seq<Shape<S::Narrow>> {
    let log_w = <S::Narrow as Scalar>::spec_from_u64(phys_w as u64).spec_over(scale);
    let log_h = <S::Narrow as Scalar>::spec_from_u64(phys_h as u64).spec_over(scale);
    background(*style.cfg, log_w, log_h) + if mode == "all"@ {
        stacked_picture(style, scale, lines, log_w, log_h)
    } else {
        current_picture(style, scale, focused, log_w, log_h)
    }
}

/// The applications whose icons are needed for the picture of the widget.
pub open spec fn picture_ids<S: Wide>(
    cfg: AppearanceConfig<S>,
    show_icons: bool,
    phys_w: u32,
    phys_h: u32,
    scale: S::Narrow,
    mode: Seq<char>,
    focused: Option<RowModel<S>>,
    lines: Seq<Line<S>>,
) -> Set<Seq<char>> {
    let log_w = <S::Narrow as Scalar>::spec_from_u64(phys_w as u64).spec_over(scale);
    let log_h = <S::Narrow as Scalar>::spec_from_u64(phys_h as u64).spec_over(scale);
    if mode == "all"@ {
        stacked_ids(cfg, show_icons, lines, log_w, log_h)
    } else {
        current_ids(cfg, show_icons, focused, log_w, log_h)
    }
}

/// Composes the picture of the widget for a buffer of `phys_w` by `phys_h`
/// pixels. Icons are looked for on first use.
pub fn compose<S: Wide, L: Fn(&str) -> Option<Pixmap>>(
    cfg: &AppearanceConfig<S>,
    show_icons: bool,
    icons: &mut IconCache,
    look_up: &L,
    phys_w: u32,
    phys_h: u32,
    scale: S::Narrow,
    mode: &str,
    focused: Option<&Row<S>>,
    rows: &[RowView<S>],
) -> (r: Vec<Shape<S::Narrow>>)
    requires
        forall|id: &str| #[trigger] look_up.requires((id,)),
    ensures
        looked_for(
            *old(icons),
            picture_ids(
                *cfg,
                show_icons,
                phys_w,
                phys_h,
                scale,
                mode@,
                model_of(focused),
                lines(rows@),
            ),
            *look_up,
            *final(icons),
        ),
        r@ == picture(
            Style { cfg, icons: &*final(icons), show_icons },
            phys_w,
            phys_h,
            scale,
            mode@,
            model_of(focused),
            lines(rows@),
        ),
{
    let log_w = <S::Narrow as Scalar>::from_u64(phys_w as u64).over(scale);
    let log_h = <S::Narrow as Scalar>::from_u64(phys_h as u64).over(scale);
    let mut out = draw_background(cfg, log_w, log_h);
    if same_text(mode, "all") {
        draw_all(&mut out, cfg, show_icons, icons, look_up, scale, rows, log_w, log_h);
    } else {
        draw_current(&mut out, cfg, show_icons, icons, look_up, scale, focused, log_w, log_h);
    }
    out
}

/// Whether `frame` is what `paint` makes of a picture with these icons, on a blank
/// frame of this size, as BGRA pixels.
pub open spec fn is_painted<N, F: FnOnce(Pixmap, Vec<Shape<N>>, &IconCache) -> Pixmap>(
    paint: F,
    shown: Seq<Shape<N>>,
    icons: &IconCache,
    w: u32,
    h: u32,
    frame: Seq<u8>,
) -> bool {
    &&& frame.len() == byte_count(w, h)
    &&& exists|p: Pixmap, shapes: Vec<Shape<N>>, q: Pixmap|
        {
            &&& #[trigger] paint.ensures((p, shapes, icons), q)
            &&& is_blank_frame(p, w, h)
            &&& shapes@ == shown
            &&& frame == swapped(pixels(q))
        }
}

/// What a painter is asked for: it takes any image, shapes and icons, leaves the
/// bytes of the image as many as they are, and what it makes depends on nothing
/// else.
pub open spec fn is_painter<N, F: FnOnce(Pixmap, Vec<Shape<N>>, &IconCache) -> Pixmap>(
    paint: F,
) -> bool {
    &&& forall|p: Pixmap, shapes: Vec<Shape<N>>, icons: &IconCache| #[trigger]
        paint.requires((p, shapes, icons))
    &&& forall|p: Pixmap, shapes: Vec<Shape<N>>, icons: &IconCache, q: Pixmap| #[trigger]
        paint.ensures((p, shapes, icons), q) ==> pixels(q).len() == pixels(p).len()
    &&& forall|
        p: Pixmap,
        shapes: Vec<Shape<N>>,
        icons: &IconCache,
        q: Pixmap,
        other_p: Pixmap,
        other_shapes: Vec<Shape<N>>,
        other_icons: &IconCache,
        other_q: Pixmap,
    | #[trigger]
        paint.ensures((p, shapes, icons), q) && #[trigger] paint.ensures(
            (other_p, other_shapes, other_icons),
            other_q,
        ) && pixels(p) == pixels(other_p) && dimensions(p) == dimensions(other_p) && shapes@
            == other_shapes@ && icons.known() == other_icons.known() ==> pixels(q) == pixels(
            other_q,
        )
}

/// The frame that `paint` makes of a picture with these icons.
pub open spec fn painted<N, F: FnOnce(Pixmap, Vec<Shape<N>>, &IconCache) -> Pixmap>(
    paint: F,
    shown: Seq<Shape<N>>,
    icons: &IconCache,
    w: u32,
    h: u32,
) -> Seq<u8> {
    choose|frame: Seq<u8>| #[trigger] is_painted(paint, shown, icons, w, h, frame)
}

/// Renders the minimap into the memory of `scratch`, as BGRA pixels. Icons are
/// looked for on first use.
///
/// The frame starts blank, whatever `scratch` held. `paint` paints the picture
/// into it. There is no frame where its size is 0, where its bytes do not fit, or
/// where a background is to be painted that is no rectangle.
pub fn render_into<
    S: Wide,
    L: Fn(&str) -> Option<Pixmap>,
    F: FnOnce(Pixmap, Vec<Shape<S::Narrow>>, &IconCache) -> Pixmap,
>(
    scratch: &mut Vec<u8>,
    phys_w: u32,
    phys_h: u32,
    scale: S::Narrow,
    cfg: &AppearanceConfig<S>,
    mode: &str,
    focused: Option<&Row<S>>,
    rows: &[RowView<S>],
    icons: &mut IconCache,
    show_icons: bool,
    look_up: &L,
    paint: F,
) -> (r: Option<()>)
    requires
        forall|id: &str| #[trigger] look_up.requires((id,)),
        is_painter(paint),
    ensures
        r is Some == can_render(*cfg, phys_w, phys_h, scale),
        looked_for(
            *old(icons),
            if can_render(*cfg, phys_w, phys_h, scale) {
                picture_ids(
                    *cfg,
                    show_icons,
                    phys_w,
                    phys_h,
                    scale,
                    mode@,
                    model_of(focused),
                    lines(rows@),
                )
            } else {
                Set::empty()
            },
            *look_up,
            *final(icons),
        ),
        r is Some ==> {
            let shown = picture(
                Style { cfg, icons: &*final(icons), show_icons },
                phys_w,
                phys_h,
                scale,
                mode@,
                model_of(focused),
                lines(rows@),
            );
            &&& is_painted(paint, shown, &*final(icons), phys_w, phys_h, final(scratch)@)
            &&& final(scratch)@ == painted(paint, shown, &*final(icons), phys_w, phys_h)
        },
        byte_count(phys_w, phys_h) > u32::MAX ==> final(scratch)@ == old(scratch)@,
        r is None && byte_count(phys_w, phys_h) <= u32::MAX ==> final(scratch)@.len() == 0,
{
    proof {
        lemma_nothing_asked(*icons, *look_up);
    }
    let frame = match blank_frame(scratch, phys_w, phys_h) {
        Some(frame) => frame,
        None => {
            return None;
        },
    };
    let log_w = <S::Narrow as Scalar>::from_u64(phys_w as u64).over(scale);
    let log_h = <S::Narrow as Scalar>::from_u64(phys_h as u64).over(scale);
    if !can_be_backed(cfg, log_w, log_h) {
        return None;
    }
    let shapes = compose(
        cfg,
        show_icons,
        icons,
        look_up,
        phys_w,
        phys_h,
        scale,
        mode,
        focused,
        rows,
    );
    let ghost shown = shapes@;
    let painted_frame = paint(frame, shapes, &*icons);
    let mut data = pixmap::take(painted_frame);
    swap_channels(&mut data);
    *scratch = data;
    proof {
        assert(is_painted(paint, shown, &*icons, phys_w, phys_h, scratch@));
        reused_memory_does_not_show(
            paint,
            shown,
            &*icons,
            phys_w,
            phys_h,
            scratch@,
            painted(paint, shown, &*icons, phys_w, phys_h),
        );
    }
    Some(())
}

/// No pixel of an earlier frame shows through: the same picture gives the same
/// frame, whatever the memory held that it was rendered into.
pub proof fn reused_memory_does_not_show<
    N,
    F: FnOnce(Pixmap, Vec<Shape<N>>, &IconCache) -> Pixmap,
>(
    paint: F,
    shown: Seq<Shape<N>>,
    icons: &IconCache,
    w: u32,
    h: u32,
    frame: Seq<u8>,
    other_frame: Seq<u8>,
)
    requires
        is_painter(paint),
        is_painted(paint, shown, icons, w, h, frame),
        is_painted(paint, shown, icons, w, h, other_frame),
    ensures
        frame == other_frame,
        frame.len() == 4 * w * h,
{
    assert(byte_count(w, h) == 4 * w * h) by (nonlinear_arith)
        requires
            byte_count(w, h) == w * h * 4,
    ;
}

/// The column of the pixel that a byte belongs to, in rows of `w` pixels.
pub open spec fn column_of(i: int, w: u32) -> int {
    i / 4 % (w as int)
}

/// The row of the pixel that a byte belongs to, in rows of `w` pixels.
pub open spec fn row_of_byte(i: int, w: u32) -> int {
    i / 4 / (w as int)
}

/// Whether a byte of a frame of width `w` lies in the rectangle `area` (left,
/// top, width, height).
pub open spec fn within(i: int, w: u32, area: (u32, u32, u32, u32)) -> bool {
    &&& area.0 <= column_of(i, w) < area.0 + area.2
    &&& area.1 <= row_of_byte(i, w) < area.1 + area.3
}

/// Whether byte `i` is one in which the frames differ.
pub open spec fn differs(old: Seq<u8>, new: Seq<u8>, i: int) -> bool {
    0 <= i < new.len() && old[i] != new[i]
}

/// Whether `area` is the smallest rectangle that holds every pixel in which two
/// frames of the same size differ.
pub open spec fn is_damage(
    old: Seq<u8>,
    new: Seq<u8>,
    w: u32,
    h: u32,
    area: (u32, u32, u32, u32),
) -> bool {
    &&& area.0 + area.2 <= w && area.1 + area.3 <= h
    &&& forall|i: int| #[trigger] differs(old, new, i) ==> within(i, w, area)
    &&& exists|i: int| #[trigger] differs(old, new, i) && column_of(i, w) == area.0
    &&& exists|i: int| #[trigger]
        differs(old, new, i) && column_of(i, w) == area.0 + area.2 - 1
    &&& exists|i: int| #[trigger] differs(old, new, i) && row_of_byte(i, w) == area.1
    &&& exists|i: int| #[trigger]
        differs(old, new, i) && row_of_byte(i, w) == area.1 + area.3 - 1
}

/// The part of the frame that must be shown anew: nothing where the frames are
/// the same, all of it where their sizes differ, else the smallest rectangle
/// (left, top, width, height) that holds every changed pixel.
pub fn diff_bbox(old: &[u8], new: &[u8], w: u32, h: u32) -> (r: Option<(u32, u32, u32, u32)>)
    requires
        new@.len() == byte_count(w, h),
    ensures
        old@.len() != new@.len() ==> r == Some((0u32, 0u32, w, h)),
        old@.len() == new@.len() ==> match r {
            Some(area) => is_damage(old@, new@, w, h, area),
            None => old@ == new@,
        },
{
    if old.len() != new.len() {
        return Some((0, 0, w, h));
    }
    let mut found: Option<(u32, u32, u32, u32)> = None;
    let mut i: usize = 0;
    while i < new.len()
        invariant
            i <= new@.len(),
            new@.len() == byte_count(w, h),
            old@.len() == new@.len(),
            match found {
                None => forall|j: int| 0 <= j < i ==> !#[trigger] differs(old@, new@, j),
                Some(b) => {
                    &&& b.0 <= b.2 < w
                    &&& b.1 <= b.3 < h
                    &&& forall|j: int| #[trigger]
                        differs(old@, new@, j) && j < i ==> b.0 <= column_of(j, w) <= b.2 && b.1
                            <= row_of_byte(j, w) <= b.3
                    &&& exists|j: int| #[trigger]
                        differs(old@, new@, j) && column_of(j, w) == b.0
                    &&& exists|j: int| #[trigger]
                        differs(old@, new@, j) && column_of(j, w) == b.2
                    &&& exists|j: int| #[trigger]
                        differs(old@, new@, j) && row_of_byte(j, w) == b.1
                    &&& exists|j: int| #[trigger]
                        differs(old@, new@, j) && row_of_byte(j, w) == b.3
                },
            },
        decreases new@.len() - i,
    {
        if old[i] != new[i] {
            assert(differs(old@, new@, i as int));
            proof {
                lemma_place(i as int, w, h);
            }
            let x: u32 = (i / 4 % (w as usize)) as u32;
            let y: u32 = (i / 4 / (w as usize)) as u32;
            found = match found {
                None => Some((x, y, x, y)),
                Some((left, top, right, bottom)) => Some(
                    (
                        if x < left {
                            x
                        } else {
                            left
                        },
                        if y < top {
                            y
                        } else {
                            top
                        },
                        if x > right {
                            x
                        } else {
                            right
                        },
                        if y > bottom {
                            y
                        } else {
                            bottom
                        },
                    ),
                ),
            };
        } else {
            assert(!differs(old@, new@, i as int));
        }
        i = i + 1;
    }
    match found {
        None => {
            assert(old@ =~= new@) by {
                assert forall|j: int| 0 <= j < new@.len() implies old@[j] == new@[j] by {
                    assert(!differs(old@, new@, j));
                }
            }
            None
        },
        Some((left, top, right, bottom)) => Some((left, top, right - left + 1, bottom - top + 1)),
    }
}

/// The old frame with the rectangle `area` shown anew.
pub open spec fn repaired(
    old: Seq<u8>,
    new: Seq<u8>,
    w: u32,
    area: (u32, u32, u32, u32),
) -> Seq<u8> {
    Seq::new(
        new.len(),
        |i: int|
            if within(i, w, area) {
                new[i]
            } else {
                old[i]
            },
    )
}

/// Showing the damage anew turns the old frame into the new one.
pub proof fn damage_is_enough(
    old: Seq<u8>,
    new: Seq<u8>,
    w: u32,
    h: u32,
    area: (u32, u32, u32, u32),
)
    requires
        is_damage(old, new, w, h, area),
    ensures
        repaired(old, new, w, area) == new,
{
    assert forall|i: int| 0 <= i < new.len() implies repaired(old, new, w, area)[i] == new[i] by {
        if !within(i, w, area) {
            assert(!differs(old, new, i));
        }
    }
    assert(repaired(old, new, w, area) =~= new);
}

/// No smaller rectangle would do: one that repairs the old frame holds all of
/// the damage.
pub proof fn damage_is_smallest(
    old: Seq<u8>,
    new: Seq<u8>,
    w: u32,
    h: u32,
    area: (u32, u32, u32, u32),
    other: (u32, u32, u32, u32),
)
    requires
        is_damage(old, new, w, h, area),
        repaired(old, new, w, other) == new,
    ensures
        other.0 <= area.0,
        other.1 <= area.1,
        area.0 + area.2 <= other.0 + other.2,
        area.1 + area.3 <= other.1 + other.3,
{
    assert forall|i: int| #[trigger] differs(old, new, i) implies within(i, w, other) by {
        assert(repaired(old, new, w, other)[i] == new[i]);
    }
}

/// Every byte belongs to a pixel of the frame.
pub proof fn lemma_place(i: int, w: u32, h: u32)
    requires
        0 <= i < byte_count(w, h),
    ensures
        w > 0,
        0 <= column_of(i, w) < w,
        0 <= row_of_byte(i, w) < h,
{
    assert(w > 0) by (nonlinear_arith)
        requires
            0 < w * h * 4,
    ;
    assert(i / 4 < w * h);
    vstd::arithmetic::div_mod::lemma_multiply_divide_lt(i / 4, w as int, h as int);
    vstd::arithmetic::div_mod::lemma_div_pos_is_pos(i / 4, w as int);
}

} // verus!
