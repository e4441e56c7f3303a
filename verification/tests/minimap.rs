//! Layout, drawing and signatures, in floating point.

use std::cell::Cell;

use nirimap::app::App;
use nirimap::ipc::Snapshot;
use nirimap::model::{damage_of, Damage};
use nirimap::config::{
    default_active_window_border_color, default_active_window_border_width, default_true,
    parse_hex, AppearanceConfig, Config, DisplayConfig, DEFAULT_CONFIG,
};
use nirimap::icons::{cap_size, decode_icon, draw_icon, svg_canvas, IconCache, Shrink};
use nirimap::layout::{build_row, Row};
use nirimap::render::{render_into, rounded_rect, scale_of, RowView, Segment, Shape};
use nirimap::scalar::{Scalar, Wide};
use nirimap::signature::{content_signature, Fnv1a};
use nirimap::state::{Output, Window, WindowLayout, Workspace};
use tiny_skia::{
    Color, FillRule, FilterQuality, Paint, PathBuilder, Pixmap, PixmapPaint, Rect, Stroke,
    Transform,
};

#[derive(Clone, Copy, Debug, PartialEq)]
struct F32(f32);

impl Scalar for F32 {
    fn from_u64(i: u64) -> Self {
        F32(i as f32)
    }
    fn from_i64(i: i64) -> Self {
        F32(i as f32)
    }
    fn plus(self, o: Self) -> Self {
        F32(self.0 + o.0)
    }
    fn minus(self, o: Self) -> Self {
        F32(self.0 - o.0)
    }
    fn times(self, o: Self) -> Self {
        F32(self.0 * o.0)
    }
    fn over(self, o: Self) -> Self {
        F32(self.0 / o.0)
    }
    fn lesser(self, o: Self) -> Self {
        F32(self.0.min(o.0))
    }
    fn greater(self, o: Self) -> Self {
        F32(self.0.max(o.0))
    }
    fn below(self, o: Self) -> bool {
        self.0 < o.0
    }
    fn up_to(self, o: Self) -> bool {
        self.0 <= o.0
    }
    fn ceil(self) -> Self {
        F32(self.0.ceil())
    }
    fn round(self) -> Self {
        F32(self.0.round())
    }
    fn to_u32(self) -> u32 {
        self.0 as u32
    }
    fn is_finite(self) -> bool {
        self.0.is_finite()
    }
    fn bits(self) -> u64 {
        u64::from(self.0.to_bits())
    }
    fn spec_from_u64(i: u64) -> Self {
        Self::from_u64(i)
    }
    fn spec_from_i64(i: i64) -> Self {
        Self::from_i64(i)
    }
    fn spec_plus(self, o: Self) -> Self {
        self.plus(o)
    }
    fn spec_minus(self, o: Self) -> Self {
        self.minus(o)
    }
    fn spec_times(self, o: Self) -> Self {
        self.times(o)
    }
    fn spec_over(self, o: Self) -> Self {
        self.over(o)
    }
    fn spec_lesser(self, o: Self) -> Self {
        self.lesser(o)
    }
    fn spec_greater(self, o: Self) -> Self {
        self.greater(o)
    }
    fn spec_below(self, o: Self) -> bool {
        self.below(o)
    }
    fn spec_up_to(self, o: Self) -> bool {
        self.up_to(o)
    }
    fn spec_ceil(self) -> Self {
        self.ceil()
    }
    fn spec_round(self) -> Self {
        self.round()
    }
    fn spec_to_u32(self) -> u32 {
        self.to_u32()
    }
    fn spec_is_finite(self) -> bool {
        self.is_finite()
    }
    fn spec_bits(self) -> u64 {
        self.bits()
    }
    fn bits_tell_apart(_a: Self, _b: Self) {}
}

#[derive(Clone, Copy, Debug, PartialEq)]
struct F64(f64);

impl Scalar for F64 {
    fn from_u64(i: u64) -> Self {
        F64(i as f64)
    }
    fn from_i64(i: i64) -> Self {
        F64(i as f64)
    }
    fn plus(self, o: Self) -> Self {
        F64(self.0 + o.0)
    }
    fn minus(self, o: Self) -> Self {
        F64(self.0 - o.0)
    }
    fn times(self, o: Self) -> Self {
        F64(self.0 * o.0)
    }
    fn over(self, o: Self) -> Self {
        F64(self.0 / o.0)
    }
    fn lesser(self, o: Self) -> Self {
        F64(self.0.min(o.0))
    }
    fn greater(self, o: Self) -> Self {
        F64(self.0.max(o.0))
    }
    fn below(self, o: Self) -> bool {
        self.0 < o.0
    }
    fn up_to(self, o: Self) -> bool {
        self.0 <= o.0
    }
    fn ceil(self) -> Self {
        F64(self.0.ceil())
    }
    fn round(self) -> Self {
        F64(self.0.round())
    }
    fn to_u32(self) -> u32 {
        self.0 as u32
    }
    fn is_finite(self) -> bool {
        self.0.is_finite()
    }
    fn bits(self) -> u64 {
        self.0.to_bits()
    }
    fn spec_from_u64(i: u64) -> Self {
        Self::from_u64(i)
    }
    fn spec_from_i64(i: i64) -> Self {
        Self::from_i64(i)
    }
    fn spec_plus(self, o: Self) -> Self {
        self.plus(o)
    }
    fn spec_minus(self, o: Self) -> Self {
        self.minus(o)
    }
    fn spec_times(self, o: Self) -> Self {
        self.times(o)
    }
    fn spec_over(self, o: Self) -> Self {
        self.over(o)
    }
    fn spec_lesser(self, o: Self) -> Self {
        self.lesser(o)
    }
    fn spec_greater(self, o: Self) -> Self {
        self.greater(o)
    }
    fn spec_below(self, o: Self) -> bool {
        self.below(o)
    }
    fn spec_up_to(self, o: Self) -> bool {
        self.up_to(o)
    }
    fn spec_ceil(self) -> Self {
        self.ceil()
    }
    fn spec_round(self) -> Self {
        self.round()
    }
    fn spec_to_u32(self) -> u32 {
        self.to_u32()
    }
    fn spec_is_finite(self) -> bool {
        self.is_finite()
    }
    fn spec_bits(self) -> u64 {
        self.bits()
    }
    fn bits_tell_apart(_a: Self, _b: Self) {}
}

impl Wide for F64 {
    type Narrow = F32;
    fn narrow(self) -> F32 {
        F32(self.0 as f32)
    }
    fn spec_narrow(self) -> F32 {
        self.narrow()
    }
}

/// A place where no icons are found.
fn no_icon(_: &str) -> Option<Pixmap> {
    None
}

/// Paints the picture with tiny-skia.
fn paint(pixmap: Pixmap, shapes: Vec<Shape<F32>>, scale: f32, icons: &IconCache) -> Pixmap {
    let mut pixmap = pixmap;
    let s = Transform::from_scale(scale, scale);
    for shape in &shapes {
        let Some(rect) = Rect::from_xywh(shape.x.0, shape.y.0, shape.w.0, shape.h.0) else {
            continue;
        };
        let segments = rounded_rect(
            F32(rect.left()),
            F32(rect.top()),
            F32(rect.width()),
            F32(rect.height()),
            shape.radius,
        );
        let mut pb = PathBuilder::new();
        for segment in segments {
            match segment {
                Segment::Rect => pb.push_rect(rect),
                Segment::MoveTo(x, y) => pb.move_to(x.0, y.0),
                Segment::LineTo(x, y) => pb.line_to(x.0, y.0),
                Segment::QuadTo(x1, y1, x, y) => pb.quad_to(x1.0, y1.0, x.0, y.0),
                Segment::Close => pb.close(),
            }
        }
        let path = pb.finish().unwrap_or_else(|| PathBuilder::from_rect(rect));
        let mut brush = Paint::default();
        if let Some(c) = &shape.fill {
            brush.set_color(Color::from_rgba(c.r.0, c.g.0, c.b.0, c.a.0).unwrap_or(Color::BLACK));
            pixmap.fill_path(&path, &brush, FillRule::Winding, s, None);
        }
        if let Some(b) = &shape.border {
            let c = &b.color;
            brush.set_color(Color::from_rgba(c.r.0, c.g.0, c.b.0, c.a.0).unwrap_or(Color::BLACK));
            let stroke = Stroke { width: b.width.0, ..Stroke::default() };
            pixmap.stroke_path(&path, &brush, &stroke, s, None);
        }
        if let Some(icon) = &shape.icon {
            if let Some(image) = icons.get(&icon.app_id) {
                let how = PixmapPaint { quality: FilterQuality::Bilinear, ..Default::default() };
                let k = icon.blit.zoom.0;
                let t = Transform::from_scale(k, k).post_translate(icon.blit.dx.0, icon.blit.dy.0);
                pixmap.draw_pixmap(0, 0, image.as_ref(), &how, t, None);
            }
        }
    }
    pixmap
}

#[allow(clippy::too_many_arguments)]
fn render(
    scratch: &mut Vec<u8>,
    w: u32,
    h: u32,
    scale: f32,
    cfg: &AppearanceConfig<F64>,
    mode: &str,
    focused: Option<&Row<F64>>,
    rows: &[RowView<F64>],
    icons: &mut IconCache,
    show_icons: bool,
) -> Option<()> {
    render_into(
        scratch,
        w,
        h,
        F32(scale),
        cfg,
        mode,
        focused,
        rows,
        icons,
        show_icons,
        &no_icon,
        |pixmap: Pixmap, shapes: Vec<Shape<F32>>, icons: &IconCache| {
            paint(pixmap, shapes, scale, icons)
        },
    )
}

fn test_window(
    id: u64,
    ws: u64,
    col: usize,
    tile: usize,
    w: f64,
    h: f64,
    view_x: f64,
) -> Window<F64> {
    Window {
        id,
        app_id: Some("test".into()),
        workspace_id: Some(ws),
        is_focused: false,
        is_floating: false,
        layout: WindowLayout {
            pos_in_scrolling_layout: Some((col, tile)),
            tile_size: (F64(w), F64(h)),
            window_size: (w as i32, h as i32),
            tile_pos_in_workspace_view: Some((F64(view_x), F64(0.0))),
            window_offset_in_tile: (F64(0.0), F64(0.0)),
        },
    }
}

fn ws(id: u64, active: bool, focused: bool) -> Workspace {
    Workspace {
        id,
        idx: 0,
        name: Some(format!("{id}")),
        output: Some("eDP-1".into()),
        is_active: active,
        is_focused: focused,
        active_window_id: None,
    }
}

#[test]
fn renders_pixels_for_tiled_windows() {
    let ws = ws(1, true, true);
    let windows = vec![
        test_window(10, 1, 1, 1, 800.0, 600.0, 0.0),
        test_window(11, 1, 1, 2, 800.0, 400.0, 0.0),
    ];
    let row = build_row(&ws, &windows, None, None, &no_icon);
    assert!(row.has_content());
    assert_eq!(row.tiles.len(), 2);

    let cfg: Config<F64> = Config::default();
    let mut icons = IconCache::default();
    let mut scratch = Vec::new();
    render(
        &mut scratch,
        200,
        200,
        1.0,
        &cfg.appearance,
        "current",
        Some(&row),
        &[],
        &mut icons,
        false,
    )
    .expect("render should succeed");
    let data = &scratch;
    assert_eq!(data.len(), 200 * 200 * 4);
    // With show_icons=false, tiles draw colored rects: at least one pixel
    // must be non-transparent.
    assert!(data.chunks_exact(4).any(|px| px[3] != 0));

    // Icon mode with an unresolvable app_id filters the row to empty.
    let row = build_row(&ws, &windows, None, Some(&mut icons), &no_icon);
    assert!(!row.has_content());
}

#[test]
fn appearance_defaults_are_sane() {
    let a: AppearanceConfig<F64> = AppearanceConfig::default();
    assert!(a.show_icons);
    assert_eq!(
        parse_hex(&a.window_color),
        Some((F32(69.0 / 255.0), F32(71.0 / 255.0), F32(90.0 / 255.0)))
    );
}

#[test]
fn all_mode_rows_are_left_aligned() {
    // Two workspaces with different scroll offsets: the same workspace x
    // coordinate must map to the same widget x in every row, and the
    // active-workspace highlight must hug the row's content width.
    let ws1 = ws(1, true, true);
    let ws2 = ws(2, false, false);
    let windows = vec![
        test_window(10, 1, 1, 1, 400.0, 600.0, 50.0),
        test_window(12, 2, 1, 1, 400.0, 800.0, 200.0),
    ];
    let row1 = build_row(&ws1, &windows, None, None, &no_icon);
    let row2 = build_row(&ws2, &windows, None, None, &no_icon);
    let rows =
        [RowView { is_active: true, row: row1 }, RowView { is_active: false, row: row2 }];

    let cfg: Config<F64> = Config::default();
    let mut icons = IconCache::default();
    let mut scratch = Vec::new();
    render(
        &mut scratch,
        128,
        212,
        1.0,
        &cfg.appearance,
        "all",
        None,
        &rows,
        &mut icons,
        false,
    )
    .expect("render should succeed");
    let data = &scratch;

    fn first_colored(data: &[u8], w: usize, y: usize) -> Option<usize> {
        (0..w).find(|&x| data[(y * w + x) * 4 + 3] != 0)
    }
    fn is_border(data: &[u8], w: usize, x: usize, y: usize) -> bool {
        let px = &data[(y * w + x) * 4..(y * w + x) * 4 + 4];
        // BGRA after the renderer's channel swap: blue channel dominates
        // for #89b4fa.
        px[0] > 200 && px[2] < 160
    }

    // Row 0 content starts at y=4, row 1 at y=108 (4 + 100 + 4 gap).
    let left0 = first_colored(data, 128, 40).expect("row 0 has content");
    let left1 = first_colored(data, 128, 150).expect("row 1 has content");
    assert!(
        (left0 as i32 - left1 as i32).abs() <= 1,
        "rows must be left-aligned: left0={left0} left1={left1}"
    );

    // The active highlight is on row 0's top-left corner...
    assert!(is_border(data, 128, 4, 4), "active border should start at (4,4)");
    // ...and stops at the row's content width (50px), not the widget width.
    assert!(!is_border(data, 128, 56, 4), "border must not span the full widget");
}

#[test]
fn icons_are_centered_in_their_tiles() {
    // A 128px icon in a wide, short tile must be centred: the icon's left
    // edge sits at the tile centre minus half the icon width, never scaled
    // by the icon's own shrink factor.
    let mut icon = Pixmap::new(128, 128).unwrap();
    icon.fill(Color::from_rgba8(255, 0, 0, 255));
    let mut icons = IconCache::default();
    icons.insert("test-icon", icon);

    let ws = ws(1, true, true);
    let mut win = test_window(10, 1, 1, 1, 800.0, 400.0, 0.0);
    win.app_id = Some("test-icon".into());
    let windows = vec![win];
    let row = build_row(&ws, &windows, None, Some(&mut icons), &no_icon);

    let cfg: Config<F64> = Config::default();
    let mut scratch = Vec::new();
    render(
        &mut scratch,
        200,
        100,
        1.0,
        &cfg.appearance,
        "current",
        Some(&row),
        &[],
        &mut icons,
        true,
    )
    .expect("render should succeed");
    let data = &scratch;

    fn red_px(data: &[u8], w: usize, x: usize, y: usize) -> bool {
        let px = &data[(y * w + x) * 4..(y * w + x) * 4 + 4];
        px[0] < 40 && px[2] > 200 // BGRA: red icon keeps B low, R high
    }
    fn leftmost_red(data: &[u8], w: usize, y: usize) -> Option<usize> {
        (0..w).find(|&x| red_px(data, w, x, y))
    }

    // Tile (after the 2px gap inset): x0=9, w=182, h=90; icon 63px
    // centred -> left edge at 68.5, so pixel 69 is the first fully
    // covered one.
    let left = leftmost_red(data, 200, 50).expect("icon should be visible");
    assert!((68..70).contains(&left), "icon left edge must be centred, got {left}");
    // Centre pixel is inside the icon...
    assert!(red_px(data, 200, 100, 50));
    // ...while the tile's own left area is the background colour.
    assert!(!red_px(data, 200, 20, 50));
}

#[test]
fn all_mode_marks_last_focused_window() {
    // Rows stay left-aligned; the workspace's last-focused window is
    // outlined with the special border colour instead of being centred.
    let mut ws1 = ws(1, true, true);
    ws1.active_window_id = Some(11); // column 2 of workspace 1
    let ws2 = ws(2, false, false);
    let mut windows = Vec::new();
    for (i, col) in [1usize, 2, 3].into_iter().enumerate() {
        windows.push(test_window(10 + i as u64, 1, col, 1, 300.0, 400.0, 0.0));
        windows.push(test_window(20 + i as u64, 2, col, 1, 300.0, 400.0, 0.0));
    }
    // Window 11 (column 2 of workspace 1) was the last focused one.
    windows.iter_mut().find(|w| w.id == 11).unwrap().is_focused = true;

    let row1 = build_row(&ws1, &windows, None, None, &no_icon);
    let row2 = build_row(&ws2, &windows, None, None, &no_icon);
    assert_eq!(
        row1.tiles.iter().filter(|t| t.is_last_focused).count(),
        1,
        "exactly one tile marked as last focused"
    );
    assert!(
        row2.tiles.iter().all(|t| !t.is_last_focused),
        "workspace without focus information has no special mark"
    );

    let rows =
        [RowView { is_active: true, row: row1 }, RowView { is_active: false, row: row2 }];
    let cfg: Config<F64> = Config::default();
    let mut icons = IconCache::default();
    let mut scratch = Vec::new();
    render(
        &mut scratch,
        150,
        212,
        1.0,
        &cfg.appearance,
        "all",
        None,
        &rows,
        &mut icons,
        false,
    )
    .expect("render should succeed");
    let data = &scratch;

    fn special_px(data: &[u8], w: usize, x: usize, y: usize) -> bool {
        let px = &data[(y * w + x) * 4..(y * w + x) * 4 + 4];
        // active_window_border_color #f38ba8 -> BGRA (168, 139, 243),
        // distinct from focused fill (250, 180, 137) and window fill.
        px[0] > 140 && px[0] < 200 && px[1] < 180 && px[2] > 230
    }
    fn special_range(data: &[u8], w: usize, y: usize) -> Option<(usize, usize)> {
        let mut lo = None;
        let mut hi = None;
        for x in 0..w {
            if special_px(data, w, x, y) {
                lo.get_or_insert(x);
                hi = Some(x);
            }
        }
        Some((lo?, hi?))
    }

    // Both rows are left-aligned: content starts at the same x.
    fn first_colored(data: &[u8], w: usize, y: usize) -> usize {
        (0..w).find(|&x| data[(y * w + x) * 4 + 3] != 0).unwrap_or(w)
    }
    let left0 = first_colored(data, 150, 40);
    let left1 = first_colored(data, 150, 150);
    assert!(
        (left0 as i32 - left1 as i32).abs() <= 1,
        "rows must be left-aligned: left0={left0} left1={left1}"
    );

    // Row 0: the special border outlines column 2 (left ~ 79, clipped by
    // the widget's inner width at ~ 146).
    let (lo, hi) = special_range(data, 150, 4).expect("special border visible");
    assert!((78..82).contains(&lo), "special border left edge, got {lo}");
    assert!((142..147).contains(&hi), "special border right edge, got {hi}");
    // Row 1: no special border.
    assert!(special_range(data, 150, 108).is_none());
}

#[test]
fn floating_windows_are_placed_in_the_row() {
    let mut ws1 = ws(1, true, true);
    ws1.active_window_id = Some(20);
    // Tiled window at column 1 (workspace x 0) shown at viewport x -200:
    // the viewport's left edge is at workspace x 200.
    let tiled = test_window(10, 1, 1, 1, 400.0, 500.0, -200.0);
    // Floating window at viewport (100, 200), size 300x200.
    let mut float = test_window(20, 1, 1, 1, 300.0, 200.0, 100.0);
    float.layout.pos_in_scrolling_layout = None;
    float.layout.tile_pos_in_workspace_view = Some((F64(100.0), F64(200.0)));
    float.layout.window_size = (300, 200);
    float.is_focused = true;
    let windows = vec![tiled, float];

    let row = build_row(&ws1, &windows, None, None, &no_icon);

    let tiled = row.tiles.iter().find(|t| t.w == F64(400.0)).unwrap();
    assert_eq!(tiled.x, F64(0.0));
    let fl = row.tiles.iter().find(|t| t.w == F64(300.0)).unwrap();
    assert_eq!(fl.x, F64(300.0), "floating x = viewport offset (200) + view x (100)");
    assert_eq!(fl.y, F64(200.0));
    assert_eq!(fl.w, F64(300.0));
    assert_eq!(fl.h, F64(200.0));
    assert!(fl.is_last_focused);
    // Scaling metrics come from the tiled layout only; the floating
    // window is an overlay and keeps its own extent.
    assert_eq!(row.total_width, F64(400.0));
    assert_eq!(row.max_height, F64(500.0));
    assert_eq!(row.float_width, F64(600.0));
    assert_eq!(row.float_height, F64(400.0));
    assert_eq!(row.scale_w(), F64(400.0));
    assert_eq!(row.scale_h(), F64(500.0));
}

#[test]
fn floating_windows_do_not_rescale_other_rows() {
    // Moving a floating window in one workspace must not change the
    // scaling of any other row (or of the tiled windows in its own row).
    let ws1 = ws(1, true, true);
    let ws2 = ws(2, false, false);
    let mut float = test_window(21, 2, 1, 1, 300.0, 200.0, 0.0);
    float.layout.pos_in_scrolling_layout = None;
    float.layout.window_size = (300, 200);
    let mut windows = vec![
        test_window(10, 1, 1, 1, 400.0, 500.0, 0.0),
        test_window(20, 2, 1, 1, 300.0, 400.0, 0.0),
        float,
    ];

    let cfg: Config<F64> = Config::default();
    let mut icons = IconCache::default();
    let mut scratch = Vec::new();

    fn row_tile_left(data: &[u8], w: usize, y: usize) -> Option<usize> {
        (0..w).find(|&x| data[(y * w + x) * 4 + 3] != 0)
    }

    // First frame: float near the top of workspace 2.
    windows[2].layout.tile_pos_in_workspace_view = Some((F64(50.0), F64(10.0)));
    {
        let rows = [
            RowView { is_active: true, row: build_row(&ws1, &windows, None, None, &no_icon) },
            RowView { is_active: false, row: build_row(&ws2, &windows, None, None, &no_icon) },
        ];
        render(
            &mut scratch,
            150,
            212,
            1.0,
            &cfg.appearance,
            "all",
            None,
            &rows,
            &mut icons,
            false,
        )
        .unwrap();
    }
    let row1_left = row_tile_left(&scratch, 150, 40).expect("row 1 tile");
    let row2_tiled_left = row_tile_left(&scratch, 150, 150).expect("row 2 tiled tile");

    // Second frame: float dragged far down, well beyond the tiled area.
    windows[2].layout.tile_pos_in_workspace_view = Some((F64(50.0), F64(8000.0)));
    {
        let rows = [
            RowView { is_active: true, row: build_row(&ws1, &windows, None, None, &no_icon) },
            RowView { is_active: false, row: build_row(&ws2, &windows, None, None, &no_icon) },
        ];
        render(
            &mut scratch,
            150,
            212,
            1.0,
            &cfg.appearance,
            "all",
            None,
            &rows,
            &mut icons,
            false,
        )
        .unwrap();
    }
    assert_eq!(
        row_tile_left(&scratch, 150, 40),
        Some(row1_left),
        "workspace 1 must not rescale when workspace 2's float moves"
    );
    assert_eq!(
        row_tile_left(&scratch, 150, 150),
        Some(row2_tiled_left),
        "workspace 2's tiled window must not rescale when its float moves"
    );
}

#[test]
fn reused_scratch_does_not_ghost_old_pixels() {
    // Two renders into the same scratch buffer with different content:
    // regions that were covered by a tile in the first frame and are
    // empty in the second must be transparent, not stale pixels from the
    // previous frame.
    let ws1 = ws(1, true, true);
    let mut win = test_window(10, 1, 1, 1, 300.0, 200.0, 0.0);
    win.layout.pos_in_scrolling_layout = None;
    win.is_focused = true;
    win.layout.tile_pos_in_workspace_view = Some((F64(100.0), F64(100.0)));
    let mut windows = vec![win];

    let cfg: Config<F64> = Config::default(); // background_opacity = 0.0
    let mut icons = IconCache::default();
    let mut scratch = Vec::new();

    fn tile_at(data: &[u8], w: usize, x: usize, y: usize) -> bool {
        data[(y * w + x) * 4 + 3] != 0
    }

    {
        let row = build_row(&ws1, &windows, None, None, &no_icon);
        render(
            &mut scratch,
            200,
            200,
            1.0,
            &cfg.appearance,
            "current",
            Some(&row),
            &[],
            &mut icons,
            false,
        )
        .unwrap();
    }
    assert!(tile_at(&scratch, 200, 110, 110), "first frame draws the floating tile");

    // Move the floating window far outside the widget.
    windows[0].layout.tile_pos_in_workspace_view = Some((F64(2000.0), F64(2000.0)));
    {
        let row = build_row(&ws1, &windows, None, None, &no_icon);
        render(
            &mut scratch,
            200,
            200,
            1.0,
            &cfg.appearance,
            "current",
            Some(&row),
            &[],
            &mut icons,
            false,
        )
        .unwrap();
    }
    assert!(
        !tile_at(&scratch, 200, 110, 110),
        "moved tile must not ghost at its old position"
    );
}

fn win(id: u64, ws: u64, x: f64, y: f64) -> Window<F64> {
    Window {
        id,
        app_id: Some("test".into()),
        workspace_id: Some(ws),
        is_focused: false,
        is_floating: false,
        layout: WindowLayout {
            pos_in_scrolling_layout: Some((1, 1)),
            tile_size: (F64(800.0), F64(600.0)),
            window_size: (800, 600),
            tile_pos_in_workspace_view: Some((F64(x), F64(y))),
            window_offset_in_tile: (F64(0.0), F64(0.0)),
        },
    }
}

fn signature(cfg: &Config<F64>, workspaces: &[Workspace], windows: &[Window<F64>]) -> u64 {
    content_signature(
        cfg,
        1,
        1,
        Some((200, 100)),
        Some("eDP-1"),
        F32(1920.0),
        F32(1080.0),
        workspaces,
        windows,
        &[],
    )
}

#[test]
fn unchanged_state_keeps_signature() {
    let cfg: Config<F64> = Config::default();
    let workspaces = vec![ws(1, true, true)];
    let windows = vec![win(10, 1, 0.0, 0.0)];
    let a = signature(&cfg, &workspaces, &windows);
    let b = signature(&cfg, &workspaces, &windows);
    assert_eq!(a, b);
}

#[test]
fn moving_a_window_changes_signature() {
    let cfg: Config<F64> = Config::default();
    let workspaces = vec![ws(1, true, true)];
    let mut windows = vec![win(10, 1, 0.0, 0.0)];

    let base = signature(&cfg, &workspaces, &windows);
    windows[0].layout.tile_pos_in_workspace_view = Some((F64(400.0), F64(300.0)));
    let moved = signature(&cfg, &workspaces, &windows);
    assert_ne!(base, moved);
}

#[test]
fn signature_takes_in_everything_that_is_drawn() {
    // FNV-1a over the same bytes, written out by hand.
    fn text(h: &mut Fnv1a, s: &str) {
        for b in s.bytes() {
            h.byte(b);
        }
        h.byte(0xff);
    }
    let cfg: Config<F64> = Config::default();
    let workspaces = vec![ws(1, true, true), ws(2, false, false)];
    let windows = vec![win(11, 2, 1.0, 1.0), win(10, 1, 3.0, 4.0)];
    let outputs = vec![
        Output { name: "eDP-1".into(), logical: Some((1920, 1080)) },
        Output { name: "DP-2".into(), logical: None },
    ];
    let mut h = Fnv1a::new();
    for t in ["current", "#1e1e2e", "#45475a", "#89b4fa", "#6c7086", "#89b4fa", "#f38ba8"] {
        text(&mut h, t);
    }
    h.u64(100);
    h.u64(0.5f64.to_bits());
    h.u64(0.8f64.to_bits());
    h.u64(1);
    h.u64(0.0f64.to_bits());
    h.u64(1.0f64.to_bits());
    h.u64(2.0f64.to_bits());
    h.u64(2.0f64.to_bits());
    h.u64(0.7f64.to_bits());
    h.u64(1.0f64.to_bits());
    h.u64(1);
    h.u64(4.0f64.to_bits());
    h.u64(2.0f64.to_bits());
    h.u64(2.0f64.to_bits());
    // The surface.
    h.u64(1);
    text(&mut h, "eDP-1");
    h.u64(7);
    h.u64(2);
    h.u64(1);
    h.u64(200);
    h.u64(100);
    h.u64(u64::from(1920.0f32.to_bits()));
    h.u64(u64::from(1080.0f32.to_bits()));
    // Outputs by name.
    h.u64(1);
    text(&mut h, "DP-2");
    h.u64(0);
    h.u64(0);
    h.u64(0);
    h.u64(1);
    text(&mut h, "eDP-1");
    h.u64(1);
    h.u64(1920);
    h.u64(1080);
    h.u64(0);
    // The focused workspace.
    h.u64(1);
    h.u64(1);
    text(&mut h, "1");
    h.u64(1);
    text(&mut h, "eDP-1");
    h.u64(1);
    h.u64(0);
    h.u64(1);
    h.u64(1);
    h.u64(0);
    h.u64(0);
    h.u64(0);
    // Its windows.
    h.u64(1);
    h.u64(1);
    text(&mut h, "test");
    h.u64(10);
    h.u64(1);
    h.u64(1);
    h.u64(0);
    h.u64(0);
    h.u64(1);
    h.u64(1);
    h.u64(1);
    h.u64(800.0f64.to_bits());
    h.u64(600.0f64.to_bits());
    h.u64(800);
    h.u64(600);
    h.u64(1);
    h.u64(3.0f64.to_bits());
    h.u64(4.0f64.to_bits());
    h.u64(0.0f64.to_bits());
    h.u64(0.0f64.to_bits());
    h.u64(0);
    let expected = h.finish();
    let sig = content_signature(
        &cfg,
        7,
        2,
        Some((200, 100)),
        Some("eDP-1"),
        F32(1920.0),
        F32(1080.0),
        &workspaces,
        &windows,
        &outputs,
    );
    assert_eq!(sig, expected);
}

#[test]
fn windows_of_other_workspaces_do_not_change_the_signature() {
    let cfg: Config<F64> = Config::default();
    let workspaces = vec![ws(1, true, true), ws(2, false, false)];
    let mut windows = vec![win(10, 1, 0.0, 0.0), win(11, 2, 0.0, 0.0)];
    let base = signature(&cfg, &workspaces, &windows);
    windows[1].layout.tile_pos_in_workspace_view = Some((F64(400.0), F64(300.0)));
    assert_eq!(base, signature(&cfg, &workspaces, &windows));
    // Nor does the order in which windows come.
    windows.reverse();
    assert_eq!(base, signature(&cfg, &workspaces, &windows));
}

#[test]
fn what_is_missing_is_not_what_is_zero_or_empty() {
    let cfg: Config<F64> = Config::default();
    let mut workspaces = vec![ws(1, true, true)];
    let mut windows = vec![win(10, 1, 0.0, 0.0)];
    windows[0].layout.pos_in_scrolling_layout = None;
    windows[0].layout.window_size = (300, 200);
    let at_the_origin = signature(&cfg, &workspaces, &windows);
    windows[0].layout.tile_pos_in_workspace_view = None;
    let out_of_view = signature(&cfg, &workspaces, &windows);
    assert_ne!(at_the_origin, out_of_view);
    // One of the two is drawn.
    assert_eq!(build_row(&workspaces[0], &windows, None, None, &no_icon).tiles.len(), 0);
    windows[0].layout.tile_pos_in_workspace_view = Some((F64(0.0), F64(0.0)));
    assert_eq!(build_row(&workspaces[0], &windows, None, None, &no_icon).tiles.len(), 1);
    // Texts.
    windows[0].app_id = None;
    let nameless = signature(&cfg, &workspaces, &windows);
    windows[0].app_id = Some(String::new());
    assert_ne!(nameless, signature(&cfg, &workspaces, &windows));
    // Texts are not run together.
    workspaces[0].name = Some("ab".into());
    workspaces[0].output = Some("c".into());
    let first = signature(&cfg, &workspaces, &windows);
    workspaces[0].name = Some("a".into());
    workspaces[0].output = Some("bc".into());
    assert_ne!(first, signature(&cfg, &workspaces, &windows));
    // Numbers.
    workspaces[0].active_window_id = None;
    let none = signature(&cfg, &workspaces, &windows);
    workspaces[0].active_window_id = Some(0);
    assert_ne!(none, signature(&cfg, &workspaces, &windows));
}

#[test]
fn the_order_of_reports_does_not_change_the_signature() {
    let mut cfg: Config<F64> = Config::default();
    for mode in ["current", "all"] {
        cfg.display.mode = mode.into();
        let a = signature(
            &cfg,
            &[ws(1, true, true), ws(2, true, false)],
            &[win(10, 1, 0.0, 0.0), win(11, 2, 5.0, 5.0)],
        );
        let b = signature(
            &cfg,
            &[ws(2, true, false), ws(1, true, true)],
            &[win(11, 2, 5.0, 5.0), win(10, 1, 0.0, 0.0)],
        );
        assert_eq!(a, b, "{mode}");
    }

    // Stacked, it does not matter how many have the focus.
    let a = signature(
        &cfg,
        &[ws(1, true, true), ws(2, true, true)],
        &[win(10, 1, 0.0, 0.0), win(11, 2, 5.0, 5.0)],
    );
    let b = signature(
        &cfg,
        &[ws(2, true, true), ws(1, true, true)],
        &[win(11, 2, 5.0, 5.0), win(10, 1, 0.0, 0.0)],
    );
    assert_eq!(a, b);
}

#[test]
fn the_stacked_view_is_never_higher_than_its_limit() {
    let mut cfg: Config<F64> = Config::default();
    cfg.display.mode = "all".into();
    cfg.display.height = 1000;
    cfg.display.max_height_percent = F64(0.8);
    cfg.appearance.workspace_gap = F64(-2000.0);
    let snap = Snapshot {
        workspaces: vec![ws(1, true, true), ws(2, true, false)],
        windows: vec![],
        outputs: vec![],
    };
    let mut icons = IconCache::default();
    let mut todo = Vec::new();
    let app: App<F64, u8> = App::new(cfg, &snap, &mut icons, &no_icon, &mut todo);
    assert_eq!(app.desired_size.1, 864);
}

#[test]
fn fnv_of_known_texts() {
    let mut h = Fnv1a::new();
    assert_eq!(Fnv1a::new().finish(), 0xcbf2_9ce4_8422_2325);
    h.hash("a");
    assert_eq!(h.finish(), 0xaf63_dc4c_8601_ec8c);
    let mut h = Fnv1a::new();
    h.hash("foobar");
    assert_eq!(h.finish(), 0x8594_4171_f739_67e8);
    let mut a = Fnv1a::new();
    a.u64(0x0102_0304_0506_0708);
    let mut b = Fnv1a::new();
    for byte in [8u8, 7, 6, 5, 4, 3, 2, 1] {
        b.byte(byte);
    }
    assert_eq!(a.finish(), b.finish());
}

#[test]
fn frames_that_cannot_be_held_are_refused() {
    let cfg: Config<F64> = Config::default();
    let mut icons = IconCache::default();
    let mut scratch = vec![1, 2, 3];
    let none = render(
        &mut scratch,
        u32::MAX,
        2,
        1.0,
        &cfg.appearance,
        "current",
        None,
        &[],
        &mut icons,
        false,
    );
    assert!(none.is_none());
    assert_eq!(scratch, vec![1, 2, 3]);
    let none =
        render(&mut scratch, 0, 5, 1.0, &cfg.appearance, "current", None, &[], &mut icons, false);
    assert!(none.is_none());
    assert!(scratch.is_empty());
}

#[test]
fn backgrounds_that_are_no_rectangle_are_refused() {
    let mut cfg: Config<F64> = Config::default();
    let icons = &mut IconCache::default();
    for scale in [0.0, -1.0, f32::NAN] {
        cfg.appearance.background_opacity = F64(1.0);
        let mut scratch = vec![1, 2, 3];
        let none =
            render(&mut scratch, 4, 5, scale, &cfg.appearance, "current", None, &[], icons, false);
        assert!(none.is_none(), "{scale}");
        assert!(scratch.is_empty());
        // Without a background there is nothing to refuse.
        cfg.appearance.background_opacity = F64(0.0);
        let some =
            render(&mut scratch, 4, 5, scale, &cfg.appearance, "current", None, &[], icons, false);
        assert!(some.is_some(), "{scale}");
        assert_eq!(scratch, vec![0; 80]);
    }
}

#[test]
fn frames_do_not_depend_on_the_memory() {
    let mut cfg: Config<F64> = Config::default();
    cfg.appearance.background_opacity = F64(0.5);
    let mut icons = IconCache::default();
    let row = build_row(&ws(1, true, true), &[win(10, 1, 0.0, 0.0)], None, None, &no_icon);
    let mut frame = |held: Vec<u8>| {
        let mut scratch = held;
        render(
            &mut scratch,
            40,
            30,
            1.0,
            &cfg.appearance,
            "current",
            Some(&row),
            &[],
            &mut icons,
            false,
        )
        .unwrap();
        scratch
    };
    assert_eq!(frame(Vec::new()), frame(vec![7; 40 * 30 * 4]));
    assert_eq!(frame(vec![9; 3]), frame(vec![1; 9000]));
}

#[test]
fn drawing_looks_for_the_icons_that_it_shows() {
    let cfg: Config<F64> = Config::default();
    let row = build_row(&ws(1, true, true), &[win(10, 1, 0.0, 0.0)], None, None, &no_icon);
    let asked = Cell::new(0);
    let red = |id: &str| {
        assert_eq!(id, "test");
        asked.set(asked.get() + 1);
        let mut icon = Pixmap::new(16, 16)?;
        icon.fill(Color::from_rgba8(255, 0, 0, 255));
        Some(icon)
    };
    let mut icons = IconCache::default();
    let mut draw = |show_icons: bool| {
        let mut scratch = Vec::new();
        render_into(
            &mut scratch,
            200,
            100,
            F32(1.0),
            &cfg.appearance,
            "current",
            Some(&row),
            &[],
            &mut icons,
            show_icons,
            &red,
            |pixmap: Pixmap, shapes: Vec<Shape<F32>>, icons: &IconCache| {
                paint(pixmap, shapes, 1.0, icons)
            },
        )
        .unwrap();
        scratch
    };

    let plain = draw(false);
    assert_eq!(asked.get(), 0);
    let first = draw(true);
    assert_eq!(asked.get(), 1);
    assert_ne!(plain, first);
    assert!(first.chunks_exact(4).any(|px| px == [0, 0, 255, 255]));
    assert_eq!(draw(true), first);
    assert_eq!(asked.get(), 1);
}

#[test]
fn the_background_is_painted_in_bgra() {
    let mut cfg: Config<F64> = Config::default();
    cfg.appearance.background_opacity = F64(1.0);
    cfg.appearance.background = "#102030".into();
    cfg.appearance.border_radius = F64(0.0);
    let icons = &mut IconCache::default();
    let mut scratch = Vec::new();
    render(&mut scratch, 3, 2, 1.0, &cfg.appearance, "current", None, &[], icons, false).unwrap();
    assert_eq!(scratch.len(), 24);
    for px in scratch.chunks_exact(4) {
        assert_eq!(px, [0x30u8, 0x20, 0x10, 0xff]);
    }
    // No colour: nothing is painted.
    cfg.appearance.background = "no colour".into();
    render(&mut scratch, 3, 2, 1.0, &cfg.appearance, "current", None, &[], icons, false).unwrap();
    assert!(scratch.iter().all(|b| *b == 0));
}

#[test]
fn large_icons_are_made_smaller() {
    let big = Pixmap::new(256, 64).unwrap();
    let small = cap_size(big, |_: Pixmap, s: Shrink<F32>| {
        assert_eq!(s.k, F32(0.5));
        Pixmap::new(s.w, s.h)
    })
    .unwrap();
    assert_eq!((small.width(), small.height()), (128, 32));
    let fits = Pixmap::new(128, 100).unwrap();
    let same = cap_size(fits, |_: Pixmap, _: Shrink<F32>| None).unwrap();
    assert_eq!((same.width(), same.height()), (128, 100));
}

#[test]
fn png_icons_are_decoded() {
    let mut image = Pixmap::new(2, 1).unwrap();
    image.fill(Color::from_rgba8(10, 20, 30, 255));
    let data = image.encode_png().unwrap();
    let shrink = |_: Pixmap, _: Shrink<F32>| None;
    let icon = decode_icon("/icons/a.png", &data, shrink, |_: &[u8]| None).unwrap();
    assert_eq!((icon.width(), icon.height()), (2, 1));
    assert_eq!(icon.data(), &[10, 20, 30, 255, 10, 20, 30, 255]);
    assert!(decode_icon("/icons/a.png", &[1, 2, 3], shrink, |_: &[u8]| None).is_none());
    assert!(decode_icon("/icons/a.xpm", &data, shrink, |_: &[u8]| None).is_none());
    let drawn = decode_icon("/icons/a.svg", &[5], shrink, |d: &[u8]| {
        assert_eq!(d, [5u8]);
        Pixmap::new(7, 7)
    })
    .unwrap();
    assert_eq!(drawn.width(), 7);
}

#[test]
fn svg_icons_are_kept_small() {
    let c = svg_canvas(F32(48.0), F32(47.5)).unwrap();
    assert_eq!((c.w, c.h), (48, 48));
    assert_eq!((c.sx, c.sy), (F32(1.0), F32(48.0 / 47.5)));
    let c = svg_canvas(F32(1024.0), F32(0.25)).unwrap();
    assert_eq!((c.w, c.h), (128, 1));
    assert_eq!((c.sx, c.sy), (F32(0.125), F32(4.0)));
    assert!(svg_canvas(F32(0.0), F32(10.0)).is_none());
    assert!(svg_canvas(F32(10.0), F32(-1.0)).is_none());
}

#[test]
fn icons_are_never_enlarged() {
    let small = Pixmap::new(16, 8).unwrap();
    let b = draw_icon(&small, F32(2.0), F32(10.0), F32(20.0), F32(100.0), F32(60.0)).unwrap();
    assert_eq!(b.zoom, F32(2.0));
    assert_eq!((b.dx, b.dy), (F32(2.0 * 52.0), F32(2.0 * 46.0)));
    let big = Pixmap::new(128, 128).unwrap();
    let b = draw_icon(&big, F32(1.0), F32(9.0), F32(5.0), F32(182.0), F32(90.0)).unwrap();
    assert!((b.zoom.0 - 63.0 / 128.0).abs() < 1e-6);
    assert!((b.dx.0 - 68.5).abs() < 1e-4);
    assert!(draw_icon(&big, F32(1.0), F32(0.0), F32(0.0), F32(1.0), F32(1.0)).is_none());
    assert!(draw_icon(&big, F32(1.0), F32(0.0), F32(0.0), F32(0.0), F32(9.0)).is_none());
}

#[test]
fn colours_are_read() {
    assert_eq!(parse_hex("ff0080"), Some((F32(1.0), F32(0.0), F32(128.0 / 255.0))));
    assert_eq!(parse_hex("##FF0080"), Some((F32(1.0), F32(0.0), F32(128.0 / 255.0))));
    assert_eq!(parse_hex("#+f0080"), Some((F32(15.0 / 255.0), F32(0.0), F32(128.0 / 255.0))));
    assert_eq!(parse_hex::<F32>("#ff008"), None);
    assert_eq!(parse_hex::<F32>("#ff008g"), None);
    assert_eq!(parse_hex::<F32>(""), None);
}

#[test]
fn rounded_corners_stay_within_the_sides() {
    let r = rounded_rect(F32(1.0), F32(2.0), F32(10.0), F32(4.0), F32(50.0));
    assert_eq!(r.len(), 10);
    assert!(matches!(r[0], Segment::MoveTo(F32(x), F32(y)) if x == 3.0 && y == 2.0));
    assert!(matches!(r[1], Segment::LineTo(F32(x), F32(y)) if x == 9.0 && y == 2.0));
    assert!(matches!(
        r[2],
        Segment::QuadTo(F32(a), F32(b), F32(c), F32(d)) if (a, b, c, d) == (11.0, 2.0, 11.0, 4.0)
    ));
    assert!(matches!(r[9], Segment::Close));
    let plain = rounded_rect(F32(1.0), F32(2.0), F32(10.0), F32(4.0), F32(0.0));
    assert_eq!(plain.len(), 2);
    assert!(matches!(plain[0], Segment::Rect));
    assert_eq!(scale_of(F32(2.0)), F32(2.0));
    assert_eq!(scale_of(F32(0.0)), F32(1.0));
}

#[test]
fn the_default_file_holds_the_defaults() {
    let table: toml::Table = DEFAULT_CONFIG.parse().unwrap();
    let c: Config<F64> = Config::default();
    let d = table["display"].as_table().unwrap();
    assert_eq!(d["height"].as_integer(), Some(i64::from(c.display.height)));
    assert_eq!(d["max_width_percent"].as_float(), Some(c.display.max_width_percent.0));
    assert_eq!(d["max_height_percent"].as_float(), Some(c.display.max_height_percent.0));
    assert_eq!(d["anchor"].as_str(), Some(c.display.anchor.as_str()));
    assert_eq!(d["margin_x"].as_integer(), Some(i64::from(c.display.margin_x)));
    assert_eq!(d["margin_y"].as_integer(), Some(i64::from(c.display.margin_y)));
    assert_eq!(d["mode"].as_str(), Some(c.display.mode.as_str()));
    assert_eq!(d["follow_focus"].as_bool(), Some(c.display.follow_focus));
    let a = table["appearance"].as_table().unwrap();
    let number = |key: &str| a[key].as_float().or(a[key].as_integer().map(|i| i as f64)).unwrap();
    let p = &c.appearance;
    assert_eq!(a["background"].as_str(), Some(p.background.as_str()));
    assert_eq!(number("background_opacity"), p.background_opacity.0);
    assert_eq!(a["window_color"].as_str(), Some(p.window_color.as_str()));
    assert_eq!(a["focused_color"].as_str(), Some(p.focused_color.as_str()));
    assert_eq!(a["border_color"].as_str(), Some(p.border_color.as_str()));
    assert_eq!(number("border_width"), p.border_width.0);
    assert_eq!(number("border_radius"), p.border_radius.0);
    assert_eq!(number("gap"), p.gap.0);
    assert_eq!(number("window_opacity"), p.window_opacity.0);
    assert_eq!(number("focused_opacity"), p.focused_opacity.0);
    assert_eq!(a["show_icons"].as_bool(), Some(p.show_icons));
    assert_eq!(number("workspace_gap"), p.workspace_gap.0);
    assert_eq!(
        a["active_workspace_border_color"].as_str(),
        Some(p.active_workspace_border_color.as_str())
    );
    assert_eq!(number("active_workspace_border_width"), p.active_workspace_border_width.0);
    assert_eq!(
        a["active_window_border_color"].as_str(),
        Some(p.active_window_border_color.as_str())
    );
    assert_eq!(number("active_window_border_width"), p.active_window_border_width.0);
    assert_eq!(a.len(), 16);
    assert_eq!(d.len(), 8);
}

#[test]
fn broken_settings_fall_back_to_the_defaults() {
    let c: Config<F64> = Config::load(None);
    assert_eq!(c.display.height, 100);
    let mut mine: Config<F64> = Config::default();
    mine.display.height = 42;
    assert_eq!(Config::load(Some(mine)).display.height, 42);
    assert_eq!(Config::<F64>::path(Some("/home/u/.config")), "/home/u/.config/nirimap/config.toml");
    assert_eq!(Config::<F64>::path(None), "./nirimap/config.toml");
    let d: DisplayConfig<F64> = DisplayConfig::default();
    assert_eq!((d.height, d.margin_x, d.margin_y, d.follow_focus), (0, 0, 0, false));
    assert!(d.anchor.is_empty() && d.mode.is_empty());
    assert!(default_true());
    assert_eq!(default_active_window_border_color(), "#f38ba8");
    assert_eq!(default_active_window_border_width::<F64>(), F64(2.0));
}

#[test]
fn damage_is_reported_to_old_and_new_surfaces() {
    assert_eq!(
        damage_of((3, 5, 7, 9), 2, 4),
        Damage::Buffer { x: 3, y: 5, w: 7, h: 9 }
    );
    assert_eq!(
        damage_of((3, 5, 7, 9), 2, 3),
        Damage::Surface { x: 1, y: 2, w: 4, h: 5 }
    );
    // Two pixels of the buffer that lie in two logical ones.
    assert_eq!(damage_of((1, 3, 2, 2), 2, 3), Damage::Surface { x: 0, y: 1, w: 2, h: 2 });
    assert_eq!(damage_of((4, 6, 2, 3), 3, 1), Damage::Surface { x: 1, y: 2, w: 1, h: 1 });
    assert_eq!(damage_of((4, 6, 2, 3), 0, 1), Damage::Surface { x: 4, y: 6, w: 2, h: 3 });
}
