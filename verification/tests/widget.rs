//! The widget as a state machine, in whole pixels.

use std::cell::RefCell;

use nirimap::app::App;
use nirimap::config::{Config, Edges};
use nirimap::icons::IconCache;
use nirimap::ipc::{Snapshot, UiMsg};
use nirimap::model::{Effect, Margins, REDRAW_MIN_INTERVAL};
use nirimap::render::{diff_bbox, Shape};
use nirimap::scalar::Px;
use nirimap::shm::{memory_len, Made};
use nirimap::state::{Output, Window, WindowLayout, Workspace};
use tiny_skia::Pixmap;

fn window(id: u64, ws: u64, col: usize, w: u64, h: u64) -> Window<Px> {
    Window {
        id,
        app_id: None,
        workspace_id: Some(ws),
        is_focused: false,
        is_floating: false,
        layout: WindowLayout {
            pos_in_scrolling_layout: Some((col, 1)),
            tile_size: (Px(w), Px(h)),
            window_size: (w as i32, h as i32),
            tile_pos_in_workspace_view: None,
            window_offset_in_tile: (Px(0), Px(0)),
        },
    }
}

fn workspace(id: u64, focused: bool) -> Workspace {
    Workspace {
        id,
        idx: 1,
        name: None,
        output: Some("eDP-1".into()),
        is_active: focused,
        is_focused: focused,
        active_window_id: None,
    }
}

fn snapshot() -> Snapshot<Px> {
    Snapshot {
        workspaces: vec![workspace(1, true)],
        windows: vec![window(10, 1, 1, 92, 92), window(11, 1, 2, 184, 92)],
        outputs: vec![Output { name: "eDP-1".into(), logical: Some((1000, 800)) }],
    }
}

/// Fractions are whole numbers here, so the limits are set to all of the output.
fn config() -> Config<Px> {
    let mut c: Config<Px> = Config::default();
    c.display.max_width_percent = Px(1);
    c.display.max_height_percent = Px(1);
    c.appearance.show_icons = false;
    c
}

/// A place where no icons are found.
fn no_icon(_: &str) -> Option<Pixmap> {
    None
}

fn start(snap: &Snapshot<Px>, icons: &mut IconCache) -> (App<Px, u8>, Vec<Effect>) {
    let mut todo = Vec::new();
    let app = App::new(config(), snap, icons, &no_icon, &mut todo);
    (app, todo)
}

/// Paints each shape as one byte, so that another picture is another frame.
fn paint(pixmap: Pixmap, shapes: Vec<Shape<Px>>, _: &IconCache) -> Pixmap {
    let mut pixmap = pixmap;
    for (i, s) in shapes.iter().enumerate() {
        pixmap.data_mut()[i * 4] = (s.x.0 + s.w.0) as u8;
    }
    pixmap
}

fn make(_: Option<&u8>, w: u32, h: u32, id: u64) -> Option<Made<u8>> {
    let bytes = memory_len(w, h)?;
    Some(Made { buffer: id as u8, proxy_id: 100 + id as u32, bytes })
}

#[test]
fn a_new_surface_asks_for_its_size() {
    let mut icons = IconCache::default();
    let (app, todo) = start(&snapshot(), &mut icons);
    assert_eq!(
        todo,
        vec![
            Effect::CreateSurface {
                generation: 1,
                output: None,
                edges: Edges { top: true, bottom: false, left: false, right: true },
                margins: Margins { top: 10, right: 10, bottom: 10, left: 10 },
            },
            Effect::SetBufferScale(1),
            // Content 276x92 at scale 1, and 4 pixels around it.
            Effect::RequestSize(284, 100),
        ]
    );
    assert!(app.size_pending && app.size_requested && app.dirty);
    assert_eq!(app.configured, None);
}

#[test]
fn the_surface_follows_the_focused_output() {
    let mut icons = IconCache::default();
    let snap = snapshot();
    let (mut app, _) = start(&snap, &mut icons);
    let mut todo = Vec::new();
    app.init_outputs(&[(7, 70), (8, 80)], &mut todo);
    assert!(todo.is_empty());
    app.on_output_name(80, "eDP-1".into(), &snap, &mut icons, &no_icon, &mut todo);
    assert!(todo.is_empty());
    app.on_state_changed(&snap, &mut icons, &no_icon, 0, &mut todo);
    assert_eq!(todo[0], Effect::DestroySurface);
    assert!(matches!(todo[1], Effect::CreateSurface { generation: 2, output: Some(80), .. }));
    assert_eq!(todo[2], Effect::SetBufferScale(1));
    assert_eq!(todo[3], Effect::RequestSize(284, 100));
    assert_eq!(todo.len(), 4);
    assert_eq!(app.viewport_width, Px(1000));
    assert_eq!(app.output_height, Px(800));
    // The scale of that output counts.
    todo.clear();
    app.on_output_scale(80, 2, &snap, 0, &mut todo);
    assert_eq!(todo, vec![Effect::SetBufferScale(2)]);
    app.on_output_scale(70, 3, &snap, 0, &mut todo);
    assert_eq!(app.surface_scale, 2);
    app.on_output_removed(7);
    assert_eq!(app.outputs.len(), 1);
    todo.clear();
    app.on_surface_enter(80, &snap, 0, &mut todo);
    assert!(todo.is_empty());
    // The name of the focused output came late: the surface is made anew.
    app.on_output_added(9, 90, &mut todo);
    app.on_output_name(90, "eDP-1".into(), &snap, &mut icons, &no_icon, &mut todo);
    assert!(todo.contains(&Effect::DestroySurface));
    assert_eq!(app.surface_generation, 3);
}

#[test]
fn frames_are_drawn_once_and_spaced() {
    let mut icons = IconCache::default();
    let mut snap = snapshot();
    let (mut app, _) = start(&snap, &mut icons);
    let mut todo = Vec::new();
    app.on_state_changed(&snap, &mut icons, &no_icon, 0, &mut todo);
    let generation = app.surface_generation;

    // A size for a surface that is gone is ignored.
    todo.clear();
    app.on_configure(generation - 1, 284, 100, &snap, 0, &mut todo);
    assert!(todo.is_empty() && app.size_pending);

    app.on_configure(generation, 284, 100, &snap, 0, &mut todo);
    assert_eq!(todo[0], Effect::AckConfigure);
    let Effect::Draw(sig) = todo[1] else { panic!("{todo:?}") };
    let frame = app.draw(sig, &snap, &mut icons, &no_icon, paint, make).unwrap();
    assert!(frame.full);
    assert_eq!(frame.area, (0, 0, 284, 100));
    assert_eq!((frame.slot, frame.size), (0, (284, 100)));
    app.on_presented(sig, 1, 1000);
    assert!(!app.dirty);
    assert_eq!(app.last_committed, app.render_scratch);

    // Nothing changed: nothing happens.
    todo.clear();
    app.on_state_changed(&snap, &mut icons, &no_icon, 2000, &mut todo);
    assert!(todo.is_empty() && !app.dirty);

    // A change waits for the frame callback...
    snap.windows[0].is_focused = true;
    app.on_state_changed(&snap, &mut icons, &no_icon, 2000, &mut todo);
    assert!(todo.is_empty() && app.dirty);
    // ...which must be that of the frame...
    app.on_frame_done(9, &snap, 3000, &mut todo);
    assert!(todo.is_empty());
    // ...and then for the shortest time between frames.
    app.on_frame_done(1, &snap, 3000, &mut todo);
    assert_eq!(todo, vec![Effect::ArmTimer]);
    todo.clear();
    app.on_state_changed(&snap, &mut icons, &no_icon, 4000, &mut todo);
    assert!(todo.is_empty());
    app.on_timer(&snap, 999 + REDRAW_MIN_INTERVAL, &mut todo);
    assert_eq!(todo, vec![Effect::ArmTimer]);
    todo.clear();
    app.on_timer(&snap, 1000 + REDRAW_MIN_INTERVAL, &mut todo);
    let Effect::Draw(sig) = todo[0] else { panic!("{todo:?}") };

    // The colours changed, but this painter does not show it: the frame is
    // dropped.
    assert!(app.draw(sig, &snap, &mut icons, &no_icon, paint, make).is_none());
    assert!(!app.dirty);
    assert_eq!(app.last_sig, sig);
}

#[test]
fn the_widget_looks_for_the_icons_that_it_shows() {
    let mut snap = snapshot();
    snap.windows[0].app_id = Some("found".into());
    snap.windows[1].app_id = Some("missing".into());
    let asked: RefCell<Vec<String>> = RefCell::new(Vec::new());
    let look_up = |id: &str| {
        asked.borrow_mut().push(id.to_owned());
        if id == "found" {
            Pixmap::new(1, 1)
        } else {
            None
        }
    };
    let mut icons = IconCache::default();
    let mut shown = config();
    shown.appearance.show_icons = true;
    let mut todo = Vec::new();
    let mut app: App<Px, u8> = App::new(shown, &snap, &mut icons, &look_up, &mut todo);
    assert_eq!(*asked.borrow(), vec!["found", "missing"]);
    app.on_state_changed(&snap, &mut icons, &look_up, 0, &mut todo);
    todo.clear();
    app.on_configure(app.surface_generation, 100, 100, &snap, 0, &mut todo);
    let Effect::Draw(sig) = todo[1] else { panic!("{todo:?}") };
    let paint = |pixmap: Pixmap, _: Vec<Shape<Px>>, icons: &IconCache| {
        assert!(icons.get("found").is_some());
        assert!(icons.get("missing").is_none());
        pixmap
    };
    assert!(app.draw(sig, &snap, &mut icons, &look_up, paint, make).is_some());
    assert_eq!(asked.borrow().len(), 2);
}

#[test]
fn a_redraw_waits_for_a_buffer() {
    let mut icons = IconCache::default();
    let mut snap = snapshot();
    let (mut app, _) = start(&snap, &mut icons);
    let mut todo = Vec::new();
    app.on_state_changed(&snap, &mut icons, &no_icon, 0, &mut todo);
    let generation = app.surface_generation;
    app.on_configure(generation, 284, 100, &snap, 0, &mut todo);
    let mut now = 0;
    for (i, width) in [92u64, 93, 94].into_iter().enumerate() {
        snap.windows[0].layout.tile_size.0 = Px(width);
        app.dirty = true;
        todo.clear();
        app.frame_cb = None;
        now += REDRAW_MIN_INTERVAL;
        app.on_timer(&snap, now, &mut todo);
        let Effect::Draw(sig) = todo[0] else { panic!("{todo:?}") };
        let frame = app.draw(sig, &snap, &mut icons, &no_icon, paint, make);
        if i < 2 {
            assert_eq!(frame.unwrap().slot, i);
            app.on_presented(sig, i as u64, now);
        } else {
            // The compositor has both buffers.
            assert!(frame.is_none());
            assert!(app.dirty);
            assert_eq!(app.last_sig, 0);
        }
    }
    assert_eq!(app.pool.len(), 2);
    todo.clear();
    app.frame_cb = None;
    let gone = app.on_buffer_release(101, &snap, now + REDRAW_MIN_INTERVAL, &mut todo);
    assert!(gone.is_empty());
    let Effect::Draw(sig) = todo[0] else { panic!("{todo:?}") };
    let frame = app
        .draw(sig, &snap, &mut icons, &no_icon, paint, |_: Option<&u8>, _: u32, _: u32, _: u64| {
            panic!("reused")
        })
        .unwrap();
    assert_eq!(frame.slot, 0);
    assert!(!frame.full);
    // The second shape moved: only its pixel changed, and that of the first.
    assert_eq!(frame.area, (0, 0, 2, 1));
}

#[test]
fn settings_move_the_widget_only_where_they_must() {
    let mut icons = IconCache::default();
    let snap = snapshot();
    let (mut app, _) = start(&snap, &mut icons);
    let mut todo = Vec::new();
    let mut taller = config();
    taller.display.height = 192;
    app.on_msg(UiMsg::ConfigReload, Some(taller), &snap, &mut icons, &no_icon, 0, &mut todo);
    assert_eq!(todo, vec![Effect::RequestSize(560, 192)]);
    todo.clear();
    let mut moved = config();
    moved.display.anchor = "Bottom_Left".into();
    moved.display.margin_x = 3;
    app.on_msg(UiMsg::ConfigReload, Some(moved), &snap, &mut icons, &no_icon, 0, &mut todo);
    assert_eq!(todo[0], Effect::DestroySurface);
    assert_eq!(
        todo[1],
        Effect::CreateSurface {
            generation: 2,
            output: None,
            edges: Edges { top: false, bottom: true, left: true, right: false },
            margins: Margins { top: 10, right: 3, bottom: 10, left: 3 },
        }
    );
    todo.clear();
    app.on_msg(UiMsg::ConfigReload, None, &snap, &mut icons, &no_icon, 0, &mut todo);
    assert!(todo.is_empty());
    app.on_closed(&snap, &mut icons, &no_icon, &mut todo);
    assert_eq!(todo[0], Effect::DestroySurface);
    assert_eq!(app.surface_generation, 3);
    todo.clear();
    app.on_msg(UiMsg::StateChanged { show: true }, None, &snap, &mut icons, &no_icon, 0, &mut todo);
    assert_eq!(app.surface_generation, 4);
}

#[test]
fn the_stacked_view_shares_the_height() {
    let mut icons = IconCache::default();
    let mut snap = snapshot();
    snap.workspaces.push(workspace(2, false));
    snap.windows.push(window(20, 2, 1, 300, 50));
    let mut stacked = config();
    stacked.display.mode = "all".into();
    let mut todo = Vec::new();
    let app: App<Px, u8> = App::new(stacked, &snap, &mut icons, &no_icon, &mut todo);
    // Two rows of 100 and the gap of 4 between them, with 4 around. The tallest
    // column is 92 high: rows are drawn at scale 1, and 300 is the widest.
    assert_eq!(app.desired_size, (308, 212));
}

#[test]
fn views_stay_known() {
    let mut icons = IconCache::default();
    let mut snap = snapshot();
    snap.windows[0].layout.tile_pos_in_workspace_view = Some((Px(0), Px(0)));
    snap.windows[1].layout.tile_pos_in_workspace_view = Some((Px(40), Px(0)));
    let (app, _) = start(&snap, &mut icons);
    assert_eq!(app.view_left.get(&1), Some(&Px(0)));
    snap.windows[0].layout.tile_pos_in_workspace_view = None;
    let (app, _) = start(&snap, &mut icons);
    // The second column is at 92, and 40 from the left of the view.
    assert_eq!(app.view_left.get(&1), Some(&Px(52)));
}

#[test]
fn the_damage_is_the_smallest_rectangle() {
    let old = vec![0u8; 5 * 4 * 4];
    assert_eq!(diff_bbox(&old, &old, 5, 4), None);
    let mut new = old.clone();
    new[(5 + 2) * 4 + 3] = 1;
    assert_eq!(diff_bbox(&old, &new, 5, 4), Some((2, 1, 1, 1)));
    new[(3 * 5 + 1) * 4] = 9;
    assert_eq!(diff_bbox(&old, &new, 5, 4), Some((1, 1, 2, 3)));
    assert_eq!(diff_bbox(&[], &new, 5, 4), Some((0, 0, 5, 4)));
}

#[test]
fn a_widget_that_does_not_follow_stays_on_the_first_output() {
    let mut icons = IconCache::default();
    let mut snap = snapshot();
    snap.workspaces[0].output = Some("DP-2".into());
    snap.outputs.push(Output { name: "DP-2".into(), logical: Some((500, 400)) });
    let mut settled = config();
    settled.display.follow_focus = false;
    let mut todo = Vec::new();
    let mut app: App<Px, u8> = App::new(settled, &snap, &mut icons, &no_icon, &mut todo);
    app.init_outputs(&[(7, 70), (8, 80)], &mut todo);
    app.on_output_name(70, "eDP-1".into(), &snap, &mut icons, &no_icon, &mut todo);
    app.on_output_name(80, "DP-2".into(), &snap, &mut icons, &no_icon, &mut todo);
    todo.clear();
    app.on_state_changed(&snap, &mut icons, &no_icon, 0, &mut todo);
    assert!(matches!(todo[1], Effect::CreateSurface { output: Some(70), .. }));
    assert_eq!(app.viewport_width, Px(1000));
    // The focus moves; the widget does not.
    todo.clear();
    snap.workspaces[0].output = Some("eDP-1".into());
    app.on_state_changed(&snap, &mut icons, &no_icon, 0, &mut todo);
    assert!(!todo.contains(&Effect::DestroySurface));
    // From now on it follows.
    snap.workspaces[0].output = Some("DP-2".into());
    todo.clear();
    app.on_config_reload(config(), &snap, &mut icons, &no_icon, 0, &mut todo);
    assert!(matches!(todo[1], Effect::CreateSurface { output: Some(80), .. }));
    assert_eq!(app.viewport_width, Px(500));
}

#[test]
fn the_first_output_is_used_whatever_is_known() {
    let mut icons = IconCache::default();
    let snap = snapshot();
    let mut settled = config();
    settled.display.follow_focus = false;
    let mut todo = Vec::new();
    let mut app: App<Px, u8> = App::new(settled, &snap, &mut icons, &no_icon, &mut todo);
    app.init_outputs(&[(7, 70), (8, 80)], &mut todo);
    app.on_output_name(70, "eDP-1".into(), &snap, &mut icons, &no_icon, &mut todo);
    app.on_output_name(80, "DP-2".into(), &snap, &mut icons, &no_icon, &mut todo);
    app.on_state_changed(&snap, &mut icons, &no_icon, 0, &mut todo);
    assert_eq!(app.overlay.as_ref().map(|o| o.output), Some(Some(70)));
    // The first output goes and comes back behind the other one.
    app.on_output_removed(7);
    app.on_output_added(9, 90, &mut todo);
    todo.clear();
    app.on_output_name(90, "eDP-1".into(), &snap, &mut icons, &no_icon, &mut todo);
    assert!(todo.iter().any(|e| matches!(e, Effect::CreateSurface { output: Some(80), .. })));
    // The scale of that output counts.
    todo.clear();
    app.on_output_scale(90, 3, &snap, 0, &mut todo);
    assert_eq!(app.surface_scale, 1);
    app.on_output_scale(80, 2, &snap, 0, &mut todo);
    assert_eq!(app.surface_scale, 2);
}

#[test]
fn a_widget_on_another_output_goes_to_the_first() {
    let mut icons = IconCache::default();
    let snap = snapshot();
    let mut settled = config();
    settled.display.follow_focus = false;
    let mut todo = Vec::new();
    // The surface is made before any output is known, and none has a name.
    let mut app: App<Px, u8> = App::new(settled, &snap, &mut icons, &no_icon, &mut todo);
    app.init_outputs(&[(7, 70)], &mut todo);
    todo.clear();
    app.on_state_changed(&snap, &mut icons, &no_icon, 0, &mut todo);
    assert!(matches!(todo[1], Effect::CreateSurface { output: Some(70), .. }));
    todo.clear();
    app.on_state_changed(&snap, &mut icons, &no_icon, 0, &mut todo);
    assert!(!todo.contains(&Effect::DestroySurface));
}
