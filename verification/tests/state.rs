//! Rows, workspaces and the conversation with the compositor, in whole pixels.

use std::cell::RefCell;

use nirimap::config::{anchor_bits, Config, Edges};
use nirimap::icons::IconCache;
use nirimap::ipc::{
    icons_to_warm, is_relevant, next_step, should_show, Behavior, Reply, Request, Snapshot, Step, UiMsg,
    WindowEvent,
};
use nirimap::layout::{all_rows, build_row, focused_workspace};
use nirimap::scalar::{clamp, fraction, Px, Scalar, Wide};
use nirimap::state::{Output, Window, WindowLayout, Workspace};
use tiny_skia::Pixmap;

/// A place where no icons are found.
fn no_icon(_: &str) -> Option<Pixmap> {
    None
}

fn window(id: u64, ws: u64, place: Option<(usize, usize)>, w: u64, h: u64) -> Window<Px> {
    Window {
        id,
        app_id: Some(format!("app{id}")),
        workspace_id: Some(ws),
        is_focused: false,
        is_floating: place.is_none(),
        layout: WindowLayout {
            pos_in_scrolling_layout: place,
            tile_size: (Px(w), Px(h)),
            window_size: (w as i32, h as i32),
            tile_pos_in_workspace_view: None,
            window_offset_in_tile: (Px(0), Px(0)),
        },
    }
}

fn workspace(id: u64, idx: u8, output: Option<&str>) -> Workspace {
    Workspace {
        id,
        idx,
        name: None,
        output: output.map(Into::into),
        is_active: false,
        is_focused: false,
        active_window_id: None,
    }
}

#[test]
fn columns_stand_side_by_side() {
    let ws = workspace(1, 1, None);
    let windows = vec![
        window(3, 1, Some((2, 1)), 50, 90),
        window(2, 1, Some((1, 2)), 30, 20),
        window(1, 1, Some((1, 1)), 40, 10),
        window(4, 2, Some((1, 1)), 7, 7),
        window(5, 1, Some((0, 1)), 7, 7),
    ];
    let row = build_row(&ws, &windows, None, None, &no_icon);
    let places: Vec<(u64, u64, u64, u64)> =
        row.tiles.iter().map(|t| (t.x.0, t.y.0, t.w.0, t.h.0)).collect();
    assert_eq!(places, vec![(0, 0, 40, 10), (0, 10, 30, 20), (40, 0, 50, 90)]);
    assert_eq!((row.total_width, row.max_height), (Px(90), Px(90)));
    assert!(row.has_tiled());
    assert_eq!(row.view_left, None);
    let ids: Vec<Option<&str>> = row.tiles.iter().map(|t| t.app_id.as_deref()).collect();
    assert_eq!(ids, vec![Some("app1"), Some("app2"), Some("app3")]);
}

#[test]
fn floating_windows_use_the_view_that_is_known() {
    let ws = workspace(1, 1, None);
    let mut float = window(1, 1, None, 30, 20);
    float.layout.tile_pos_in_workspace_view = Some((Px(5), Px(6)));
    let mut hidden = window(2, 1, None, 30, 20);
    hidden.layout.tile_pos_in_workspace_view = None;
    let mut flat = window(3, 1, None, 30, 0);
    flat.layout.tile_pos_in_workspace_view = Some((Px(1), Px(1)));
    let windows = vec![float, hidden, flat];
    let row = build_row(&ws, &windows, Some(Px(100)), None, &no_icon);
    assert_eq!(row.tiles.len(), 1);
    assert_eq!((row.tiles[0].x, row.tiles[0].y), (Px(105), Px(6)));
    assert_eq!((row.float_width, row.float_height), (Px(135), Px(26)));
    assert!(!row.has_tiled() && row.has_content());
    assert_eq!((row.scale_w(), row.scale_h()), (Px(135), Px(26)));
    assert_eq!(build_row(&ws, &windows, None, None, &no_icon).tiles[0].x, Px(5));
}

#[test]
fn windows_without_icons_are_left_out_in_icon_mode() {
    let ws = workspace(1, 1, None);
    let mut nameless = window(3, 1, Some((3, 1)), 10, 10);
    nameless.app_id = None;
    let windows =
        vec![window(1, 1, Some((1, 1)), 10, 10), window(2, 1, Some((2, 1)), 10, 10), nameless];
    let mut icons = IconCache::default();
    icons.insert("app2", Pixmap::new(1, 1).unwrap());
    assert_eq!(icons_to_warm(&windows, &icons), vec!["app1"]);
    let row = build_row(&ws, &windows, None, Some(&mut icons), &no_icon);
    assert_eq!(row.tiles.len(), 1);
    assert_eq!(row.tiles[0].app_id.as_deref(), Some("app2"));
    assert_eq!(row.tiles[0].x, Px(0));
    assert!(icons_to_warm(&windows, &icons).is_empty());
    let twice = vec![window(7, 1, None, 1, 1), window(7, 1, None, 1, 1)];
    assert_eq!(icons_to_warm(&twice, &icons), vec!["app7"]);
}

#[test]
fn a_row_looks_for_the_icons_that_it_shows() {
    let ws = workspace(1, 1, None);
    let mut float = window(1, 1, None, 4, 4);
    float.layout.tile_pos_in_workspace_view = Some((Px(1), Px(1)));
    let windows = vec![
        window(1, 1, Some((1, 1)), 10, 10),
        window(2, 1, Some((2, 1)), 10, 10),
        window(3, 2, Some((1, 1)), 10, 10),
        float,
    ];
    let asked: RefCell<Vec<String>> = RefCell::new(Vec::new());
    let look_up = |id: &str| {
        asked.borrow_mut().push(id.to_owned());
        if id == "app1" {
            Pixmap::new(1, 1)
        } else {
            None
        }
    };

    // Without icons nothing is asked.
    assert_eq!(build_row(&ws, &windows, None, None, &look_up).tiles.len(), 3);
    assert!(asked.borrow().is_empty());

    let mut icons = IconCache::default();
    let row = build_row(&ws, &windows, None, Some(&mut icons), &look_up);
    assert_eq!(row.tiles.len(), 2);
    assert!(row.tiles.iter().all(|t| t.app_id.as_deref() == Some("app1")));
    assert_eq!(*asked.borrow(), vec!["app1", "app2"]);

    // Each once: a second row asks nothing, and looks the same.
    let again = build_row(&ws, &windows, None, Some(&mut icons), &look_up);
    assert_eq!(again.tiles.len(), 2);
    assert_eq!(asked.borrow().len(), 2);
}

#[test]
fn workspaces_are_listed_by_output() {
    let mut active = workspace(5, 1, Some("B"));
    active.is_active = true;
    let list = vec![
        active,
        workspace(4, 2, Some("A")),
        workspace(3, 1, Some("A")),
        workspace(2, 9, None),
        workspace(1, 1, Some("A")),
    ];
    let windows = vec![
        window(1, 4, None, 1, 1),
        window(2, 3, None, 1, 1),
        window(3, 2, None, 1, 1),
    ];
    let ids: Vec<u64> = all_rows(&list, &windows).into_iter().map(|w| w.id).collect();
    assert_eq!(ids, vec![2, 3, 4, 5]);
    assert!(focused_workspace(&list).is_none());
    let mut focused = workspace(6, 1, None);
    focused.is_focused = true;
    assert_eq!(focused_workspace(&[workspace(1, 1, None), focused]).map(|w| w.id), Some(6));
}

#[test]
fn the_last_focused_window_is_marked() {
    let mut ws = workspace(1, 1, None);
    let mut windows = vec![window(1, 1, Some((1, 1)), 1, 1), window(2, 1, Some((2, 1)), 1, 1)];
    windows[0].is_focused = true;
    let marks = |ws: &Workspace, windows: &[Window<Px>]| -> Vec<bool> {
        let row = build_row(ws, windows, None, None, &no_icon);
        row.tiles.iter().map(|t| t.is_last_focused).collect()
    };
    assert_eq!(marks(&ws, &windows), vec![true, false]);
    ws.active_window_id = Some(2);
    assert_eq!(marks(&ws, &windows), vec![false, true]);
}

#[test]
fn events_of_floating_windows_do_not_show() {
    let quiet = Behavior { always_visible: false, show_for_floating_windows: false };
    let windows = vec![window(1, 1, None, 1, 1), window(2, 1, Some((1, 1)), 1, 1)];
    let show = |event: WindowEvent| should_show(event, &windows, quiet);
    assert!(!show(WindowEvent::WindowOpenedOrChanged { is_floating: true }));
    assert!(show(WindowEvent::WindowOpenedOrChanged { is_floating: false }));
    assert!(!show(WindowEvent::WindowFocusChanged { id: Some(1) }));
    assert!(show(WindowEvent::WindowFocusChanged { id: Some(2) }));
    assert!(show(WindowEvent::WindowFocusChanged { id: Some(3) }));
    assert!(show(WindowEvent::WindowFocusChanged { id: None }));
    assert!(show(WindowEvent::Other));
    for always_visible in [true, false] {
        let loud = Behavior { always_visible, show_for_floating_windows: !always_visible };
        assert!(should_show(
            WindowEvent::WindowOpenedOrChanged { is_floating: true },
            &windows,
            loud
        ));
    }
}

#[test]
fn the_conversation_goes_step_by_step() {
    assert_eq!(next_step(Request::Workspaces, Reply::Workspaces), Step::Ask(Request::Windows));
    assert_eq!(next_step(Request::Windows, Reply::Windows), Step::Ask(Request::Outputs));
    assert_eq!(next_step(Request::Outputs, Reply::Outputs), Step::Load(Request::EventStream));
    assert_eq!(next_step(Request::EventStream, Reply::Handled), Step::Listen);
    assert_eq!(next_step(Request::Windows, Reply::Refused), Step::Refused(Request::Windows));
    assert_eq!(next_step(Request::Windows, Reply::Outputs), Step::Unexpected(Request::Windows));
    assert_eq!(next_step(Request::EventStream, Reply::Other), Step::Unexpected(Request::EventStream));
    let empty: Snapshot<Px> = Snapshot::default();
    assert!(empty.workspaces.is_empty() && empty.windows.is_empty() && empty.outputs.is_empty());
    assert!(matches!(UiMsg::StateChanged { show: true }, UiMsg::StateChanged { show: true }));
}

#[test]
fn anchors_hold_edges() {
    let edges = |top, bottom, left, right| Edges { top, bottom, left, right };
    for (anchor, expected) in [
        ("top-left", edges(true, false, true, false)),
        ("TOP_CENTER", edges(true, false, false, false)),
        ("top", edges(true, false, false, false)),
        ("top-right", edges(true, false, false, true)),
        ("bottom-left", edges(false, true, true, false)),
        ("Bottom-Center", edges(false, true, false, false)),
        ("bottom", edges(false, true, false, false)),
        ("bottom_right", edges(false, true, false, true)),
        ("left", edges(false, false, true, false)),
        ("right", edges(false, false, false, true)),
        ("center", edges(false, false, false, false)),
        ("center-center", edges(false, false, false, false)),
        ("nowhere", edges(true, false, false, true)),
        ("", edges(true, false, false, true)),
    ] {
        assert_eq!(anchor_bits(anchor), expected, "{anchor}");
    }
    let mut a: Config<Px> = Config::default();
    let b: Config<Px> = Config::default();
    assert!(!a.placement_changed(&b) && !a.is_stacked());
    a.display.margin_y = 11;
    a.display.mode = "all".into();
    assert!(a.placement_changed(&b) && a.is_stacked());
}

#[test]
fn pixels_saturate() {
    assert_eq!(Px(3).minus(Px(5)), Px(0));
    assert_eq!(Px(u64::MAX).plus(Px(1)), Px(u64::MAX));
    assert_eq!(Px(u64::MAX).times(Px(2)), Px(u64::MAX));
    assert_eq!(Px(7).over(Px(2)), Px(3));
    assert_eq!(Px(7).over(Px(0)), Px(0));
    assert_eq!(<Px as Scalar>::from_i64(-4), Px(0));
    assert_eq!(Px(u64::MAX).to_u32(), u32::MAX);
    assert!(Px(u64::MAX).is_finite());
    assert_eq!(Px(9).narrow(), Px(9));
    assert_eq!(fraction::<Px>(9, 2), Px(4));
    assert_eq!(clamp(Px(1), Px(2), Px(5)), Px(2));
    assert_eq!(clamp(Px(9), Px(2), Px(5)), Px(5));
    assert_eq!(clamp(Px(3), Px(2), Px(5)), Px(3));
}

#[test]
fn only_events_that_change_the_picture_are_relevant() {
    let snapshot = || Snapshot {
        workspaces: vec![workspace(1, 1, Some("A"))],
        windows: vec![window(1, 1, Some((1, 1)), 10, 10), window(2, 1, None, 10, 10)],
        outputs: vec![Output { name: "A".into(), logical: Some((100, 50)) }],
    };
    let base = snapshot();
    assert!(!is_relevant(&base, &snapshot()));
    let changed = |change: &dyn Fn(&mut Snapshot<Px>)| {
        let mut other = snapshot();
        change(&mut other);
        is_relevant(&base, &other)
    };
    assert!(changed(&|s| s.workspaces[0].idx = 2));
    assert!(changed(&|s| s.workspaces[0].name = Some("x".into())));
    assert!(changed(&|s| s.workspaces[0].output = None));
    assert!(changed(&|s| s.workspaces[0].is_active = true));
    assert!(changed(&|s| s.workspaces[0].is_focused = true));
    assert!(changed(&|s| s.workspaces[0].active_window_id = Some(1)));
    assert!(changed(&|s| s.workspaces.clear()));
    assert!(changed(&|s| s.windows[0].app_id = None));
    assert!(changed(&|s| s.windows[0].workspace_id = None));
    assert!(changed(&|s| s.windows[0].is_focused = true));
    assert!(changed(&|s| s.windows[0].is_floating = true));
    assert!(changed(&|s| s.windows[0].layout.pos_in_scrolling_layout = Some((1, 2))));
    assert!(changed(&|s| s.windows[0].layout.tile_size.1 = Px(11)));
    assert!(changed(&|s| s.windows[0].layout.window_size.0 = 9));
    assert!(changed(&|s| s.windows[0].layout.tile_pos_in_workspace_view = Some((Px(0), Px(0)))));
    assert!(changed(&|s| s.windows[0].layout.window_offset_in_tile.0 = Px(1)));
    assert!(changed(&|s| s.windows[1].id = 3));
    assert!(changed(&|s| s.outputs[0].logical = None));
    assert!(changed(&|s| s.outputs[0].name = "B".into()));
    assert!(changed(&|s| s.outputs.clear()));
}
