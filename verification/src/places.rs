//! Where the widget goes, and what it shows there: outputs, edges and workspaces,
//! told by what the compositor reports.

use vstd::prelude::*;
use vstd::string::StringSliceAdditionalSpecFns;
use crate::config::{anchor_byte, edges_of, Config, Edges};
use crate::icons::IconCache;
use crate::ipc::{first_with_id, pops_up, unresolved, Behavior, Snapshot, WindowEvent};
use crate::layout::{first_focused, listed};
use crate::model::{has_handle, is_called, is_named, logical_size, Effect, Model,
    REDRAW_MIN_INTERVAL};
use crate::order::bytes_le;
use crate::scalar::{Scalar, Wide};
use crate::seqs::{first_index, lemma_first_index, text_of_option};
use crate::state::{Output, Window, Workspace};

verus! {

/// The workspace that has the focus is the first that is reported to.
pub proof fn the_first_focused_counts(workspaces: Seq<Workspace>, i: int)
    requires
        0 <= i <= workspaces.len(),
        forall|j: int| 0 <= j < i ==> !(#[trigger] workspaces[j]).is_focused,
        i < workspaces.len() ==> workspaces[i].is_focused,
    ensures
        first_focused(workspaces) == if i < workspaces.len() {
            Some(workspaces[i])
        } else {
            None
        },
    decreases workspaces.len(),
{
    if workspaces.len() > 0 && i > 0 {
        assert(!workspaces[0].is_focused);
        let rest = workspaces.drop_first();
        assert forall|j: int| 0 <= j < i - 1 implies !(#[trigger] rest[j]).is_focused by {
            assert(rest[j] == workspaces[j + 1]);
        }
        the_first_focused_counts(rest, i - 1);
    }
}

/// The widget goes where the focus is: where it follows the focus, and another
/// output got it, the surface is made anew on that output, which is the first of
/// its name. It is held by the margins that are set.
pub proof fn surfaces_go_to_the_focused_output<S: Wide, B>(
    m: Model<S, B>,
    snap: Snapshot<S>,
    icons: IconCache,
    now: u64,
    f: int,
    i: int,
)
    requires
        m.config.display.follow_focus,
        0 <= f < snap.workspaces@.len(),
        snap.workspaces@[f].is_focused,
        forall|j: int| 0 <= j < f ==> !(#[trigger] snap.workspaces@[j]).is_focused,
        text_of_option(snap.workspaces@[f].output) is Some,
        text_of_option(snap.workspaces@[f].output) != m.focused,
        0 <= i < m.outputs.len(),
        text_of_option(m.outputs[i].name) == text_of_option(snap.workspaces@[f].output),
        forall|j: int|
            0 <= j < i ==> text_of_option((#[trigger] m.outputs[j]).name) != text_of_option(
                snap.workspaces@[f].output,
            ),
    ensures
        ({
            let (after, effects) = m.state_changed(snap, icons, now);
            let at = if m.overlay is Some {
                1int
            } else {
                0
            };
            &&& after.focused == text_of_option(snap.workspaces@[f].output)
            &&& after.overlay matches Some(o) && o.output == Some(m.outputs[i].handle)
            &&& effects.len() > at
            &&& m.overlay is Some ==> effects[0] == Effect::DestroySurface
            &&& effects[at] matches Effect::CreateSurface { output, margins, .. } && {
                &&& output == Some(m.outputs[i].handle)
                &&& margins.top == m.config.display.margin_y
                &&& margins.bottom == m.config.display.margin_y
                &&& margins.left == m.config.display.margin_x
                &&& margins.right == m.config.display.margin_x
            }
        }),
{
    the_first_focused_counts(snap.workspaces@, f);
    let name = text_of_option(snap.workspaces@[f].output)->0;
    lemma_first_index(m.outputs, is_named(name));
    assert(is_named(name)(m.outputs[i]));
    assert(first_index(m.outputs, is_named(name)) == Some(i));
}

/// The size of the output that the widget is sized by is the one that is reported
/// for it; where none is, the last known stays.
pub proof fn outputs_are_measured<S: Wide, B>(
    m: Model<S, B>,
    snap: Snapshot<S>,
    name: Seq<char>,
    i: int,
)
    requires
        m.focused == Some(name),
        0 <= i <= snap.outputs@.len(),
        forall|j: int| 0 <= j < i ==> (#[trigger] snap.outputs@[j]).name@ != name,
        i < snap.outputs@.len() ==> snap.outputs@[i].name@ == name,
    ensures
        ({
            let after = m.measured(snap);
            let known = if i < snap.outputs@.len() {
                snap.outputs@[i].logical
            } else {
                None
            };
            match known {
                Some((w, h)) => {
                    &&& after.viewport_width == <S::Narrow as Scalar>::spec_from_u64(w as u64)
                    &&& after.output_height == <S::Narrow as Scalar>::spec_from_u64(h as u64)
                },
                None => after == m,
            }
        }),
{
    lemma_measured(snap.outputs@, name, i);
}

proof fn lemma_measured(outputs: Seq<Output>, name: Seq<char>, i: int)
    requires
        0 <= i <= outputs.len(),
        forall|j: int| 0 <= j < i ==> (#[trigger] outputs[j]).name@ != name,
        i < outputs.len() ==> outputs[i].name@ == name,
    ensures
        logical_size(outputs, name) == if i < outputs.len() {
            outputs[i].logical
        } else {
            None
        },
{
    let pred = is_called(name);
    lemma_first_index(outputs, pred);
    if i < outputs.len() {
        assert(pred(outputs[i]));
    }
    if let Some(k) = first_index(outputs, pred) {
        assert(pred(outputs[k]));
        assert(k == i);
    }
}

/// Whether a workspace comes no later than another in the stacked view: by the
/// name of its output, where nothing comes before something, by its place there,
/// and by its id.
pub open spec fn comes_first(a: Workspace, b: Workspace) -> bool {
    let by_place = a.idx < b.idx || (a.idx == b.idx && a.id <= b.id);
    match (a.output, b.output) {
        (None, None) => by_place,
        (None, Some(_)) => true,
        (Some(_), None) => false,
        (Some(x), Some(y)) => {
            let p = vstd::utf8::encode_utf8(x@);
            let q = vstd::utf8::encode_utf8(y@);
            bytes_le(p, q) && (bytes_le(q, p) ==> by_place)
        },
    }
}

/// The stacked view has a row for each workspace that is in use on its output, has
/// the focus or has windows, as often as it is reported, and for no other; by
/// output, place and id.
pub proof fn the_stack_lists_what_is_in_use<S>(
    workspaces: Seq<Workspace>,
    windows: Seq<Window<S>>,
    ws: Workspace,
)
    ensures
        ({
            let rows = listed(workspaces, windows);
            let used = ws.is_active || ws.is_focused || exists|i: int|
                0 <= i < windows.len() && (#[trigger] windows[i]).workspace_id == Some(ws.id);
            &&& forall|i: int, j: int|
                0 <= i < j < rows.len() ==> comes_first(#[trigger] rows[i], #[trigger] rows[j])
            &&& rows.to_multiset().count(ws) == if used {
                workspaces.to_multiset().count(ws)
            } else {
                0
            }
        }),
{
    let rows = listed(workspaces, windows);
    assert forall|i: int, j: int| 0 <= i < j < rows.len() implies comes_first(
        #[trigger] rows[i],
        #[trigger] rows[j],
    ) by {
        crate::layout::listed_rows_are_in_order(workspaces, windows, i, j, ws);
    }
    crate::layout::listed_rows_are_in_order(workspaces, windows, 0, 0, ws);
}

/// Floating windows do not make the minimap pop up, unless the settings say so:
/// neither when they change nor when they get the focus. Everything else does.
pub proof fn floating_windows_pop_nothing_up<S>(
    windows: Seq<Window<S>>,
    id: u64,
    i: int,
    is_floating: bool,
    behavior: Behavior,
)
    requires
        0 <= i <= windows.len(),
        forall|j: int| 0 <= j < i ==> (#[trigger] windows[j]).id != id,
        i < windows.len() ==> windows[i].id == id,
    ensures
        ({
            let always = behavior.always_visible || behavior.show_for_floating_windows;
            let floats = i < windows.len() && windows[i].is_floating;
            let focus = WindowEvent::WindowFocusChanged { id: Some(id) };
            let change = WindowEvent::WindowOpenedOrChanged { is_floating };
            &&& pops_up(focus, windows, behavior) == (always || !floats)
            &&& pops_up(change, windows, behavior) == (always || !is_floating)
            &&& pops_up(WindowEvent::WindowFocusChanged { id: None }, windows, behavior)
            &&& pops_up(WindowEvent::Other, windows, behavior)
        }),
{
    lemma_with_id(windows, id, i);
}

proof fn lemma_with_id<S>(windows: Seq<Window<S>>, id: u64, i: int)
    requires
        0 <= i <= windows.len(),
        forall|j: int| 0 <= j < i ==> (#[trigger] windows[j]).id != id,
        i < windows.len() ==> windows[i].id == id,
    ensures
        first_with_id(windows, id) == if i < windows.len() {
            Some(windows[i])
        } else {
            None
        },
    decreases windows.len(),
{
    if windows.len() > 0 && i > 0 {
        assert(windows[0].id != id);
        let rest = windows.drop_first();
        assert forall|j: int| 0 <= j < i - 1 implies (#[trigger] rest[j]).id != id by {
            assert(rest[j] == windows[j + 1]);
        }
        lemma_with_id(rest, id, i - 1);
    }
}

/// The icons that are looked for ahead are those of the windows that nobody looked
/// for yet, each once.
pub proof fn unknown_icons_are_looked_for_once<S>(
    windows: Seq<Window<S>>,
    known: Map<Seq<char>, Option<tiny_skia::Pixmap>>,
    id: Seq<char>,
)
    ensures
        unresolved(windows, known).no_duplicates(),
        unresolved(windows, known).contains(id) <==> !known.contains_key(id) && exists|i: int|
            0 <= i < windows.len() && text_of_option((#[trigger] windows[i]).app_id) == Some(id),
    decreases windows.len(),
{
    let all = unresolved(windows, known);
    if windows.len() > 0 {
        let rest = windows.drop_last();
        let front = unresolved(rest, known);
        unknown_icons_are_looked_for_once(rest, known, id);
        assert(windows[windows.len() - 1] == windows.last());
        if let Some(app) = windows.last().app_id {
            if app@ != id {
                assert(all.contains(id) == front.contains(id)) by {
                    if front.contains(id) {
                        let k = choose|k: int| 0 <= k < front.len() && front[k] == id;
                        assert(all[k] == id);
                    }
                    if all.contains(id) {
                        let k = choose|k: int| 0 <= k < all.len() && all[k] == id;
                        assert(front[k] == id);
                    }
                }
            } else if !known.contains_key(id) && !front.contains(id) {
                assert(all[front.len() as int] == id);
            }
        }
        if exists|i: int|
            0 <= i < rest.len() && text_of_option((#[trigger] rest[i]).app_id) == Some(id) {
            let i = choose|i: int|
                0 <= i < rest.len() && text_of_option((#[trigger] rest[i]).app_id) == Some(id);
            assert(windows[i] == rest[i]);
        }
        if exists|i: int|
            0 <= i < windows.len() && text_of_option((#[trigger] windows[i]).app_id) == Some(id) {
            let i = choose|i: int|
                0 <= i < windows.len() && text_of_option((#[trigger] windows[i]).app_id) == Some(
                    id,
                );
            if i < rest.len() {
                assert(rest[i] == windows[i]);
            }
        }
    }
}

/// Whether two bytes are the same letter in any case, or both a dash or a line.
pub open spec fn same_letter(a: u8, b: u8) -> bool {
    ||| a == b
    ||| 0x41 <= a <= 0x5a && b == a + 0x20
    ||| 0x41 <= b <= 0x5a && a == b + 0x20
    ||| (a == 0x2d || a == 0x5f) && (b == 0x2d || b == 0x5f)
}

/// The widget is never held to opposite edges, and the case of an anchor does not
/// matter, nor whether its words are joined by a dash or a line.
pub proof fn anchors_hold_in_one_place(a: Seq<u8>, b: Seq<u8>)
    ensures
        !(edges_of(a).top && edges_of(a).bottom),
        !(edges_of(a).left && edges_of(a).right),
        a.len() == b.len() && (forall|i: int|
            0 <= i < a.len() ==> same_letter(#[trigger] a[i], b[i])) ==> edges_of(a) == edges_of(b),
{
    if a.len() == b.len() && (forall|i: int|
        0 <= i < a.len() ==> same_letter(#[trigger] a[i], b[i])) {
        assert(a.map_values(|x: u8| anchor_byte(x)) =~= b.map_values(|x: u8| anchor_byte(x)));
    }
}

/// An anchor holds the widget to the edges that it names, and to no other; one in
/// the middle of an edge to that edge, and one in the middle of the output to none.
/// What names no place means the top right.
pub proof fn anchors_name_their_edges(text: Seq<u8>)
    ensures
        edges_of("top-left".spec_bytes()) == at(true, false, true, false),
        edges_of("top-center".spec_bytes()) == at(true, false, false, false),
        edges_of("top".spec_bytes()) == at(true, false, false, false),
        edges_of("top-right".spec_bytes()) == at(true, false, false, true),
        edges_of("bottom-left".spec_bytes()) == at(false, true, true, false),
        edges_of("bottom-center".spec_bytes()) == at(false, true, false, false),
        edges_of("bottom".spec_bytes()) == at(false, true, false, false),
        edges_of("bottom-right".spec_bytes()) == at(false, true, false, true),
        edges_of("left".spec_bytes()) == at(false, false, true, false),
        edges_of("right".spec_bytes()) == at(false, false, false, true),
        edges_of("center".spec_bytes()) == at(false, false, false, false),
        edges_of("center-center".spec_bytes()) == at(false, false, false, false),
        text.len() < 3 || text.len() == 7 || text.len() > 13 ==> edges_of(text) == at(
            true,
            false,
            false,
            true,
        ),
{
    broadcast use vstd::string::is_ascii_spec_bytes;

    reveal_strlit("top-left");
    reveal_strlit("top-center");
    reveal_strlit("top");
    reveal_strlit("top-right");
    reveal_strlit("bottom-left");
    reveal_strlit("bottom-center");
    reveal_strlit("bottom");
    reveal_strlit("bottom-right");
    reveal_strlit("left");
    reveal_strlit("right");
    reveal_strlit("center");
    reveal_strlit("center-center");
    lemma_anchor("top-left");
    lemma_anchor("top-center");
    lemma_anchor("top");
    lemma_anchor("top-right");
    lemma_anchor("bottom-left");
    lemma_anchor("bottom-center");
    lemma_anchor("bottom");
    lemma_anchor("bottom-right");
    lemma_anchor("left");
    lemma_anchor("right");
    lemma_anchor("center");
    lemma_anchor("center-center");
    assert("bottom".spec_bytes()[0] == 0x62);
    assert("center".spec_bytes()[0] == 0x63);
    assert("bottom-center".spec_bytes()[0] == 0x62);
    assert("center-center".spec_bytes()[0] == 0x63);
    let n = text.map_values(|b: u8| anchor_byte(b));
    assert(n.len() == text.len());
}

/// The edges that are held.
pub open spec fn at(top: bool, bottom: bool, left: bool, right: bool) -> Edges {
    Edges { top, bottom, left, right }
}

/// Letters in lower case, and dashes, stay.
proof fn lemma_anchor(s: &str)
    requires
        forall|i: int|
            0 <= i < s@.len() ==> (#[trigger] s@[i] == '-' || 'a' <= s@[i] <= 'z'),
    ensures
        s.spec_bytes().len() == s@.len(),
        s.spec_bytes().map_values(|b: u8| anchor_byte(b)) == s.spec_bytes(),
        forall|i: int| 0 <= i < s@.len() ==> #[trigger] s.spec_bytes()[i] == s@[i] as u8,
{
    broadcast use vstd::string::is_ascii_spec_bytes;

    assert(vstd::utf8::is_ascii_chars(s@));
    assert(vstd::string::is_ascii(s));
    let bytes = s.spec_bytes();
    assert(bytes =~= Seq::new(s@.len(), |i: int| s@[i] as u8));
    assert forall|i: int| 0 <= i < bytes.len() implies anchor_byte(#[trigger] bytes[i])
        == bytes[i] by {
        assert(s@[i] == '-' || 'a' <= s@[i] <= 'z');
    }
    assert(bytes.map_values(|b: u8| anchor_byte(b)) =~= bytes);
}

/// A redraw that is due is made at once, where the compositor owes nothing, the
/// content is another than the one shown, and the last frame is long enough ago;
/// it is that of the content as it is then. A redraw that comes too early is put
/// off, with one timer for it.
pub proof fn due_redraws_are_made<S: Wide, B>(m: Model<S, B>, snap: Snapshot<S>, now: u64)
    requires
        m.dirty,
        m.frame_cb is None,
        m.configured is Some,
        !m.size_pending,
        m.signature(snap) != m.last_sig,
    ensures
        ({
            let (after, effects) = m.pumped(snap, now);
            let early = m.last_draw_at matches Some(then) && now < then + REDRAW_MIN_INTERVAL;
            if !early {
                effects == seq![Effect::Draw(m.signature(snap))] && after == m
            } else {
                &&& after == (Model { deferred_redraw: true, ..m })
                &&& effects == if m.deferred_redraw {
                    Seq::empty()
                } else {
                    seq![Effect::ArmTimer]
                }
            }
        }),
{
}

/// Where the compositor still owes a callback or a size, or nothing is due, nothing
/// is drawn, and nothing changes.
pub proof fn redraws_wait_for_the_compositor<S: Wide, B>(
    m: Model<S, B>,
    snap: Snapshot<S>,
    now: u64,
)
    requires
        !m.dirty || m.frame_cb is Some || m.configured is None || m.size_pending,
    ensures
        m.pumped(snap, now) == (m, Seq::<Effect>::empty()),
{
}

/// A surface takes the size that the compositor gives it, but at least a pixel, and
/// says so; a frame is due then.
pub proof fn surfaces_take_the_size_they_get<S: Wide, B>(
    m: Model<S, B>,
    w: u32,
    h: u32,
    snap: Snapshot<S>,
    now: u64,
)
    requires
        m.overlay is Some,
    ensures
        ({
            let generation = m.overlay->0.generation;
            let (after, effects) = m.sized(generation, w, h, snap, now);
            let size = (
                if w >= 1 {
                    w
                } else {
                    1
                },
                if h >= 1 {
                    h
                } else {
                    1
                },
            );
            &&& after.configured == Some(size)
            &&& !after.size_pending
            &&& effects.len() > 0 && effects[0] == Effect::AckConfigure
            &&& after.overlay == m.overlay && after.config == m.config
        }),
{
}

/// Settings that move the widget, which are its anchor and its margins, make the
/// surface anew with them; others leave it where it is.
pub proof fn settings_move_the_widget<S: Wide, B>(
    m: Model<S, B>,
    new: Config<S>,
    snap: Snapshot<S>,
    icons: IconCache,
)
    requires
        m.overlay is Some,
    ensures
        ({
            let (after, effects) = m.placed(new, snap, icons);
            let moved = new.display.anchor@ != m.config.display.anchor@ || new.display.margin_x
                != m.config.display.margin_x || new.display.margin_y != m.config.display.margin_y;
            &&& after.config == new
            &&& !moved ==> effects.len() == 0 && after == (Model { config: new, ..m })
            &&& moved ==> {
                &&& effects.len() > 1 && effects[0] == Effect::DestroySurface
                &&& effects[1] matches Effect::CreateSurface { edges, margins, .. } && {
                    &&& edges == edges_of(vstd::utf8::encode_utf8(new.display.anchor@))
                    &&& margins.left == new.display.margin_x
                    &&& margins.right == new.display.margin_x
                    &&& margins.top == new.display.margin_y
                    &&& margins.bottom == new.display.margin_y
                }
                &&& after.configured is None && after.size_pending
            }
        }),
{
}

/// Another configuration is in force after it was read, the size is reconsidered
/// for it, and what is shown is out of date.
pub proof fn settings_come_into_force<S: Wide, B>(
    m: Model<S, B>,
    new: Config<S>,
    snap: Snapshot<S>,
    icons: IconCache,
    now: u64,
)
    requires
        m.overlay is Some,
        m.frame_cb is Some,
        new.display.anchor@ == m.config.display.anchor@,
        new.display.margin_x == m.config.display.margin_x,
        new.display.margin_y == m.config.display.margin_y,
        new.display.follow_focus == m.config.display.follow_focus,
    ensures
        ({
            let (after, effects) = m.reconfigured(new, snap, icons, now);
            let size = (Model { config: new, ..m }).wanted_size(snap, icons);
            &&& after.config == new
            &&& after.dirty
            &&& size != m.desired_size ==> effects.contains(Effect::RequestSize(size.0, size.1))
            &&& m.size_requested && size == m.desired_size ==> effects.len() == 0
        }),
{
    let (after, effects) = m.reconfigured(new, snap, icons, now);
    let size = (Model { config: new, ..m }).wanted_size(snap, icons);
    let due = Model { config: new, dirty: true, ..m };
    assert(due.wanted_size(snap, icons) == size);
    if size != m.desired_size {
        assert(effects[0] == Effect::RequestSize(size.0, size.1));
    }
}

/// The scale of an output is the one that was reported for it last, and no report
/// changes another output. A new output is at scale 1, and the last.
pub proof fn outputs_keep_their_scales<S: Wide, B>(
    m: Model<S, B>,
    handle: u64,
    factor: i32,
    registry_name: u32,
    snap: Snapshot<S>,
    now: u64,
    i: int,
)
    requires
        0 <= i < m.outputs.len(),
        forall|j: int, k: int|
            0 <= j < k < m.outputs.len() ==> (#[trigger] m.outputs[j]).handle != (
            #[trigger] m.outputs[k]).handle,
    ensures
        ({
            let after = m.output_scaled(handle, factor, snap, now).0;
            &&& after.outputs.len() == m.outputs.len()
            &&& after.outputs[i].scale == if m.outputs[i].handle == handle {
                factor
            } else {
                m.outputs[i].scale
            }
            &&& after.outputs[i].name == m.outputs[i].name
            &&& after.outputs[i].handle == m.outputs[i].handle
            &&& after.dirty || after.signature(snap) == after.last_sig
        }),
        ({
            let after = m.with_output(registry_name, handle);
            &&& after.outputs.len() == m.outputs.len() + 1
            &&& after.outputs[i] == m.outputs[i]
            &&& after.outputs.last().handle == handle && after.outputs.last().scale == 1
            &&& after.outputs.last().registry_name == registry_name
            &&& after.outputs.last().name is None
        }),
{
    lemma_first_index(m.outputs, has_handle(handle));
    assert(has_handle(handle)(m.outputs[i]) == (m.outputs[i].handle == handle));
    if let Some(k) = first_index(m.outputs, has_handle(handle)) {
        assert(has_handle(handle)(m.outputs[k]));
    }
}

/// A surface that comes to be on an output takes on its scale, of which the
/// compositor is told, and is drawn anew; on one that is not known, nothing
/// happens.
pub proof fn surfaces_take_the_scale_of_the_output_they_enter<S: Wide, B>(
    m: Model<S, B>,
    handle: u64,
    snap: Snapshot<S>,
    now: u64,
    i: int,
)
    requires
        m.overlay is Some,
        0 <= i <= m.outputs.len(),
        forall|j: int| 0 <= j < i ==> (#[trigger] m.outputs[j]).handle != handle,
        i < m.outputs.len() ==> m.outputs[i].handle == handle && m.outputs[i].scale >= 1,
    ensures
        ({
            let (after, effects) = m.entered(handle, snap, now);
            if i == m.outputs.len() {
                after == m && effects.len() == 0
            } else {
                let scale = m.outputs[i].scale;
                &&& after.surface_scale == scale
                &&& scale != m.surface_scale ==> effects.len() > 0 && effects[0]
                    == Effect::SetBufferScale(scale)
                &&& scale == m.surface_scale ==> after == m && effects.len() == 0
            }
        }),
{
    let pred = has_handle(handle);
    lemma_first_index(m.outputs, pred);
    if i < m.outputs.len() {
        assert(pred(m.outputs[i]));
    }
    if let Some(k) = first_index(m.outputs, pred) {
        assert(pred(m.outputs[k]));
        assert(k == i);
    }
}

} // verus!
