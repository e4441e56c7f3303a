//! What comes in from the compositor: the messages to the widget, the state
//! that it draws, and the conversation that brings it.

use vstd::prelude::*;
use crate::icons::IconCache;
use crate::alike::{lemma_filter_alike, lemma_focused_alike, lemma_listed_alike, lemma_sorted_alike,
    pairwise, respects, same_output, same_pair, same_window, same_workspace};
use crate::layout::{first_focused, is_listed, ByOutput};
use crate::order::{optional_bytes, sorted, Order};
use crate::scalar::Scalar;
use crate::seqs::{contains_text, same_option, text_of_option, texts};
use crate::signature::{drawn_workspaces, listing, output_bytes, state_bytes, window_bytes,
    window_words, workspace_bytes, ById, ByName};
use crate::state::{Output, Window, Workspace};
use crate::text::same_text;

verus! {

/// A message to the widget.
#[derive(Debug, Clone, Copy)]
pub enum UiMsg {
    /// The state of the compositor changed; `show` asks for the minimap to pop
    /// up.
    StateChanged { show: bool },
    /// The configuration file changed.
    ConfigReload,
}

/// All that is drawn.
#[derive(Debug)]
pub struct Snapshot<S> {
    pub workspaces: Vec<Workspace>,
    pub windows: Vec<Window<S>>,
    pub outputs: Vec<Output>,
}

impl<S> Default for Snapshot<S> {
    fn default() -> (r: Self)
        ensures
            r.workspaces@ == Seq::<Workspace>::empty(),
            r.windows@ == Seq::<Window<S>>::empty(),
            r.outputs@ == Seq::<Output>::empty(),
    {
        Snapshot { workspaces: Vec::new(), windows: Vec::new(), outputs: Vec::new() }
    }
}

/// Whether two snapshots are drawn alike.
pub open spec fn same_snapshot<S: Scalar>(a: Snapshot<S>, b: Snapshot<S>) -> bool {
    &&& a.workspaces@.len() == b.workspaces@.len()
    &&& forall|i: int|
        0 <= i < a.workspaces@.len() ==> same_workspace(
            #[trigger] a.workspaces@[i],
            b.workspaces@[i],
        )
    &&& a.windows@.len() == b.windows@.len()
    &&& forall|i: int|
        0 <= i < a.windows@.len() ==> same_window(#[trigger] a.windows@[i], b.windows@[i])
    &&& a.outputs@.len() == b.outputs@.len()
    &&& forall|i: int|
        0 <= i < a.outputs@.len() ==> same_output(#[trigger] a.outputs@[i], b.outputs@[i])
}

fn equal_pair<S: Scalar>(a: (S, S), b: (S, S)) -> (r: bool)
    ensures
        r == same_pair(a, b),
{
    a.0.bits() == b.0.bits() && a.1.bits() == b.1.bits()
}

fn equal_ids(a: Option<u64>, b: Option<u64>) -> (r: bool)
    ensures
        r == (a == b),
{
    match (a, b) {
        (Some(x), Some(y)) => x == y,
        (None, None) => true,
        _ => false,
    }
}

fn equal_windows<S: Scalar>(a: &Window<S>, b: &Window<S>) -> (r: bool)
    ensures
        r == same_window(*a, *b),
{
    let place: bool = match (
        a.layout.pos_in_scrolling_layout,
        b.layout.pos_in_scrolling_layout,
    ) {
        (Some(p), Some(q)) => p.0 == q.0 && p.1 == q.1,
        (None, None) => true,
        _ => false,
    };
    let view: bool = match (
        a.layout.tile_pos_in_workspace_view,
        b.layout.tile_pos_in_workspace_view,
    ) {
        (Some(p), Some(q)) => equal_pair(p, q),
        (None, None) => true,
        _ => false,
    };
    a.id == b.id && same_option(&a.app_id, &b.app_id) && equal_ids(a.workspace_id, b.workspace_id)
        && a.is_focused == b.is_focused && a.is_floating == b.is_floating && place && view
        && equal_pair(a.layout.tile_size, b.layout.tile_size) && a.layout.window_size.0
        == b.layout.window_size.0 && a.layout.window_size.1 == b.layout.window_size.1
        && equal_pair(a.layout.window_offset_in_tile, b.layout.window_offset_in_tile)
}

fn equal_workspaces(a: &Workspace, b: &Workspace) -> (r: bool)
    ensures
        r == same_workspace(*a, *b),
{
    a.id == b.id && a.idx == b.idx && same_option(&a.name, &b.name) && same_option(
        &a.output,
        &b.output,
    ) && a.is_active == b.is_active && a.is_focused == b.is_focused && equal_ids(
        a.active_window_id,
        b.active_window_id,
    )
}

fn equal_outputs(a: &Output, b: &Output) -> (r: bool)
    ensures
        r == same_output(*a, *b),
{
    let size: bool = match (a.logical, b.logical) {
        (Some(p), Some(q)) => p.0 == q.0 && p.1 == q.1,
        (None, None) => true,
        _ => false,
    };
    same_text(a.name.as_str(), b.name.as_str()) && size
}

/// Whether an event is worth a message: it changed what is drawn. Urgency, the
/// times of the focus and keyboard layouts are no part of a snapshot.
pub fn is_relevant<S: Scalar>(before: &Snapshot<S>, after: &Snapshot<S>) -> (r: bool)
    ensures
        r == !same_snapshot(*before, *after),
{
    if before.workspaces.len() != after.workspaces.len() || before.windows.len()
        != after.windows.len() || before.outputs.len() != after.outputs.len() {
        return true;
    }
    let mut i: usize = 0;
    while i < before.workspaces.len()
        invariant
            i <= before.workspaces@.len(),
            before.workspaces@.len() == after.workspaces@.len(),
            forall|j: int|
                0 <= j < i ==> same_workspace(
                    #[trigger] before.workspaces@[j],
                    after.workspaces@[j],
                ),
        decreases before.workspaces@.len() - i,
    {
        if !equal_workspaces(&before.workspaces[i], &after.workspaces[i]) {
            return true;
        }
        i = i + 1;
    }
    let mut j: usize = 0;
    while j < before.windows.len()
        invariant
            j <= before.windows@.len(),
            before.windows@.len() == after.windows@.len(),
            forall|k: int|
                0 <= k < j ==> same_window(#[trigger] before.windows@[k], after.windows@[k]),
        decreases before.windows@.len() - j,
    {
        if !equal_windows(&before.windows[j], &after.windows[j]) {
            return true;
        }
        j = j + 1;
    }
    let mut k: usize = 0;
    while k < before.outputs.len()
        invariant
            k <= before.outputs@.len(),
            before.outputs@.len() == after.outputs@.len(),
            forall|l: int|
                0 <= l < k ==> same_output(#[trigger] before.outputs@[l], after.outputs@[l]),
        decreases before.outputs@.len() - k,
    {
        if !equal_outputs(&before.outputs[k], &after.outputs[k]) {
            return true;
        }
        k = k + 1;
    }
    false
}

/// When the minimap pops up.
#[derive(Clone, Copy, Debug, PartialEq, Eq, Structural)]
pub struct Behavior {
    pub always_visible: bool,
    pub show_for_floating_windows: bool,
}

/// An event of the compositor, as far as it matters to whether the minimap pops
/// up.
#[derive(Clone, Copy, Debug, PartialEq, Eq, Structural)]
pub enum WindowEvent {
    WindowOpenedOrChanged { is_floating: bool },
    WindowFocusChanged { id: Option<u64> },
    Other,
}

/// Whether the windows hold one with this id, which floats.
pub open spec fn floats<S>(windows: Seq<Window<S>>, id: u64) -> bool {
    match first_with_id(windows, id) {
        Some(w) => w.is_floating,
        None => false,
    }
}

/// The window with this id.
pub open spec fn first_with_id<S>(windows: Seq<Window<S>>, id: u64) -> Option<Window<S>>
    decreases windows.len(),
{
    if windows.len() == 0 {
        None
    } else if windows[0].id == id {
        Some(windows[0])
    } else {
        first_with_id(windows.drop_first(), id)
    }
}

fn find_window<S>(windows: &[Window<S>], id: u64) -> (r: Option<&Window<S>>)
    ensures
        match (r, first_with_id(windows@, id)) {
            (Some(w), Some(v)) => *w == v,
            (None, None) => true,
            _ => false,
        },
{
    let mut i: usize = 0;
    assert(windows@.skip(0) =~= windows@);
    while i < windows.len()
        invariant
            i <= windows@.len(),
            first_with_id(windows@, id) == first_with_id(windows@.skip(i as int), id),
        decreases windows@.len() - i,
    {
        if windows[i].id == id {
            return Some(&windows[i]);
        }
        assert(windows@.skip(i as int).drop_first() =~= windows@.skip(i + 1));
        i = i + 1;
    }
    None
}

/// Whether an event pops the minimap up: all do but those of floating windows,
/// which do only where the settings say so. What is not known does.
pub open spec fn pops_up<S>(
    event: WindowEvent,
    windows: Seq<Window<S>>,
    behavior: Behavior,
) -> bool {
    ||| behavior.always_visible
    ||| behavior.show_for_floating_windows
    ||| match event {
        WindowEvent::WindowOpenedOrChanged { is_floating } => !is_floating,
        WindowEvent::WindowFocusChanged { id: Some(id) } => !floats(windows, id),
        WindowEvent::WindowFocusChanged { id: None } => true,
        WindowEvent::Other => true,
    }
}

/// Whether an event pops the minimap up.
pub fn should_show<S>(event: WindowEvent, windows: &[Window<S>], behavior: Behavior) -> (r: bool)
    ensures
        r == pops_up(event, windows@, behavior),
{
    if behavior.always_visible || behavior.show_for_floating_windows {
        return true;
    }
    match event {
        WindowEvent::WindowOpenedOrChanged { is_floating } => !is_floating,
        WindowEvent::WindowFocusChanged { id: Some(id) } => {
            match find_window(windows, id) {
                Some(w) => !w.is_floating,
                None => true,
            }
        },
        WindowEvent::WindowFocusChanged { id: None } => true,
        WindowEvent::Other => true,
    }
}

/// What is asked of the compositor.
#[derive(Clone, Copy, Debug, PartialEq, Eq, Structural)]
pub enum Request {
    Workspaces,
    Windows,
    Outputs,
    EventStream,
}

/// What kind of reply came.
#[derive(Clone, Copy, Debug, PartialEq, Eq, Structural)]
pub enum Reply {
    Workspaces,
    Windows,
    Outputs,
    Handled,
    /// Another reply.
    Other,
    /// An error message.
    Refused,
}

/// What to do next in the conversation.
#[derive(Clone, Copy, Debug, PartialEq, Eq, Structural)]
pub enum Step {
    /// Ask this.
    Ask(Request),
    /// Take the three answers over into the snapshot, warm the icons, report
    /// the state, and then ask this.
    Load(Request),
    /// Read events from now on.
    Listen,
    /// Give up: the reply does not answer the request.
    Unexpected(Request),
    /// Give up: the compositor refused the request.
    Refused(Request),
}

/// The reply that answers a request.
pub open spec fn answer_to(request: Request) -> Reply {
    match request {
        Request::Workspaces => Reply::Workspaces,
        Request::Windows => Reply::Windows,
        Request::Outputs => Reply::Outputs,
        Request::EventStream => Reply::Handled,
    }
}

/// What follows a request that was answered.
pub open spec fn after(request: Request) -> Step {
    match request {
        Request::Workspaces => Step::Ask(Request::Windows),
        Request::Windows => Step::Ask(Request::Outputs),
        Request::Outputs => Step::Load(Request::EventStream),
        Request::EventStream => Step::Listen,
    }
}

/// The conversation goes on where the reply answers the request, and ends
/// elsewhere.
pub fn next_step(request: Request, reply: Reply) -> (r: Step)
    ensures
        r == if reply == Reply::Refused {
            Step::Refused(request)
        } else if reply == answer_to(request) {
            after(request)
        } else {
            Step::Unexpected(request)
        },
{
    match (request, reply) {
        (_, Reply::Refused) => Step::Refused(request),
        (Request::Workspaces, Reply::Workspaces) => Step::Ask(Request::Windows),
        (Request::Windows, Reply::Windows) => Step::Ask(Request::Outputs),
        (Request::Outputs, Reply::Outputs) => Step::Load(Request::EventStream),
        (Request::EventStream, Reply::Handled) => Step::Listen,
        _ => Step::Unexpected(request),
    }
}

/// The step of a conversation that starts by asking for the workspaces, after
/// some replies.
pub open spec fn conversation(replies: Seq<Reply>) -> Step
    decreases replies.len(),
{
    if replies.len() == 0 {
        Step::Ask(Request::Workspaces)
    } else {
        match conversation(replies.drop_last()) {
            Step::Ask(request) | Step::Load(request) => if replies.last() == Reply::Refused {
                Step::Refused(request)
            } else if replies.last() == answer_to(request) {
                after(request)
            } else {
                Step::Unexpected(request)
            },
            step => step,
        }
    }
}

/// Events are read exactly after workspaces, windows and outputs came, in this
/// order, and the event stream was granted.
pub proof fn events_follow_the_snapshot(replies: Seq<Reply>)
    requires
        replies.len() == 4,
    ensures
        conversation(replies) == Step::Listen <==> replies == seq![
            Reply::Workspaces,
            Reply::Windows,
            Reply::Outputs,
            Reply::Handled,
        ],
        conversation(replies.take(3)) == Step::Load(Request::EventStream) <==> replies.take(3)
            == seq![Reply::Workspaces, Reply::Windows, Reply::Outputs],
{
    let r3 = replies.take(3);
    let r2 = replies.take(2);
    let r1 = replies.take(1);
    let r0 = replies.take(0);
    assert(replies.drop_last() =~= r3);
    assert(r3.drop_last() =~= r2);
    assert(r2.drop_last() =~= r1);
    assert(r1.drop_last() =~= r0);
    assert(conversation(r0) == Step::Ask(Request::Workspaces));
    assert(conversation(r1) == Step::Ask(Request::Windows) <==> r1[0] == Reply::Workspaces);
    assert(conversation(r2) == Step::Ask(Request::Outputs) <==> r1[0] == Reply::Workspaces && r2[1]
        == Reply::Windows);
    assert(r3 =~= seq![r3[0], r3[1], r3[2]]);
    assert(replies =~= seq![replies[0], replies[1], replies[2], replies[3]]);
}

/// The applications of the windows whose icons were not looked for yet, each
/// once, in the order in which they occur.
pub open spec fn unresolved<S>(
    windows: Seq<Window<S>>,
    known: Map<Seq<char>, Option<tiny_skia::Pixmap>>,
) -> Seq<Seq<char>>
    decreases windows.len(),
{
    if windows.len() == 0 {
        Seq::empty()
    } else {
        let front = unresolved(windows.drop_last(), known);
        match windows.last().app_id {
            Some(id) => if known.contains_key(id@) || front.contains(id@) {
                front
            } else {
                front.push(id@)
            },
            None => front,
        }
    }
}

/// The applications whose icons are to be looked for before the windows are
/// drawn.
pub fn icons_to_warm<S>(windows: &[Window<S>], icons: &IconCache) -> (r: Vec<String>)
    ensures
        texts(r@) == unresolved(windows@, icons.known()),
{
    let mut r: Vec<String> = Vec::new();
    let mut i: usize = 0;
    assert(texts(r@) =~= unresolved(windows@.take(0), icons.known()));
    while i < windows.len()
        invariant
            i <= windows@.len(),
            texts(r@) == unresolved(windows@.take(i as int), icons.known()),
        decreases windows@.len() - i,
    {
        assert(windows@.take(i + 1).drop_last() =~= windows@.take(i as int));
        let ghost before = r@;
        if let Some(id) = &windows[i].app_id {
            if !icons.knows(id.as_str()) && !contains_text(r.as_slice(), id.as_str()) {
                r.push(id.clone());
                assert(texts(r@) =~= texts(before).push(id@));
            }
        }
        i = i + 1;
    }
    assert(windows@.take(i as int) =~= windows@);
    r
}

proof fn lemma_bytes_alike<T>(
    a: Seq<T>,
    b: Seq<T>,
    f: spec_fn(T) -> Seq<u8>,
    alike: spec_fn(T, T) -> bool,
)
    requires
        pairwise(a, b, alike),
        forall|x: T, y: T| #[trigger] alike(x, y) ==> f(x) == f(y),
    ensures
        listing(a, f) == listing(b, f),
    decreases a.len(),
{
    if a.len() > 0 {
        assert forall|i: int| 0 <= i < a.len() - 1 implies alike(
            #[trigger] a.drop_first()[i],
            b.drop_first()[i],
        ) by {
            assert(alike(a[i + 1], b[i + 1]));
        }
        assert(alike(a[0], b[0]));
        lemma_bytes_alike(a.drop_first(), b.drop_first(), f, alike);
    }
}

/// No event is passed over that could change the picture: snapshots that are
/// drawn alike have the same content.
pub proof fn irrelevant_events_keep_the_content<S: Scalar>(
    before: Snapshot<S>,
    after: Snapshot<S>,
    stacked: bool,
)
    requires
        same_snapshot(before, after),
    ensures
        state_bytes(stacked, before.workspaces@, before.windows@, before.outputs@) == state_bytes(
            stacked,
            after.workspaces@,
            after.windows@,
            after.outputs@,
        ),
{
    let same_ws = |x: Workspace, y: Workspace| same_workspace(x, y);
    let same_win = |x: Window<S>, y: Window<S>| same_window(x, y);
    let same_out = |x: Output, y: Output| same_output(x, y);
    assert(pairwise(before.workspaces@, after.workspaces@, same_ws));
    assert(pairwise(before.windows@, after.windows@, same_win));
    assert(pairwise(before.outputs@, after.outputs@, same_out));
    // Outputs.
    assert(respects::<Output, ByName>(same_out));
    lemma_sorted_alike::<Output, ByName>(before.outputs@, after.outputs@, same_out);
    lemma_bytes_alike(
        sorted::<Output, ByName>(before.outputs@),
        sorted::<Output, ByName>(after.outputs@),
        |o: Output| output_bytes(o),
        same_out,
    );
    // Workspaces.
    let p = |ws: Workspace| is_listed(ws, before.windows@);
    let q = |ws: Workspace| is_listed(ws, after.windows@);
    assert forall|x: Workspace, y: Workspace| #[trigger] same_ws(x, y) implies p(x) == q(y) by {
        if p(x) {
            lemma_listed_alike(x, y, before.windows@, after.windows@);
        }
        if q(y) {
            assert(pairwise(after.windows@, before.windows@, same_win)) by {
                assert forall|i: int| 0 <= i < after.windows@.len() implies same_win(
                    #[trigger] after.windows@[i],
                    before.windows@[i],
                ) by {
                    assert(same_win(before.windows@[i], after.windows@[i]));
                }
            }
            lemma_listed_alike(y, x, after.windows@, before.windows@);
        }
    }
    assert(respects::<Workspace, ByOutput>(same_ws)) by {
        assert forall|x: Workspace, y: Workspace, v: Workspace, w: Workspace|
            same_ws(x, y) && same_ws(v, w) implies #[trigger] ByOutput::le(x, v)
            == #[trigger] ByOutput::le(y, w) by {
            assert(optional_bytes(x.output) == optional_bytes(y.output));
            assert(optional_bytes(v.output) == optional_bytes(w.output));
        }
    }
    lemma_sorted_alike::<Workspace, ByOutput>(before.workspaces@, after.workspaces@, same_ws);
    lemma_filter_alike(
        sorted::<Workspace, ByOutput>(before.workspaces@),
        sorted::<Workspace, ByOutput>(after.workspaces@),
        p,
        q,
        same_ws,
    );
    lemma_focused_alike(before.workspaces@, after.workspaces@);
    let shown = drawn_workspaces(stacked, before.workspaces@, before.windows@);
    let shown_after = drawn_workspaces(stacked, after.workspaces@, after.windows@);
    assert(pairwise(shown, shown_after, same_ws));
    lemma_bytes_alike(shown, shown_after, |ws: Workspace| workspace_bytes(ws), same_ws);
    // Windows.
    let focused = first_focused(before.workspaces@);
    let focused_after = first_focused(after.workspaces@);
    let on = |w: Window<S>| w.workspace_id == Some(focused->0.id);
    let on_after = |w: Window<S>| w.workspace_id == Some(focused_after->0.id);
    if focused is Some {
        lemma_filter_alike(before.windows@, after.windows@, on, on_after, same_win);
    }
    let (a, b) = if stacked {
        (before.windows@, after.windows@)
    } else if focused is Some {
        (before.windows@.filter(on), after.windows@.filter(on_after))
    } else {
        (Seq::empty(), Seq::empty())
    };
    assert(respects::<Window<S>, ById>(same_win));
    lemma_sorted_alike::<Window<S>, ById>(a, b, same_win);
    assert forall|x: Window<S>, y: Window<S>| #[trigger] same_win(x, y) implies window_bytes(x)
        == window_bytes(y) by {
        assert(window_words(x) =~= window_words(y));
    }
    lemma_bytes_alike(
        sorted::<Window<S>, ById>(a),
        sorted::<Window<S>, ById>(b),
        |w: Window<S>| window_bytes(w),
        same_win,
    );
}

} // verus!
