//! Windows, workspaces and outputs that are drawn alike.

use vstd::prelude::*;
use crate::layout::{first_focused, is_listed};
use crate::order::{placed, sorted, Order};
use crate::scalar::Scalar;
use crate::seqs::text_of_option;
use crate::state::{Output, Window, Workspace};

verus! {

/// Whether two windows are drawn alike.
pub open spec fn same_window<S: Scalar>(a: Window<S>, b: Window<S>) -> bool {
    &&& a.id == b.id
    &&& text_of_option(a.app_id) == text_of_option(b.app_id)
    &&& a.workspace_id == b.workspace_id
    &&& a.is_focused == b.is_focused
    &&& a.is_floating == b.is_floating
    &&& a.layout.pos_in_scrolling_layout == b.layout.pos_in_scrolling_layout
    &&& same_pair(a.layout.tile_size, b.layout.tile_size)
    &&& a.layout.window_size == b.layout.window_size
    &&& match (a.layout.tile_pos_in_workspace_view, b.layout.tile_pos_in_workspace_view) {
        (Some(p), Some(q)) => same_pair(p, q),
        (None, None) => true,
        _ => false,
    }
    &&& same_pair(a.layout.window_offset_in_tile, b.layout.window_offset_in_tile)
}

/// Whether two pairs of numbers are the same.
pub open spec fn same_pair<S: Scalar>(a: (S, S), b: (S, S)) -> bool {
    a.0.spec_bits() == b.0.spec_bits() && a.1.spec_bits() == b.1.spec_bits()
}

/// Whether two workspaces are drawn alike.
pub open spec fn same_workspace(a: Workspace, b: Workspace) -> bool {
    &&& a.id == b.id
    &&& a.idx == b.idx
    &&& text_of_option(a.name) == text_of_option(b.name)
    &&& text_of_option(a.output) == text_of_option(b.output)
    &&& a.is_active == b.is_active
    &&& a.is_focused == b.is_focused
    &&& a.active_window_id == b.active_window_id
}

/// Whether two outputs have the same name and size.
pub open spec fn same_output(a: Output, b: Output) -> bool {
    a.name@ == b.name@ && a.logical == b.logical
}

/// Whether two lists hold items that belong together, one for one.
pub open spec fn pairwise<T>(a: Seq<T>, b: Seq<T>, alike: spec_fn(T, T) -> bool) -> bool {
    a.len() == b.len() && forall|i: int| 0 <= i < a.len() ==> alike(#[trigger] a[i], b[i])
}

/// Whether an order does not tell items that are alike apart.
pub open spec fn respects<T, O: Order<T>>(alike: spec_fn(T, T) -> bool) -> bool {
    forall|x: T, y: T, v: T, w: T|
        alike(x, y) && alike(v, w) ==> #[trigger] O::le(x, v) == #[trigger] O::le(y, w)
}

pub(crate) proof fn lemma_placed_alike<T, O: Order<T>>(
    a: Seq<T>,
    b: Seq<T>,
    x: T,
    y: T,
    alike: spec_fn(T, T) -> bool,
)
    requires
        pairwise(a, b, alike),
        alike(x, y),
        respects::<T, O>(alike),
    ensures
        pairwise(placed::<T, O>(a, x), placed::<T, O>(b, y), alike),
    decreases a.len(),
{
    if a.len() > 0 {
        assert(alike(a[a.len() - 1], b[b.len() - 1]));
        assert(O::le(a.last(), x) == O::le(b.last(), y));
        if !O::le(a.last(), x) {
            assert(pairwise(a.drop_last(), b.drop_last(), alike)) by {
                assert forall|i: int| 0 <= i < a.len() - 1 implies alike(
                    #[trigger] a.drop_last()[i],
                    b.drop_last()[i],
                ) by {
                    assert(alike(a[i], b[i]));
                }
            }
            lemma_placed_alike::<T, O>(a.drop_last(), b.drop_last(), x, y, alike);
        }
    }
}

pub(crate) proof fn lemma_sorted_alike<T, O: Order<T>>(a: Seq<T>, b: Seq<T>, alike: spec_fn(T, T) -> bool)
    requires
        pairwise(a, b, alike),
        respects::<T, O>(alike),
    ensures
        pairwise(sorted::<T, O>(a), sorted::<T, O>(b), alike),
    decreases a.len(),
{
    if a.len() > 0 {
        assert forall|i: int| 0 <= i < a.len() - 1 implies alike(
            #[trigger] a.drop_last()[i],
            b.drop_last()[i],
        ) by {
            assert(alike(a[i], b[i]));
        }
        assert(alike(a[a.len() - 1], b[b.len() - 1]));
        lemma_sorted_alike::<T, O>(a.drop_last(), b.drop_last(), alike);
        lemma_placed_alike::<T, O>(
            sorted::<T, O>(a.drop_last()),
            sorted::<T, O>(b.drop_last()),
            a.last(),
            b.last(),
            alike,
        );
    }
}

pub(crate) proof fn lemma_filter_alike<T>(
    a: Seq<T>,
    b: Seq<T>,
    p: spec_fn(T) -> bool,
    q: spec_fn(T) -> bool,
    alike: spec_fn(T, T) -> bool,
)
    requires
        pairwise(a, b, alike),
        forall|x: T, y: T| #[trigger] alike(x, y) ==> p(x) == q(y),
    ensures
        pairwise(a.filter(p), b.filter(q), alike),
    decreases a.len(),
{
    reveal(Seq::filter);
    if a.len() > 0 {
        assert forall|i: int| 0 <= i < a.len() - 1 implies alike(
            #[trigger] a.drop_last()[i],
            b.drop_last()[i],
        ) by {
            assert(alike(a[i], b[i]));
        }
        assert(alike(a[a.len() - 1], b[b.len() - 1]));
        lemma_filter_alike(a.drop_last(), b.drop_last(), p, q, alike);
    }
}

pub(crate) proof fn lemma_focused_alike(a: Seq<Workspace>, b: Seq<Workspace>)
    requires
        pairwise(a, b, |x: Workspace, y: Workspace| same_workspace(x, y)),
    ensures
        match (first_focused(a), first_focused(b)) {
            (Some(x), Some(y)) => same_workspace(x, y),
            (None, None) => true,
            _ => false,
        },
    decreases a.len(),
{
    let alike = |x: Workspace, y: Workspace| same_workspace(x, y);
    if a.len() > 0 {
        assert(alike(a[0], b[0]));
        assert forall|i: int| 0 <= i < a.len() - 1 implies alike(
            #[trigger] a.drop_first()[i],
            b.drop_first()[i],
        ) by {
            assert(alike(a[i + 1], b[i + 1]));
        }
        lemma_focused_alike(a.drop_first(), b.drop_first());
    }
}

pub(crate) proof fn lemma_listed_alike<S: Scalar>(
    ws: Workspace,
    other: Workspace,
    a: Seq<Window<S>>,
    b: Seq<Window<S>>,
)
    requires
        same_workspace(ws, other),
        pairwise(a, b, |x: Window<S>, y: Window<S>| same_window(x, y)),
        is_listed(ws, a),
    ensures
        is_listed(other, b),
{
    if !ws.is_active && !ws.is_focused {
        let alike = |x: Window<S>, y: Window<S>| same_window(x, y);
        let i = choose|i: int|
            0 <= i < a.len() && (#[trigger] a[i]).workspace_id == Some(ws.id);
        assert(alike(a[i], b[i]));
        assert(b[i].workspace_id == Some(other.id));
    }
}

} // verus!
