//! Content signature for skipping redraws.
//!
//! Everything that can change the rendered pixels is written down as bytes, of
//! which different contents never have the same, and the bytes are folded into a
//! 64-bit FNV-1a digest. What leaves them unchanged cannot change the picture,
//! so layout and redraw can be skipped.

use vstd::prelude::*;
use crate::alike::{pairwise, same_output, same_window, same_workspace};
use crate::config::{AppearanceConfig, Config};
use crate::layout::{all_rows, focused_workspace, ByOutput};
use crate::order::{bytes_at_most, sort, Order};
use crate::scalar::{Scalar, Wide};
use crate::seqs::text_of_option;
use crate::state::{Output, Window, WindowLayout, Workspace};
use vstd::string::StringSliceAdditionalSpecFns;

verus! {

/// What the digest starts from.
pub const OFFSET: u64 = 0xcbf2_9ce4_8422_2325;

/// What each step multiplies by.
pub const PRIME: u64 = 0x0000_0100_0000_01b3;

/// One step of the digest: takes in one byte.
pub open spec fn absorb(h: u64, b: u8) -> u64 {
    ((h ^ (b as u64)) * PRIME % 0x1_0000_0000_0000_0000) as u64
}

/// The digest `h` after some bytes.
pub open spec fn digest(h: u64, bytes: Seq<u8>) -> u64
    decreases bytes.len(),
{
    if bytes.len() == 0 {
        h
    } else {
        absorb(digest(h, bytes.drop_last()), bytes.last())
    }
}

/// A whole number as eight bytes, the lowest first.
pub open spec fn word(v: u64) -> Seq<u8> {
    seq![
        (v & 0xff) as u8,
        ((v >> 8) & 0xff) as u8,
        ((v >> 16) & 0xff) as u8,
        ((v >> 24) & 0xff) as u8,
        ((v >> 32) & 0xff) as u8,
        ((v >> 40) & 0xff) as u8,
        ((v >> 48) & 0xff) as u8,
        ((v >> 56) & 0xff) as u8,
    ]
}

/// Bytes can be taken in one part after the other.
pub broadcast proof fn digest_in_parts(h: u64, a: Seq<u8>, b: Seq<u8>)
    ensures
        #[trigger] digest(h, a + b) == digest(digest(h, a), b),
    decreases b.len(),
{
    if b.len() == 0 {
        assert(a + b =~= a);
    } else {
        assert((a + b).drop_last() =~= a + b.drop_last());
        digest_in_parts(h, a, b.drop_last());
    }
}

/// 64-bit FNV-1a accumulator.
pub struct Fnv1a(u64);

impl Fnv1a {
    /// The digest so far.
    pub closed spec fn state(self) -> u64 {
        self.0
    }

    pub fn new() -> (r: Self)
        ensures
            r.state() == OFFSET,
    {
        Fnv1a(OFFSET)
    }

    pub fn byte(&mut self, b: u8)
        ensures
            final(self).state() == absorb(old(self).state(), b),
    {
        let mixed: u64 = self.0 ^ (b as u64);
        self.0 = mixed.wrapping_mul(PRIME);
    }

    pub fn u64(&mut self, v: u64)
        ensures
            final(self).state() == digest(old(self).state(), word(v)),
    {
        let bytes: [u8; 8] = [
            (v & 0xff) as u8,
            ((v >> 8) & 0xff) as u8,
            ((v >> 16) & 0xff) as u8,
            ((v >> 24) & 0xff) as u8,
            ((v >> 32) & 0xff) as u8,
            ((v >> 40) & 0xff) as u8,
            ((v >> 48) & 0xff) as u8,
            ((v >> 56) & 0xff) as u8,
        ];
        assert(bytes@ =~= word(v));
        self.bytes(bytes.as_slice());
    }

    fn bytes(&mut self, bytes: &[u8])
        ensures
            final(self).state() == digest(old(self).state(), bytes@),
    {
        let mut i: usize = 0;
        while i < bytes.len()
            invariant
                i <= bytes@.len(),
                self.state() == digest(old(self).state(), bytes@.take(i as int)),
            decreases bytes@.len() - i,
        {
            self.byte(bytes[i]);
            assert(bytes@.take(i + 1).drop_last() =~= bytes@.take(i as int));
            i = i + 1;
        }
        assert(bytes@.take(i as int) =~= bytes@);
    }

    pub fn hash(&mut self, s: &str)
        ensures
            final(self).state() == digest(old(self).state(), s.spec_bytes()),
    {
        self.bytes(s.as_bytes());
    }

    pub fn finish(self) -> (r: u64)
        ensures
            r == self.state(),
    {
        self.0
    }

    fn words(&mut self, list: &[u64])
        ensures
            final(self).state() == digest(old(self).state(), words(list@)),
    {
        let mut k: usize = 0;
        assert(list@.skip(0) =~= list@);
        while k < list.len()
            invariant
                k <= list@.len(),
                digest(old(self).state(), words(list@)) == digest(
                    self.state(),
                    words(list@.skip(k as int)),
                ),
            decreases list@.len() - k,
        {
            proof {
                assert(list@.skip(k as int).drop_first() =~= list@.skip(k + 1));
                digest_in_parts(self.state(), word(list@[k as int]), words(list@.skip(k + 1)));
            }
            self.u64(list[k]);
            k = k + 1;
        }
    }

    fn text(&mut self, s: &str)
        ensures
            final(self).state() == digest(old(self).state(), text(s@)),
    {
        self.hash(s);
        self.byte(END);
        assert(text(s@).drop_last() =~= vstd::utf8::encode_utf8(s@));
    }

    fn texts(&mut self, list: &[&str])
        ensures
            final(self).state() == digest(old(self).state(), texts(views(list@))),
    {
        let ghost all = views(list@);
        let mut k: usize = 0;
        assert(all.skip(0) =~= all);
        while k < list.len()
            invariant
                k <= list@.len(),
                all == views(list@),
                digest(old(self).state(), texts(all)) == digest(
                    self.state(),
                    texts(all.skip(k as int)),
                ),
            decreases list@.len() - k,
        {
            proof {
                assert(all.skip(k as int).drop_first() =~= all.skip(k + 1));
                digest_in_parts(self.state(), text(all[k as int]), texts(all.skip(k + 1)));
            }
            self.text(list[k]);
            k = k + 1;
        }
    }

    fn optional_text(&mut self, s: Option<&str>)
        ensures
            final(self).state() == digest(
                old(self).state(),
                optional_text(
                    match s {
                        Some(s) => Some(s@),
                        None => None,
                    },
                ),
            ),
    {
        broadcast use digest_in_parts;

        match s {
            Some(s) => {
                self.u64(1);
                self.text(s);
            },
            None => self.u64(0),
        }
    }
}

/// Yes or no as a number.
pub open spec fn bit(b: bool) -> u64 {
    if b {
        1
    } else {
        0
    }
}

fn bit_of(b: bool) -> (r: u64)
    ensures
        r == bit(b),
{
    if b {
        1
    } else {
        0
    }
}

/// The bytes of some whole numbers, one after the other.
pub open spec fn words(list: Seq<u64>) -> Seq<u8>
    decreases list.len(),
{
    if list.len() == 0 {
        Seq::empty()
    } else {
        word(list[0]) + words(list.drop_first())
    }
}

/// The byte that closes a text. No text holds it.
pub const END: u8 = 0xff;

/// The bytes of a text, closed.
pub open spec fn text(s: Seq<char>) -> Seq<u8> {
    vstd::utf8::encode_utf8(s).push(END)
}

/// The bytes of some texts, one after the other.
pub open spec fn texts(list: Seq<Seq<char>>) -> Seq<u8>
    decreases list.len(),
{
    if list.len() == 0 {
        Seq::empty()
    } else {
        text(list[0]) + texts(list.drop_first())
    }
}

/// The texts of some strings.
pub open spec fn views(list: Seq<&str>) -> Seq<Seq<char>> {
    list.map_values(|s: &str| s@)
}

/// The bytes of a text that may be missing: a sign whether it is there, and the
/// text.
pub open spec fn optional_text(s: Option<Seq<char>>) -> Seq<u8> {
    match s {
        Some(s) => word(1) + text(s),
        None => word(0),
    }
}

/// The texts of the configuration that are drawn.
pub open spec fn config_texts<S>(c: Config<S>) -> Seq<Seq<char>> {
    seq![
        c.display.mode@,
        c.appearance.background@,
        c.appearance.window_color@,
        c.appearance.focused_color@,
        c.appearance.border_color@,
        c.appearance.active_workspace_border_color@,
        c.appearance.active_window_border_color@,
    ]
}

/// The numbers of the configuration that are drawn.
pub open spec fn config_words<S: Scalar>(c: Config<S>) -> Seq<u64> {
    let a = c.appearance;
    seq![
        c.display.height as u64,
        c.display.max_width_percent.spec_bits(),
        c.display.max_height_percent.spec_bits(),
        bit(c.display.follow_focus),
        a.background_opacity.spec_bits(),
        a.border_width.spec_bits(),
        a.border_radius.spec_bits(),
        a.gap.spec_bits(),
        a.window_opacity.spec_bits(),
        a.focused_opacity.spec_bits(),
        bit(a.show_icons),
        a.workspace_gap.spec_bits(),
        a.active_workspace_border_width.spec_bits(),
        a.active_window_border_width.spec_bits(),
    ]
}

/// The parts of the configuration that are drawn.
pub open spec fn config_bytes<S: Scalar>(c: Config<S>) -> Seq<u8> {
    texts(config_texts(c)) + words(config_words(c))
}

/// Two numbers that may be missing: a sign whether they are there, and the
/// numbers, or 0.
pub open spec fn pair(p: Option<(u64, u64)>) -> (u64, u64, u64) {
    match p {
        Some(p) => (1, p.0, p.1),
        None => (0, 0, 0),
    }
}

fn pair_of(p: Option<(u64, u64)>) -> (r: (u64, u64, u64))
    ensures
        r == pair(p),
{
    match p {
        Some(p) => (1, p.0, p.1),
        None => (0, 0, 0),
    }
}

/// A size as numbers.
pub open spec fn size_words(size: Option<(u32, u32)>) -> Option<(u64, u64)> {
    match size {
        Some(size) => Some((size.0 as u64, size.1 as u64)),
        None => None,
    }
}

fn words_of_size(size: Option<(u32, u32)>) -> (r: Option<(u64, u64)>)
    ensures
        r == size_words(size),
{
    match size {
        Some(size) => Some((size.0 as u64, size.1 as u64)),
        None => None,
    }
}

/// The numbers of the surface that is drawn on.
pub open spec fn surface_words<N: Scalar>(
    generation: u64,
    scale: i32,
    configured: Option<(u32, u32)>,
    viewport_width: N,
    output_height: N,
) -> Seq<u64> {
    let size = pair(size_words(configured));
    seq![
        generation,
        scale as u64,
        size.0,
        size.1,
        size.2,
        viewport_width.spec_bits(),
        output_height.spec_bits(),
    ]
}

/// The numbers of an output.
pub open spec fn output_words(o: Output) -> Seq<u64> {
    let size = pair(size_words(o.logical));
    seq![size.0, size.1, size.2]
}

pub open spec fn output_bytes(o: Output) -> Seq<u8> {
    text(o.name@) + words(output_words(o))
}

/// The numbers of a workspace.
pub open spec fn workspace_words(ws: Workspace) -> Seq<u64> {
    seq![
        ws.id,
        ws.idx as u64,
        bit(ws.is_active),
        bit(ws.is_focused),
        bit(ws.active_window_id is Some),
        or_zero(ws.active_window_id),
    ]
}

pub open spec fn workspace_bytes(ws: Workspace) -> Seq<u8> {
    optional_text(text_of_option(ws.name)) + optional_text(text_of_option(ws.output)) + words(
        workspace_words(ws),
    )
}

pub open spec fn or_zero(v: Option<u64>) -> u64 {
    match v {
        Some(v) => v,
        None => 0,
    }
}

/// A place in the scrolling layout as numbers.
pub open spec fn place_words(p: Option<(usize, usize)>) -> Option<(u64, u64)> {
    match p {
        Some(p) => Some((p.0 as u64, p.1 as u64)),
        None => None,
    }
}

/// A position as numbers.
pub open spec fn position_words<S: Scalar>(p: Option<(S, S)>) -> Option<(u64, u64)> {
    match p {
        Some(p) => Some((p.0.spec_bits(), p.1.spec_bits())),
        None => None,
    }
}

/// The numbers of a window.
pub open spec fn window_words<S: Scalar>(w: Window<S>) -> Seq<u64> {
    let l = w.layout;
    let place = pair(place_words(l.pos_in_scrolling_layout));
    let position = pair(position_words(l.tile_pos_in_workspace_view));
    seq![
        w.id,
        bit(w.workspace_id is Some),
        or_zero(w.workspace_id),
        bit(w.is_focused),
        bit(w.is_floating),
        place.0,
        place.1,
        place.2,
        l.tile_size.0.spec_bits(),
        l.tile_size.1.spec_bits(),
        l.window_size.0 as u64,
        l.window_size.1 as u64,
        position.0,
        position.1,
        position.2,
        l.window_offset_in_tile.0.spec_bits(),
        l.window_offset_in_tile.1.spec_bits(),
    ]
}

pub open spec fn window_bytes<S: Scalar>(w: Window<S>) -> Seq<u8> {
    optional_text(text_of_option(w.app_id)) + words(window_words(w))
}

/// The bytes of some items: before each a sign that one follows, and at the end
/// that none does.
pub open spec fn listing<T>(items: Seq<T>, f: spec_fn(T) -> Seq<u8>) -> Seq<u8>
    decreases items.len(),
{
    if items.len() == 0 {
        word(0)
    } else {
        word(1) + f(items[0]) + listing(items.drop_first(), f)
    }
}

/// The name of an output as bytes.
pub open spec fn name_bytes(o: Output) -> Seq<u8> {
    vstd::utf8::encode_utf8(o.name@)
}

/// Outputs by name.
pub struct ByName;

impl Order<Output> for ByName {
    open spec fn le(a: Output, b: Output) -> bool {
        crate::order::bytes_le(name_bytes(a), name_bytes(b))
    }

    proof fn total(a: Output, b: Output) {
        crate::order::bytes_le_total(name_bytes(a), name_bytes(b));
    }

    proof fn transitive(a: Output, b: Output, c: Output) {
        crate::order::bytes_le_transitive(name_bytes(a), name_bytes(b), name_bytes(c));
    }

    fn at_most(a: &Output, b: &Output) -> (r: bool) {
        bytes_at_most(a.name.as_str().as_bytes(), b.name.as_str().as_bytes())
    }
}

/// Windows by id.
pub struct ById;

impl<S> Order<Window<S>> for ById {
    open spec fn le(a: Window<S>, b: Window<S>) -> bool {
        a.id <= b.id
    }

    proof fn total(a: Window<S>, b: Window<S>) {
    }

    proof fn transitive(a: Window<S>, b: Window<S>, c: Window<S>) {
    }

    fn at_most(a: &Window<S>, b: &Window<S>) -> (r: bool) {
        a.id <= b.id
    }
}

/// The workspaces that are drawn: all that are worth a row in the stacked
/// view, else the focused one.
pub open spec fn drawn_workspaces<S>(
    stacked: bool,
    workspaces: Seq<Workspace>,
    windows: Seq<Window<S>>,
) -> Seq<Workspace> {
    if stacked {
        crate::layout::listed(workspaces, windows)
    } else {
        match crate::layout::first_focused(workspaces) {
            Some(ws) => seq![ws],
            None => Seq::empty(),
        }
    }
}

/// The windows that can be drawn, by id: all in the stacked view, else those
/// of the focused workspace.
pub open spec fn drawn_windows<S>(
    stacked: bool,
    workspaces: Seq<Workspace>,
    windows: Seq<Window<S>>,
) -> Seq<Window<S>> {
    let shown = if stacked {
        windows
    } else {
        match crate::layout::first_focused(workspaces) {
            Some(ws) => windows.filter(|w: Window<S>| w.workspace_id == Some(ws.id)),
            None => Seq::empty(),
        }
    };
    crate::order::sorted::<Window<S>, ById>(shown)
}

/// The part of the content that comes from the compositor.
pub open spec fn state_bytes<S: Scalar>(
    stacked: bool,
    workspaces: Seq<Workspace>,
    windows: Seq<Window<S>>,
    outputs: Seq<Output>,
) -> Seq<u8> {
    listing(crate::order::sorted::<Output, ByName>(outputs), |o: Output| output_bytes(o))
        + listing(
        drawn_workspaces(stacked, workspaces, windows),
        |ws: Workspace| workspace_bytes(ws),
    ) + listing(
        drawn_windows(stacked, workspaces, windows),
        |w: Window<S>| window_bytes(w),
    )
}

/// What the minimap is drawn from.
pub struct Content<S: Wide> {
    pub cfg: Config<S>,
    pub surface_generation: u64,
    pub surface_scale: i32,
    pub configured: Option<(u32, u32)>,
    pub focused_output_name: Option<Seq<char>>,
    pub viewport_width: S::Narrow,
    pub output_height: S::Narrow,
    pub workspaces: Seq<Workspace>,
    pub windows: Seq<Window<S>>,
    pub outputs: Seq<Output>,
}

/// The surface that is drawn on.
pub open spec fn surface_bytes<S: Wide>(c: Content<S>) -> Seq<u8> {
    optional_text(c.focused_output_name) + words(
        surface_words(
            c.surface_generation,
            c.surface_scale,
            c.configured,
            c.viewport_width,
            c.output_height,
        ),
    )
}

/// Everything that can change what the minimap draws.
pub open spec fn content_bytes<S: Wide>(c: Content<S>) -> Seq<u8> {
    config_bytes(c.cfg) + surface_bytes(c) + state_bytes(
        c.cfg.spec_is_stacked(),
        c.workspaces,
        c.windows,
        c.outputs,
    )
}

fn hash_config<S: Scalar>(h: &mut Fnv1a, cfg: &Config<S>)
    ensures
        final(h).state() == digest(old(h).state(), config_bytes(*cfg)),
{
    broadcast use digest_in_parts;

    let a: &AppearanceConfig<S> = &cfg.appearance;
    let list: [&str; 7] = [
        cfg.display.mode.as_str(),
        a.background.as_str(),
        a.window_color.as_str(),
        a.focused_color.as_str(),
        a.border_color.as_str(),
        a.active_workspace_border_color.as_str(),
        a.active_window_border_color.as_str(),
    ];
    assert(views(list@) =~= config_texts(*cfg));
    h.texts(list.as_slice());
    let numbers: [u64; 14] = [
        cfg.display.height as u64,
        cfg.display.max_width_percent.bits(),
        cfg.display.max_height_percent.bits(),
        bit_of(cfg.display.follow_focus),
        a.background_opacity.bits(),
        a.border_width.bits(),
        a.border_radius.bits(),
        a.gap.bits(),
        a.window_opacity.bits(),
        a.focused_opacity.bits(),
        bit_of(a.show_icons),
        a.workspace_gap.bits(),
        a.active_workspace_border_width.bits(),
        a.active_window_border_width.bits(),
    ];
    assert(numbers@ =~= config_words(*cfg));
    h.words(numbers.as_slice());
}

fn hash_output(h: &mut Fnv1a, o: &Output)
    ensures
        final(h).state() == digest(old(h).state(), output_bytes(*o)),
{
    broadcast use digest_in_parts;

    let size: (u64, u64, u64) = pair_of(words_of_size(o.logical));
    let numbers: [u64; 3] = [size.0, size.1, size.2];
    assert(numbers@ =~= output_words(*o));
    h.text(o.name.as_str());
    h.words(numbers.as_slice());
}

fn text_ref(s: &Option<String>) -> (r: Option<&str>)
    ensures
        text_of_option(*s) == match r {
            Some(t) => Some(t@),
            None => None,
        },
{
    match s {
        Some(s) => Some(s.as_str()),
        None => None,
    }
}

fn hash_workspace(h: &mut Fnv1a, ws: &Workspace)
    ensures
        final(h).state() == digest(old(h).state(), workspace_bytes(*ws)),
{
    broadcast use digest_in_parts;

    let active: u64 = match ws.active_window_id {
        Some(id) => id,
        None => 0,
    };
    let numbers: [u64; 6] = [
        ws.id,
        ws.idx as u64,
        bit_of(ws.is_active),
        bit_of(ws.is_focused),
        bit_of(ws.active_window_id.is_some()),
        active,
    ];
    assert(numbers@ =~= workspace_words(*ws));
    h.optional_text(text_ref(&ws.name));
    h.optional_text(text_ref(&ws.output));
    h.words(numbers.as_slice());
}

fn hash_window<S: Scalar>(h: &mut Fnv1a, w: &Window<S>)
    ensures
        final(h).state() == digest(old(h).state(), window_bytes(*w)),
{
    broadcast use digest_in_parts;

    let l: &WindowLayout<S> = &w.layout;
    let workspace: u64 = match w.workspace_id {
        Some(id) => id,
        None => 0,
    };
    let place: (u64, u64, u64) = pair_of(
        match l.pos_in_scrolling_layout {
            Some(p) => Some((p.0 as u64, p.1 as u64)),
            None => None,
        },
    );
    let position: (u64, u64, u64) = pair_of(
        match l.tile_pos_in_workspace_view {
            Some(p) => Some((p.0.bits(), p.1.bits())),
            None => None,
        },
    );
    let numbers: [u64; 17] = [
        w.id,
        bit_of(w.workspace_id.is_some()),
        workspace,
        bit_of(w.is_focused),
        bit_of(w.is_floating),
        place.0,
        place.1,
        place.2,
        l.tile_size.0.bits(),
        l.tile_size.1.bits(),
        l.window_size.0 as u64,
        l.window_size.1 as u64,
        position.0,
        position.1,
        position.2,
        l.window_offset_in_tile.0.bits(),
        l.window_offset_in_tile.1.bits(),
    ];
    assert(numbers@ =~= window_words(*w));
    h.optional_text(text_ref(&w.app_id));
    h.words(numbers.as_slice());
}

proof fn lemma_listing_step<T>(h: u64, items: Seq<T>, f: spec_fn(T) -> Seq<u8>, k: int)
    requires
        0 <= k < items.len(),
    ensures
        digest(h, listing(items.skip(k), f)) == digest(
            digest(digest(h, word(1)), f(items[k])),
            listing(items.skip(k + 1), f),
        ),
{
    assert(items.skip(k).drop_first() =~= items.skip(k + 1));
    digest_in_parts(h, word(1) + f(items[k]), listing(items.skip(k + 1), f));
    digest_in_parts(h, word(1), f(items[k]));
}

fn hash_outputs(h: &mut Fnv1a, outputs: &[Output])
    ensures
        final(h).state() == digest(
            old(h).state(),
            listing(crate::order::sorted::<Output, ByName>(outputs@), |o: Output| output_bytes(o)),
        ),
{
    let mut refs: Vec<&Output> = Vec::new();
    let mut i: usize = 0;
    while i < outputs.len()
        invariant
            i <= outputs@.len(),
            refs@.unref() == outputs@.take(i as int),
            *h == *old(h),
        decreases outputs@.len() - i,
    {
        let ghost before = refs@.unref();
        refs.push(&outputs[i]);
        assert(refs@.unref() =~= before.push(outputs@[i as int]));
        i = i + 1;
        assert(outputs@.take(i as int) =~= outputs@.take(i - 1).push(outputs@[i - 1]));
    }
    assert(outputs@.take(i as int) =~= outputs@);
    let list = sort::<Output, ByName>(refs.as_slice());
    let ghost all = list@.unref();
    let ghost f = |o: Output| output_bytes(o);
    let mut k: usize = 0;
    assert(all.skip(0) =~= all);
    while k < list.len()
        invariant
            k <= list@.len(),
            all == list@.unref(),
            f == (|o: Output| output_bytes(o)),
            digest(old(h).state(), listing(all, f)) == digest(
                h.state(),
                listing(all.skip(k as int), f),
            ),
        decreases list@.len() - k,
    {
        proof {
            lemma_listing_step(h.state(), all, f, k as int);
        }
        h.u64(1);
        hash_output(h, list[k]);
        k = k + 1;
    }
    h.u64(0);
}

fn hash_windows<S: Scalar>(h: &mut Fnv1a, shown: &[&Window<S>])
    ensures
        final(h).state() == digest(
            old(h).state(),
            listing(
                crate::order::sorted::<Window<S>, ById>(shown@.unref()),
                |w: Window<S>| window_bytes(w),
            ),
        ),
{
    let list = sort::<Window<S>, ById>(shown);
    let ghost all = list@.unref();
    let ghost f = |w: Window<S>| window_bytes(w);
    let mut k: usize = 0;
    assert(all.skip(0) =~= all);
    while k < list.len()
        invariant
            k <= list@.len(),
            all == list@.unref(),
            f == (|w: Window<S>| window_bytes(w)),
            digest(old(h).state(), listing(all, f)) == digest(
                h.state(),
                listing(all.skip(k as int), f),
            ),
        decreases list@.len() - k,
    {
        proof {
            lemma_listing_step(h.state(), all, f, k as int);
        }
        h.u64(1);
        hash_window(h, list[k]);
        k = k + 1;
    }
    h.u64(0);
}

fn hash_workspaces(h: &mut Fnv1a, list: &[&Workspace])
    ensures
        final(h).state() == digest(
            old(h).state(),
            listing(list@.unref(), |ws: Workspace| workspace_bytes(ws)),
        ),
{
    let ghost all = list@.unref();
    let ghost f = |ws: Workspace| workspace_bytes(ws);
    let mut k: usize = 0;
    assert(all.skip(0) =~= all);
    while k < list.len()
        invariant
            k <= list@.len(),
            all == list@.unref(),
            f == (|ws: Workspace| workspace_bytes(ws)),
            digest(old(h).state(), listing(all, f)) == digest(
                h.state(),
                listing(all.skip(k as int), f),
            ),
        decreases list@.len() - k,
    {
        proof {
            lemma_listing_step(h.state(), all, f, k as int);
        }
        h.u64(1);
        hash_workspace(h, list[k]);
        k = k + 1;
    }
    h.u64(0);
}

/// The windows of one workspace, or all of them, in the order given.
fn pick<'a, S>(windows: &'a [Window<S>], workspace: Option<u64>) -> (r: Vec<&'a Window<S>>)
    ensures
        r@.unref() == match workspace {
            Some(id) => windows@.filter(|w: Window<S>| w.workspace_id == Some(id)),
            None => windows@,
        },
{
    let ghost pred = |w: Window<S>|
        match workspace {
            Some(id) => w.workspace_id == Some(id),
            None => true,
        };
    let mut r: Vec<&'a Window<S>> = Vec::new();
    let mut i: usize = 0;
    proof {
        reveal(Seq::filter);
    }
    assert(r@.unref() =~= windows@.take(0).filter(pred));
    while i < windows.len()
        invariant
            i <= windows@.len(),
            pred == (|w: Window<S>|
                match workspace {
                    Some(id) => w.workspace_id == Some(id),
                    None => true,
                }),
            r@.unref() == windows@.take(i as int).filter(pred),
        decreases windows@.len() - i,
    {
        let w: &'a Window<S> = &windows[i];
        let wanted: bool = match (workspace, w.workspace_id) {
            (None, _) => true,
            (Some(_), None) => false,
            (Some(id), Some(on)) => id == on,
        };
        let ghost before = r@.unref();
        if wanted {
            r.push(w);
        }
        proof {
            reveal(Seq::filter);
            assert(windows@.take(i + 1).drop_last() =~= windows@.take(i as int));
            assert(windows@.take(i + 1).last() == *w);
            assert(wanted ==> r@.unref() =~= before.push(*w));
        }
        i = i + 1;
    }
    proof {
        assert(windows@.take(i as int) =~= windows@);
        match workspace {
            Some(id) => {
                assert(pred =~= (|w: Window<S>| w.workspace_id == Some(id)));
            },
            None => {
                crate::seqs::lemma_filter_all(windows@, pred);
            },
        }
    }
    r
}

/// Digest of everything that can change what the minimap draws.
pub fn content_signature<S: Wide>(
    cfg: &Config<S>,
    surface_generation: u64,
    surface_scale: i32,
    configured: Option<(u32, u32)>,
    focused_output_name: Option<&str>,
    viewport_width: S::Narrow,
    output_height: S::Narrow,
    workspaces: &[Workspace],
    windows: &[Window<S>],
    outputs: &[Output],
) -> (r: u64)
    ensures
        r == digest(
            OFFSET,
            content_bytes(
                (Content {
                    cfg: *cfg,
                    surface_generation,
                    surface_scale,
                    configured,
                    focused_output_name: match focused_output_name {
                        Some(name) => Some(name@),
                        None => None,
                    },
                    viewport_width,
                    output_height,
                    workspaces: workspaces@,
                    windows: windows@,
                    outputs: outputs@,
                }),
            ),
        ),
{
    broadcast use digest_in_parts;

    let mut h = Fnv1a::new();
    hash_config(&mut h, cfg);
    let size: (u64, u64, u64) = pair_of(words_of_size(configured));
    let numbers: [u64; 7] = [
        surface_generation,
        surface_scale as u64,
        size.0,
        size.1,
        size.2,
        viewport_width.bits(),
        output_height.bits(),
    ];
    assert(numbers@ =~= surface_words(
        surface_generation,
        surface_scale,
        configured,
        viewport_width,
        output_height,
    ));
    h.optional_text(focused_output_name);
    h.words(numbers.as_slice());
    hash_outputs(&mut h, outputs);
    if cfg.is_stacked() {
        let list = all_rows(workspaces, windows);
        hash_workspaces(&mut h, list.as_slice());
        let shown = pick(windows, None);
        hash_windows(&mut h, shown.as_slice());
    } else {
        let mut list: Vec<&Workspace> = Vec::new();
        let mut shown: Vec<&Window<S>> = Vec::new();
        if let Some(ws) = focused_workspace(workspaces) {
            list.push(ws);
            shown = pick(windows, Some(ws.id));
        }
        assert(list@.unref() =~= drawn_workspaces(false, workspaces@, windows@));
        assert(shown@.unref() =~= match crate::layout::first_focused(workspaces@) {
            Some(ws) => windows@.filter(|w: Window<S>| w.workspace_id == Some(ws.id)),
            None => Seq::empty(),
        });
        hash_workspaces(&mut h, list.as_slice());
        hash_windows(&mut h, shown.as_slice());
    }
    h.finish()
}

/// Steps that take in the same byte keep different digests apart.
proof fn lemma_absorb_injective(g: u64, h: u64, a: u8, b: u8)
    requires
        absorb(g, a) == absorb(h, b),
    ensures
        g ^ (a as u64) == h ^ (b as u64),
{
    let m: int = 0x1_0000_0000_0000_0000;
    let p: int = PRIME as int;
    let q: int = 0xce96_5057_aff6_957b;
    let x = (g ^ (a as u64)) as int;
    let y = (h ^ (b as u64)) as int;
    assert(p * q == 887285111055 * m + 1) by (nonlinear_arith)
        requires
            p == 0x100_0000_01b3,
            q == 0xce96_5057_aff6_957b,
            m == 0x1_0000_0000_0000_0000,
    ;
    lemma_undo(x, p, q, m, 887285111055);
    lemma_undo(y, p, q, m, 887285111055);
}

/// Multiplying by `q` undoes multiplying by `p`, modulo `m`.
proof fn lemma_undo(x: int, p: int, q: int, m: int, k: int)
    requires
        0 <= x < m,
        p * q == k * m + 1,
    ensures
        ((x * p) % m * q) % m == x,
{
    vstd::arithmetic::div_mod::lemma_mul_mod_noop_left(x * p, q, m);
    assert(x * p * q == x * k * m + x) by (nonlinear_arith)
        requires
            p * q == k * m + 1,
    ;
    vstd::arithmetic::div_mod::lemma_mod_multiples_vanish(x * k, x, m);
    vstd::arithmetic::mul::lemma_mul_is_commutative(x * k, m);
    vstd::arithmetic::div_mod::lemma_small_mod(x as nat, m as nat);
}

proof fn lemma_digest_injective(g: u64, h: u64, bytes: Seq<u8>)
    requires
        g != h,
    ensures
        digest(g, bytes) != digest(h, bytes),
    decreases bytes.len(),
{
    if bytes.len() > 0 {
        lemma_digest_injective(g, h, bytes.drop_last());
        let x = digest(g, bytes.drop_last());
        let y = digest(h, bytes.drop_last());
        let b = bytes.last() as u64;
        if digest(g, bytes) == digest(h, bytes) {
            lemma_absorb_injective(x, y, bytes.last(), bytes.last());
            assert(x ^ b == y ^ b ==> x == y) by (bit_vector);
        }
    }
}

/// A change of a single byte of the content always changes the signature.
pub proof fn one_byte_changes_the_signature(
    start: u64,
    before: Seq<u8>,
    a: u8,
    b: u8,
    after: Seq<u8>,
)
    requires
        a != b,
    ensures
        digest(start, before.push(a) + after) != digest(start, before.push(b) + after),
{
    let h = digest(start, before);
    let x = a as u64;
    let y = b as u64;
    assert(before.push(a).drop_last() =~= before);
    assert(before.push(b).drop_last() =~= before);
    if absorb(h, a) == absorb(h, b) {
        lemma_absorb_injective(h, h, a, b);
        assert(h ^ x == h ^ y ==> x == y) by (bit_vector);
    }
    lemma_digest_injective(absorb(h, a), absorb(h, b), after);
    digest_in_parts(start, before.push(a), after);
    digest_in_parts(start, before.push(b), after);
}

/// Where the same bytes begin with parts of the same length, the parts are the
/// same.
proof fn lemma_cut(x: Seq<u8>, r: Seq<u8>, y: Seq<u8>, t: Seq<u8>)
    requires
        x + r == y + t,
        x.len() == y.len(),
    ensures
        x == y,
        r == t,
{
    assert(x =~= (x + r).take(x.len() as int));
    assert(y =~= (y + t).take(x.len() as int));
    assert(r =~= (x + r).skip(x.len() as int));
    assert(t =~= (y + t).skip(x.len() as int));
}

proof fn lemma_word(a: u64, b: u64)
    requires
        word(a) == word(b),
    ensures
        a == b,
{
    let x = word(a);
    let y = word(b);
    assert(x[0] == y[0] && x[1] == y[1] && x[2] == y[2] && x[3] == y[3]);
    assert(x[4] == y[4] && x[5] == y[5] && x[6] == y[6] && x[7] == y[7]);
    assert(a == b) by (bit_vector)
        requires
            (a & 0xff) as u8 == (b & 0xff) as u8,
            ((a >> 8) & 0xff) as u8 == ((b >> 8) & 0xff) as u8,
            ((a >> 16) & 0xff) as u8 == ((b >> 16) & 0xff) as u8,
            ((a >> 24) & 0xff) as u8 == ((b >> 24) & 0xff) as u8,
            ((a >> 32) & 0xff) as u8 == ((b >> 32) & 0xff) as u8,
            ((a >> 40) & 0xff) as u8 == ((b >> 40) & 0xff) as u8,
            ((a >> 48) & 0xff) as u8 == ((b >> 48) & 0xff) as u8,
            ((a >> 56) & 0xff) as u8 == ((b >> 56) & 0xff) as u8,
    ;
}

proof fn lemma_words(a: Seq<u64>, b: Seq<u64>, r: Seq<u8>, t: Seq<u8>)
    requires
        a.len() == b.len(),
        words(a) + r == words(b) + t,
    ensures
        a == b,
        r == t,
    decreases a.len(),
{
    if a.len() == 0 {
        assert(words(a) + r =~= r);
        assert(words(b) + t =~= t);
        assert(a =~= b);
    } else {
        let ra = words(a.drop_first()) + r;
        let rb = words(b.drop_first()) + t;
        assert(words(a) + r =~= word(a[0]) + ra);
        assert(words(b) + t =~= word(b[0]) + rb);
        lemma_cut(word(a[0]), ra, word(b[0]), rb);
        lemma_word(a[0], b[0]);
        lemma_words(a.drop_first(), b.drop_first(), r, t);
        assert(a =~= seq![a[0]] + a.drop_first());
        assert(b =~= seq![b[0]] + b.drop_first());
    }
}

proof fn lemma_scalar_has_no_end(c: u32, i: int)
    requires
        0 <= i < vstd::utf8::encode_scalar(c).len(),
        c <= 0x10ffff,
    ensures
        vstd::utf8::encode_scalar(c)[i] != END,
{
    assert(vstd::utf8::leading_byte_width_1(c) != 0xff) by (bit_vector);
    assert(vstd::utf8::leading_byte_width_2(c) != 0xff) by (bit_vector);
    assert(vstd::utf8::leading_byte_width_3(c) != 0xff) by (bit_vector);
    assert(vstd::utf8::leading_byte_width_4(c) != 0xff) by (bit_vector)
        requires
            c <= 0x10ffff,
    ;
    assert(vstd::utf8::last_continuation_byte(c) != 0xff) by (bit_vector);
    assert(vstd::utf8::second_last_continuation_byte(c) != 0xff) by (bit_vector);
    assert(vstd::utf8::third_last_continuation_byte(c) != 0xff) by (bit_vector);
}

/// No text holds the byte that closes it.
proof fn lemma_text_has_no_end(s: Seq<char>, i: int)
    requires
        0 <= i < vstd::utf8::encode_utf8(s).len(),
    ensures
        vstd::utf8::encode_utf8(s)[i] != END,
    decreases s.len(),
{
    if s.len() > 0 {
        let first = vstd::utf8::encode_scalar(s[0] as u32);
        if i < first.len() {
            vstd::utf8::char_is_scalar(s[0]);
            lemma_scalar_has_no_end(s[0] as u32, i);
        } else {
            lemma_text_has_no_end(s.drop_first(), i - first.len());
        }
    }
}

proof fn lemma_text(a: Seq<char>, b: Seq<char>, r: Seq<u8>, t: Seq<u8>)
    requires
        text(a) + r == text(b) + t,
    ensures
        a == b,
        r == t,
{
    let x = vstd::utf8::encode_utf8(a);
    let y = vstd::utf8::encode_utf8(b);
    let all = text(a) + r;
    assert(all[x.len() as int] == END);
    assert((text(b) + t)[y.len() as int] == END);
    if x.len() < y.len() {
        lemma_text_has_no_end(b, x.len() as int);
        assert((text(b) + t)[x.len() as int] == y[x.len() as int]);
    }
    if y.len() < x.len() {
        lemma_text_has_no_end(a, y.len() as int);
        assert(all[y.len() as int] == x[y.len() as int]);
    }
    lemma_cut(text(a), r, text(b), t);
    assert(x =~= text(a).drop_last());
    assert(y =~= text(b).drop_last());
    vstd::utf8::encode_utf8_decode_utf8(a);
    vstd::utf8::encode_utf8_decode_utf8(b);
}

proof fn lemma_texts(a: Seq<Seq<char>>, b: Seq<Seq<char>>, r: Seq<u8>, t: Seq<u8>)
    requires
        a.len() == b.len(),
        texts(a) + r == texts(b) + t,
    ensures
        a == b,
        r == t,
    decreases a.len(),
{
    if a.len() == 0 {
        assert(texts(a) + r =~= r);
        assert(texts(b) + t =~= t);
        assert(a =~= b);
    } else {
        let ra = texts(a.drop_first()) + r;
        let rb = texts(b.drop_first()) + t;
        assert(texts(a) + r =~= text(a[0]) + ra);
        assert(texts(b) + t =~= text(b[0]) + rb);
        lemma_text(a[0], b[0], ra, rb);
        lemma_texts(a.drop_first(), b.drop_first(), r, t);
        assert(a =~= seq![a[0]] + a.drop_first());
        assert(b =~= seq![b[0]] + b.drop_first());
    }
}

proof fn lemma_optional_text(
    a: Option<Seq<char>>,
    b: Option<Seq<char>>,
    r: Seq<u8>,
    t: Seq<u8>,
)
    requires
        optional_text(a) + r == optional_text(b) + t,
    ensures
        a == b,
        r == t,
{
    let (sign_a, ra) = match a {
        Some(x) => (1u64, text(x) + r),
        None => (0u64, r),
    };
    let (sign_b, rb) = match b {
        Some(y) => (1u64, text(y) + t),
        None => (0u64, t),
    };
    assert(optional_text(a) + r =~= word(sign_a) + ra);
    assert(optional_text(b) + t =~= word(sign_b) + rb);
    lemma_cut(word(sign_a), ra, word(sign_b), rb);
    lemma_word(sign_a, sign_b);
    if a is Some {
        lemma_text(a->0, b->0, r, t);
    }
}

proof fn lemma_listing<T>(
    a: Seq<T>,
    b: Seq<T>,
    f: spec_fn(T) -> Seq<u8>,
    alike: spec_fn(T, T) -> bool,
    r: Seq<u8>,
    t: Seq<u8>,
)
    requires
        listing(a, f) + r == listing(b, f) + t,
        forall|x: T, y: T, u: Seq<u8>, v: Seq<u8>|
            #[trigger] (f(x) + u) == #[trigger] (f(y) + v) ==> alike(x, y) && u == v,
    ensures
        pairwise(a, b, alike),
        r == t,
    decreases a.len(),
{
    let (sign_a, ra) = if a.len() > 0 {
        (1u64, f(a[0]) + (listing(a.drop_first(), f) + r))
    } else {
        (0u64, r)
    };
    let (sign_b, rb) = if b.len() > 0 {
        (1u64, f(b[0]) + (listing(b.drop_first(), f) + t))
    } else {
        (0u64, t)
    };
    assert(listing(a, f) + r =~= word(sign_a) + ra);
    assert(listing(b, f) + t =~= word(sign_b) + rb);
    lemma_cut(word(sign_a), ra, word(sign_b), rb);
    lemma_word(sign_a, sign_b);
    if a.len() > 0 {
        lemma_listing(a.drop_first(), b.drop_first(), f, alike, r, t);
        assert forall|i: int| 0 <= i < a.len() implies alike(#[trigger] a[i], b[i]) by {
            if i > 0 {
                assert(alike(a.drop_first()[i - 1], b.drop_first()[i - 1]));
            }
        }
    }
}

proof fn lemma_pair(a: Option<(u64, u64)>, b: Option<(u64, u64)>)
    requires
        pair(a) == pair(b),
    ensures
        a == b,
{
}

proof fn lemma_output(a: Output, b: Output, r: Seq<u8>, t: Seq<u8>)
    requires
        output_bytes(a) + r == output_bytes(b) + t,
    ensures
        same_output(a, b),
        r == t,
{
    let ra = words(output_words(a)) + r;
    let rb = words(output_words(b)) + t;
    assert(output_bytes(a) + r =~= text(a.name@) + ra);
    assert(output_bytes(b) + t =~= text(b.name@) + rb);
    lemma_text(a.name@, b.name@, ra, rb);
    lemma_words(output_words(a), output_words(b), r, t);
    let x = output_words(a);
    let y = output_words(b);
    assert(x[0] == y[0] && x[1] == y[1] && x[2] == y[2]);
    lemma_pair(size_words(a.logical), size_words(b.logical));
}

proof fn lemma_workspace(a: Workspace, b: Workspace, r: Seq<u8>, t: Seq<u8>)
    requires
        workspace_bytes(a) + r == workspace_bytes(b) + t,
    ensures
        same_workspace(a, b),
        r == t,
{
    let wa = words(workspace_words(a)) + r;
    let wb = words(workspace_words(b)) + t;
    let ra = optional_text(text_of_option(a.output)) + wa;
    let rb = optional_text(text_of_option(b.output)) + wb;
    assert(workspace_bytes(a) + r =~= optional_text(text_of_option(a.name)) + ra);
    assert(workspace_bytes(b) + t =~= optional_text(text_of_option(b.name)) + rb);
    lemma_optional_text(text_of_option(a.name), text_of_option(b.name), ra, rb);
    lemma_optional_text(text_of_option(a.output), text_of_option(b.output), wa, wb);
    lemma_words(workspace_words(a), workspace_words(b), r, t);
    let x = workspace_words(a);
    let y = workspace_words(b);
    assert(x[0] == y[0] && x[1] == y[1] && x[2] == y[2]);
    assert(x[3] == y[3] && x[4] == y[4] && x[5] == y[5]);
}

proof fn lemma_signed(a: i32, b: i32)
    requires
        a as u64 == b as u64,
    ensures
        a == b,
{
    assert(a as u64 == b as u64 ==> a == b) by (bit_vector);
}

proof fn lemma_window<S: Scalar>(a: Window<S>, b: Window<S>, r: Seq<u8>, t: Seq<u8>)
    requires
        window_bytes(a) + r == window_bytes(b) + t,
    ensures
        same_window(a, b),
        r == t,
{
    let ra = words(window_words(a)) + r;
    let rb = words(window_words(b)) + t;
    assert(window_bytes(a) + r =~= optional_text(text_of_option(a.app_id)) + ra);
    assert(window_bytes(b) + t =~= optional_text(text_of_option(b.app_id)) + rb);
    lemma_optional_text(text_of_option(a.app_id), text_of_option(b.app_id), ra, rb);
    lemma_words(window_words(a), window_words(b), r, t);
    let x = window_words(a);
    let y = window_words(b);
    assert(x[0] == y[0] && x[1] == y[1] && x[2] == y[2] && x[3] == y[3] && x[4] == y[4]);
    assert(x[5] == y[5] && x[6] == y[6] && x[7] == y[7] && x[8] == y[8] && x[9] == y[9]);
    assert(x[10] == y[10] && x[11] == y[11] && x[12] == y[12] && x[13] == y[13]);
    assert(x[14] == y[14] && x[15] == y[15] && x[16] == y[16]);
    lemma_pair(
        place_words(a.layout.pos_in_scrolling_layout),
        place_words(b.layout.pos_in_scrolling_layout),
    );
    lemma_pair(
        position_words(a.layout.tile_pos_in_workspace_view),
        position_words(b.layout.tile_pos_in_workspace_view),
    );
    lemma_signed(a.layout.window_size.0, b.layout.window_size.0);
    lemma_signed(a.layout.window_size.1, b.layout.window_size.1);
}

/// Whether two appearances are drawn alike.
pub open spec fn same_look<S>(a: AppearanceConfig<S>, b: AppearanceConfig<S>) -> bool {
    &&& a.background@ == b.background@
    &&& a.background_opacity == b.background_opacity
    &&& a.window_color@ == b.window_color@
    &&& a.focused_color@ == b.focused_color@
    &&& a.border_color@ == b.border_color@
    &&& a.border_width == b.border_width
    &&& a.border_radius == b.border_radius
    &&& a.gap == b.gap
    &&& a.window_opacity == b.window_opacity
    &&& a.focused_opacity == b.focused_opacity
    &&& a.show_icons == b.show_icons
    &&& a.workspace_gap == b.workspace_gap
    &&& a.active_workspace_border_color@ == b.active_workspace_border_color@
    &&& a.active_workspace_border_width == b.active_workspace_border_width
    &&& a.active_window_border_color@ == b.active_window_border_color@
    &&& a.active_window_border_width == b.active_window_border_width
}

/// Whether two configurations are drawn alike.
pub open spec fn same_settings<S>(a: Config<S>, b: Config<S>) -> bool {
    &&& a.display.mode@ == b.display.mode@
    &&& a.display.height == b.display.height
    &&& a.display.max_width_percent == b.display.max_width_percent
    &&& a.display.max_height_percent == b.display.max_height_percent
    &&& a.display.follow_focus == b.display.follow_focus
    &&& same_look(a.appearance, b.appearance)
}

proof fn lemma_config<S: Scalar>(a: Config<S>, b: Config<S>, r: Seq<u8>, t: Seq<u8>)
    requires
        config_bytes(a) + r == config_bytes(b) + t,
    ensures
        same_settings(a, b),
        r == t,
{
    let ra = words(config_words(a)) + r;
    let rb = words(config_words(b)) + t;
    assert(config_bytes(a) + r =~= texts(config_texts(a)) + ra);
    assert(config_bytes(b) + t =~= texts(config_texts(b)) + rb);
    lemma_texts(config_texts(a), config_texts(b), ra, rb);
    lemma_words(config_words(a), config_words(b), r, t);
    let x = config_texts(a);
    let y = config_texts(b);
    assert(x[0] == y[0] && x[1] == y[1] && x[2] == y[2] && x[3] == y[3]);
    assert(x[4] == y[4] && x[5] == y[5] && x[6] == y[6]);
    let m = config_words(a);
    let n = config_words(b);
    assert(m[0] == n[0] && m[1] == n[1] && m[2] == n[2] && m[3] == n[3] && m[4] == n[4]);
    assert(m[5] == n[5] && m[6] == n[6] && m[7] == n[7] && m[8] == n[8] && m[9] == n[9]);
    assert(m[10] == n[10] && m[11] == n[11] && m[12] == n[12] && m[13] == n[13]);
    let (p, q) = (a.appearance, b.appearance);
    S::bits_tell_apart(a.display.max_width_percent, b.display.max_width_percent);
    S::bits_tell_apart(a.display.max_height_percent, b.display.max_height_percent);
    S::bits_tell_apart(p.background_opacity, q.background_opacity);
    S::bits_tell_apart(p.border_width, q.border_width);
    S::bits_tell_apart(p.border_radius, q.border_radius);
    S::bits_tell_apart(p.gap, q.gap);
    S::bits_tell_apart(p.window_opacity, q.window_opacity);
    S::bits_tell_apart(p.focused_opacity, q.focused_opacity);
    S::bits_tell_apart(p.workspace_gap, q.workspace_gap);
    S::bits_tell_apart(p.active_workspace_border_width, q.active_workspace_border_width);
    S::bits_tell_apart(p.active_window_border_width, q.active_window_border_width);
}

/// Whether two contents are drawn alike, from surfaces that are alike.
pub open spec fn same_content<S: Wide>(a: Content<S>, b: Content<S>) -> bool {
    let stacked = a.cfg.spec_is_stacked();
    &&& same_settings(a.cfg, b.cfg)
    &&& a.surface_generation == b.surface_generation
    &&& a.surface_scale == b.surface_scale
    &&& a.configured == b.configured
    &&& a.focused_output_name == b.focused_output_name
    &&& a.viewport_width == b.viewport_width
    &&& a.output_height == b.output_height
    &&& pairwise(
        crate::order::sorted::<Output, ByName>(a.outputs),
        crate::order::sorted::<Output, ByName>(b.outputs),
        |x: Output, y: Output| same_output(x, y),
    )
    &&& pairwise(
        drawn_workspaces(stacked, a.workspaces, a.windows),
        drawn_workspaces(stacked, b.workspaces, b.windows),
        |x: Workspace, y: Workspace| same_workspace(x, y),
    )
    &&& pairwise(
        drawn_windows(stacked, a.workspaces, a.windows),
        drawn_windows(stacked, b.workspaces, b.windows),
        |x: Window<S>, y: Window<S>| same_window(x, y),
    )
}

proof fn lemma_surface<S: Wide>(a: Content<S>, b: Content<S>, r: Seq<u8>, t: Seq<u8>)
    requires
        surface_bytes(a) + r == surface_bytes(b) + t,
    ensures
        a.surface_generation == b.surface_generation,
        a.surface_scale == b.surface_scale,
        a.configured == b.configured,
        a.focused_output_name == b.focused_output_name,
        a.viewport_width == b.viewport_width,
        a.output_height == b.output_height,
        r == t,
{
    let x = surface_words(
        a.surface_generation,
        a.surface_scale,
        a.configured,
        a.viewport_width,
        a.output_height,
    );
    let y = surface_words(
        b.surface_generation,
        b.surface_scale,
        b.configured,
        b.viewport_width,
        b.output_height,
    );
    assert(surface_bytes(a) + r =~= optional_text(a.focused_output_name) + (words(x) + r));
    assert(surface_bytes(b) + t =~= optional_text(b.focused_output_name) + (words(y) + t));
    lemma_optional_text(a.focused_output_name, b.focused_output_name, words(x) + r, words(y) + t);
    lemma_words(x, y, r, t);
    assert(x[0] == y[0] && x[1] == y[1] && x[2] == y[2] && x[3] == y[3] && x[4] == y[4]);
    assert(x[5] == y[5] && x[6] == y[6]);
    lemma_signed(a.surface_scale, b.surface_scale);
    lemma_pair(size_words(a.configured), size_words(b.configured));
    <S::Narrow as Scalar>::bits_tell_apart(a.viewport_width, b.viewport_width);
    <S::Narrow as Scalar>::bits_tell_apart(a.output_height, b.output_height);
}

proof fn lemma_state<S: Scalar>(
    outputs: Seq<Output>,
    other_outputs: Seq<Output>,
    workspaces: Seq<Workspace>,
    other_workspaces: Seq<Workspace>,
    windows: Seq<Window<S>>,
    other_windows: Seq<Window<S>>,
)
    requires
        listing(outputs, |o: Output| output_bytes(o)) + listing(
            workspaces,
            |ws: Workspace| workspace_bytes(ws),
        ) + listing(windows, |w: Window<S>| window_bytes(w)) == listing(
            other_outputs,
            |o: Output| output_bytes(o),
        ) + listing(other_workspaces, |ws: Workspace| workspace_bytes(ws)) + listing(
            other_windows,
            |w: Window<S>| window_bytes(w),
        ),
    ensures
        pairwise(outputs, other_outputs, |x: Output, y: Output| same_output(x, y)),
        pairwise(
            workspaces,
            other_workspaces,
            |x: Workspace, y: Workspace| same_workspace(x, y),
        ),
        pairwise(windows, other_windows, |x: Window<S>, y: Window<S>| same_window(x, y)),
{
    let f = |o: Output| output_bytes(o);
    let g = |ws: Workspace| workspace_bytes(ws);
    let h = |w: Window<S>| window_bytes(w);
    let none = Seq::<u8>::empty();
    let wa = listing(windows, h) + none;
    let wb = listing(other_windows, h) + none;
    let ra = listing(workspaces, g) + wa;
    let rb = listing(other_workspaces, g) + wb;
    assert(listing(outputs, f) + ra =~= listing(outputs, f) + listing(workspaces, g) + listing(
        windows,
        h,
    ));
    assert(listing(other_outputs, f) + rb =~= listing(other_outputs, f) + listing(
        other_workspaces,
        g,
    ) + listing(other_windows, h));
    assert forall|x: Output, y: Output, u: Seq<u8>, v: Seq<u8>|
        #[trigger] (f(x) + u) == #[trigger] (f(y) + v) implies same_output(x, y) && u == v by {
        lemma_output(x, y, u, v);
    }
    lemma_listing(outputs, other_outputs, f, |x: Output, y: Output| same_output(x, y), ra, rb);
    assert forall|x: Workspace, y: Workspace, u: Seq<u8>, v: Seq<u8>|
        #[trigger] (g(x) + u) == #[trigger] (g(y) + v) implies same_workspace(x, y) && u == v by {
        lemma_workspace(x, y, u, v);
    }
    lemma_listing(
        workspaces,
        other_workspaces,
        g,
        |x: Workspace, y: Workspace| same_workspace(x, y),
        wa,
        wb,
    );
    assert forall|x: Window<S>, y: Window<S>, u: Seq<u8>, v: Seq<u8>|
        #[trigger] (h(x) + u) == #[trigger] (h(y) + v) implies same_window(x, y) && u == v by {
        lemma_window(x, y, u, v);
    }
    lemma_listing(
        windows,
        other_windows,
        h,
        |x: Window<S>, y: Window<S>| same_window(x, y),
        none,
        none,
    );
}

/// Contents with the same bytes are drawn alike: nothing that can change the
/// picture is left out of the bytes, and no two contents are confused in them.
pub proof fn contents_are_told_apart<S: Wide>(a: Content<S>, b: Content<S>)
    requires
        content_bytes(a) == content_bytes(b),
    ensures
        same_content(a, b),
{
    let sa = state_bytes(a.cfg.spec_is_stacked(), a.workspaces, a.windows, a.outputs);
    let sb = state_bytes(b.cfg.spec_is_stacked(), b.workspaces, b.windows, b.outputs);
    assert(content_bytes(a) =~= config_bytes(a.cfg) + (surface_bytes(a) + sa));
    assert(content_bytes(b) =~= config_bytes(b.cfg) + (surface_bytes(b) + sb));
    lemma_config(a.cfg, b.cfg, surface_bytes(a) + sa, surface_bytes(b) + sb);
    lemma_surface(a, b, sa, sb);
    let stacked = a.cfg.spec_is_stacked();
    lemma_state(
        crate::order::sorted::<Output, ByName>(a.outputs),
        crate::order::sorted::<Output, ByName>(b.outputs),
        drawn_workspaces(stacked, a.workspaces, a.windows),
        drawn_workspaces(stacked, b.workspaces, b.windows),
        drawn_windows(stacked, a.workspaces, a.windows),
        drawn_windows(stacked, b.workspaces, b.windows),
    );
}

proof fn lemma_words_at(list: Seq<u64>, k: int) -> (r: (Seq<u8>, Seq<u8>))
    requires
        0 <= k < list.len(),
    ensures
        forall|v: u64| #[trigger] words(list.update(k, v)) == r.0 + word(v) + r.1,
    decreases list.len(),
{
    let rest = list.drop_first();
    if k == 0 {
        let r = (Seq::<u8>::empty(), words(rest));
        assert forall|v: u64| #[trigger] words(list.update(k, v)) == r.0 + word(v) + r.1 by {
            assert(list.update(k, v).drop_first() =~= rest);
            assert(words(list.update(k, v)) =~= r.0 + word(v) + r.1);
        }
        r
    } else {
        let (before, after) = lemma_words_at(rest, k - 1);
        let r = (word(list[0]) + before, after);
        assert forall|v: u64| #[trigger] words(list.update(k, v)) == r.0 + word(v) + r.1 by {
            assert(list.update(k, v).drop_first() =~= rest.update(k - 1, v));
            assert(words(list.update(k, v)) == word(list[0]) + words(rest.update(k - 1, v)));
            assert(words(list.update(k, v)) =~= r.0 + word(v) + r.1);
        }
        r
    }
}

proof fn lemma_listing_at<T>(items: Seq<T>, f: spec_fn(T) -> Seq<u8>, k: int) -> (r: (
    Seq<u8>,
    Seq<u8>,
))
    requires
        0 <= k < items.len(),
    ensures
        forall|x: T| #[trigger] listing(items.update(k, x), f) == r.0 + f(x) + r.1,
    decreases items.len(),
{
    let rest = items.drop_first();
    if k == 0 {
        let r = (word(1), listing(rest, f));
        assert forall|x: T| #[trigger] listing(items.update(k, x), f) == r.0 + f(x) + r.1 by {
            assert(items.update(k, x).drop_first() =~= rest);
        }
        r
    } else {
        let (before, after) = lemma_listing_at(rest, f, k - 1);
        let r = (word(1) + f(items[0]) + before, after);
        assert forall|x: T| #[trigger] listing(items.update(k, x), f) == r.0 + f(x) + r.1 by {
            assert(items.update(k, x).drop_first() =~= rest.update(k - 1, x));
            assert(listing(items.update(k, x), f) == word(1) + f(items[0]) + listing(
                rest.update(k - 1, x),
                f,
            ));
            assert(listing(items.update(k, x), f) =~= r.0 + f(x) + r.1);
        }
        r
    }
}

/// The window at a position in the view.
pub open spec fn shown_at<S>(w: Window<S>, p: (S, S)) -> Window<S> {
    Window {
        layout: WindowLayout { tile_pos_in_workspace_view: Some(p), ..w.layout },
        ..w
    }
}

proof fn lemma_small_word(v: u64)
    requires
        v <= 0xff,
    ensures
        word(v) == seq![v as u8, 0, 0, 0, 0, 0, 0, 0],
{
    assert((v & 0xff) as u8 == v as u8) by (bit_vector)
        requires
            v <= 0xff,
    ;
    assert((v >> 8) == 0 && (v >> 16) == 0 && (v >> 24) == 0 && (v >> 32) == 0 && (v >> 40) == 0
        && (v >> 48) == 0 && (v >> 56) == 0) by (bit_vector)
        requires
            v <= 0xff,
    ;
    assert(0u64 & 0xff == 0) by (bit_vector);
    assert(word(v) =~= seq![v as u8, 0, 0, 0, 0, 0, 0, 0]);
}

proof fn lemma_shown_bytes<S: Scalar>(w: Window<S>, p: (S, S)) -> (r: (Seq<u8>, Seq<u8>))
    requires
        w.layout.tile_pos_in_workspace_view is None,
        p.0.spec_bits() == 0,
        p.1.spec_bits() == 0,
    ensures
        window_bytes(w) == r.0.push(0) + r.1,
        window_bytes(shown_at(w, p)) == r.0.push(1) + r.1,
{
    let list = window_words(w);
    let (before, after) = lemma_words_at(list, 12);
    assert(list.update(12, 0) =~= list);
    assert(list.update(12, 1) =~= window_words(shown_at(w, p)));
    let zeros = seq![0u8, 0u8, 0u8, 0u8, 0u8, 0u8, 0u8];
    lemma_small_word(0);
    lemma_small_word(1);
    assert(word(0) =~= seq![0u8] + zeros);
    assert(word(1) =~= seq![1u8] + zeros);
    let name = optional_text(text_of_option(w.app_id));
    let r = (name + before, zeros + after);
    assert(window_bytes(w) =~= r.0.push(0) + r.1);
    assert(window_bytes(shown_at(w, p)) =~= r.0.push(1) + r.1);
    r
}

proof fn lemma_same_listed<S>(
    workspaces: Seq<Workspace>,
    windows: Seq<Window<S>>,
    i: int,
    v: Window<S>,
)
    requires
        0 <= i < windows.len(),
        v.workspace_id == windows[i].workspace_id,
    ensures
        crate::layout::listed(workspaces, windows.update(i, v)) == crate::layout::listed(
            workspaces,
            windows,
        ),
{
    let changed = windows.update(i, v);
    assert forall|ws: Workspace|
        crate::layout::is_listed(ws, windows) == crate::layout::is_listed(ws, changed) by {
        if !ws.is_active && !ws.is_focused {
            if crate::layout::is_listed(ws, windows) {
                let j = choose|j: int|
                    0 <= j < windows.len() && (#[trigger] windows[j]).workspace_id == Some(ws.id);
                assert(changed[j].workspace_id == Some(ws.id));
            }
            if crate::layout::is_listed(ws, changed) {
                let j = choose|j: int|
                    0 <= j < changed.len() && (#[trigger] changed[j]).workspace_id == Some(ws.id);
                assert(windows[j].workspace_id == Some(ws.id));
            }
        }
    }
    assert((|ws: Workspace| crate::layout::is_listed(ws, windows)) =~= (|ws: Workspace|
        crate::layout::is_listed(ws, changed)));
}

/// Whether a window is among those that are drawn.
pub open spec fn can_be_drawn<S: Wide>(c: Content<S>, w: Window<S>) -> bool {
    c.cfg.spec_is_stacked() || (crate::layout::first_focused(c.workspaces) matches Some(ws)
        && w.workspace_id == Some(ws.id))
}

proof fn lemma_drawn_instead<S: Wide>(c: Content<S>, i: int, v: Window<S>) -> (k: int)
    requires
        0 <= i < c.windows.len(),
        can_be_drawn(c, c.windows[i]),
        v.id == c.windows[i].id,
        v.workspace_id == c.windows[i].workspace_id,
    ensures
        ({
            let stacked = c.cfg.spec_is_stacked();
            let list = drawn_windows(stacked, c.workspaces, c.windows);
            &&& 0 <= k < list.len()
            &&& list[k] == c.windows[i]
            &&& drawn_windows(stacked, c.workspaces, c.windows.update(i, v)) == list.update(k, v)
        }),
{
    let on = |w: Window<S>|
        w.workspace_id == Some(crate::layout::first_focused(c.workspaces)->0.id);
    assert(crate::order::stands_for::<Window<S>, ById>(c.windows[i], v));
    if c.cfg.spec_is_stacked() {
        crate::order::lemma_sorted_instead::<Window<S>, ById>(c.windows, i, v)
    } else {
        let j = crate::order::lemma_filter_instead(c.windows, i, v, on);
        crate::order::lemma_sorted_instead::<Window<S>, ById>(c.windows.filter(on), j, v)
    }
}

/// The bytes before and after those of a window that is drawn, whatever the
/// window.
#[verifier::rlimit(40)]
proof fn lemma_content_at<S: Wide>(c: Content<S>, i: int, v: Window<S>) -> (r: (Seq<u8>, Seq<u8>))
    requires
        0 <= i < c.windows.len(),
        can_be_drawn(c, c.windows[i]),
        v.id == c.windows[i].id,
        v.workspace_id == c.windows[i].workspace_id,
    ensures
        content_bytes(c) == r.0 + window_bytes(c.windows[i]) + r.1,
        content_bytes((Content { windows: c.windows.update(i, v), ..c })) == r.0 + window_bytes(v)
            + r.1,
{
    let w = c.windows[i];
    let after = Content { windows: c.windows.update(i, v), ..c };
    let stacked = c.cfg.spec_is_stacked();
    let f = |w: Window<S>| window_bytes(w);
    let list = drawn_windows(stacked, c.workspaces, c.windows);
    let k = lemma_drawn_instead(c, i, v);
    lemma_same_listed(c.workspaces, c.windows, i, v);
    let (first, last) = lemma_listing_at(list, f, k);
    assert(list.update(k, w) =~= list);
    assert(listing(list.update(k, w), f) == first + f(w) + last);
    assert(listing(list.update(k, v), f) == first + f(v) + last);
    let head = config_bytes(c.cfg) + surface_bytes(c) + (listing(
        crate::order::sorted::<Output, ByName>(c.outputs),
        |o: Output| output_bytes(o),
    ) + listing(
        drawn_workspaces(stacked, c.workspaces, c.windows),
        |ws: Workspace| workspace_bytes(ws),
    ));
    assert(content_bytes(c) =~= head + listing(list, f));
    assert(content_bytes(after) =~= head + listing(list.update(k, v), f));
    let r = (head + first, last);
    assert(content_bytes(c) =~= r.0 + window_bytes(w) + r.1);
    assert(content_bytes(after) =~= r.0 + window_bytes(v) + r.1);
    r
}

proof fn lemma_byte_within(
    start: u64,
    first: Seq<u8>,
    left: Seq<u8>,
    a: u8,
    b: u8,
    right: Seq<u8>,
    last: Seq<u8>,
)
    requires
        a != b,
    ensures
        digest(start, first + (left.push(a) + right) + last) != digest(
            start,
            first + (left.push(b) + right) + last,
        ),
{
    let before = first + left;
    assert(first + (left.push(a) + right) + last =~= before.push(a) + (right + last));
    assert(first + (left.push(b) + right) + last =~= before.push(b) + (right + last));
    one_byte_changes_the_signature(start, before, a, b, right + last);
}

/// A window that comes into view changes the signature, also at a position whose
/// numbers have no bits set, such as the origin.
pub proof fn windows_that_come_into_view_change_the_signature<S: Wide>(
    c: Content<S>,
    i: int,
    p: (S, S),
)
    requires
        0 <= i < c.windows.len(),
        c.windows[i].layout.tile_pos_in_workspace_view is None,
        can_be_drawn(c, c.windows[i]),
        p.0.spec_bits() == 0,
        p.1.spec_bits() == 0,
    ensures
        digest(OFFSET, content_bytes(c)) != digest(
            OFFSET,
            content_bytes(
                (Content { windows: c.windows.update(i, shown_at(c.windows[i], p)), ..c }),
            ),
        ),
{
    let v = shown_at(c.windows[i], p);
    let (first, last) = lemma_content_at(c, i, v);
    let (left, right) = lemma_shown_bytes(c.windows[i], p);
    lemma_byte_within(OFFSET, first, left, 0, 1, right, last);
}

proof fn lemma_first_focused(workspaces: Seq<Workspace>)
    ensures
        match crate::layout::first_focused(workspaces) {
            Some(ws) => workspaces.contains(ws) && ws.is_focused,
            None => forall|i: int|
                0 <= i < workspaces.len() ==> !(#[trigger] workspaces[i]).is_focused,
        },
    decreases workspaces.len(),
{
    if workspaces.len() > 0 {
        lemma_first_focused(workspaces.drop_first());
        if workspaces[0].is_focused {
            assert(workspaces.contains(workspaces[0]));
        } else {
            let rest = workspaces.drop_first();
            assert forall|i: int| 0 < i < workspaces.len() implies #[trigger] workspaces[i]
                == rest[i - 1] by {}
            if let Some(ws) = crate::layout::first_focused(workspaces) {
                let i = choose|i: int| 0 <= i < rest.len() && rest[i] == ws;
                assert(workspaces[i + 1] == ws);
            }
        }
    }
}

proof fn lemma_same_focused(a: Seq<Workspace>, b: Seq<Workspace>)
    requires
        a.to_multiset() == b.to_multiset(),
        forall|i: int, j: int|
            0 <= i < a.len() && 0 <= j < a.len() && (#[trigger] a[i]).is_focused && (
            #[trigger] a[j]).is_focused ==> i == j,
    ensures
        crate::layout::first_focused(a) == crate::layout::first_focused(b),
{
    broadcast use vstd::seq_lib::group_to_multiset_ensures;

    lemma_first_focused(a);
    lemma_first_focused(b);
    if let Some(x) = crate::layout::first_focused(a) {
        assert(b.to_multiset().contains(x));
        assert(b.contains(x));
    }
    if let Some(y) = crate::layout::first_focused(b) {
        assert(a.to_multiset().contains(y));
        assert(a.contains(y));
    }
}

/// The content does not depend on the order in which workspaces, windows and
/// outputs are reported: ids and names tell them apart, and, where only the
/// focused workspace is drawn, at most one has the focus.
pub proof fn content_ignores_report_order<S: Scalar>(
    stacked: bool,
    workspaces: Seq<Workspace>,
    shuffled_workspaces: Seq<Workspace>,
    windows: Seq<Window<S>>,
    shuffled_windows: Seq<Window<S>>,
    outputs: Seq<Output>,
    shuffled_outputs: Seq<Output>,
)
    requires
        workspaces.to_multiset() == shuffled_workspaces.to_multiset(),
        windows.to_multiset() == shuffled_windows.to_multiset(),
        outputs.to_multiset() == shuffled_outputs.to_multiset(),
        forall|i: int, j: int|
            0 <= i < workspaces.len() && 0 <= j < workspaces.len() && i != j ==> (
            #[trigger] workspaces[i]).id != (#[trigger] workspaces[j]).id,
        stacked || forall|i: int, j: int|
            0 <= i < workspaces.len() && 0 <= j < workspaces.len() && (
            #[trigger] workspaces[i]).is_focused && (#[trigger] workspaces[j]).is_focused ==> i
                == j,
        forall|i: int, j: int|
            0 <= i < windows.len() && 0 <= j < windows.len() && i != j ==> (
            #[trigger] windows[i]).id != (#[trigger] windows[j]).id,
        forall|i: int, j: int|
            0 <= i < outputs.len() && 0 <= j < outputs.len() && i != j ==> (
            #[trigger] outputs[i]).name@ != (#[trigger] outputs[j]).name@,
    ensures
        state_bytes(stacked, workspaces, windows, outputs) == state_bytes(
            stacked,
            shuffled_workspaces,
            shuffled_windows,
            shuffled_outputs,
        ),
{
    broadcast use vstd::seq_lib::group_to_multiset_ensures;

    assert forall|v: Output, w: Output|
        outputs.contains(v) && outputs.contains(w) && #[trigger] ByName::le(v, w)
            && #[trigger] ByName::le(w, v) implies v == w by {
        crate::order::bytes_le_antisymmetric(name_bytes(v), name_bytes(w));
        vstd::utf8::encode_utf8_decode_utf8(v.name@);
        vstd::utf8::encode_utf8_decode_utf8(w.name@);
        let i = choose|i: int| 0 <= i < outputs.len() && outputs[i] == v;
        let j = choose|j: int| 0 <= j < outputs.len() && outputs[j] == w;
        assert(outputs[i].name@ == outputs[j].name@);
    }
    lemma_same_sorted::<Output, ByName>(outputs, shuffled_outputs);
    assert forall|v: Workspace, w: Workspace|
        workspaces.contains(v) && workspaces.contains(w) && #[trigger] ByOutput::le(v, w)
            && #[trigger] ByOutput::le(w, v) implies v == w by {
        let i = choose|i: int| 0 <= i < workspaces.len() && workspaces[i] == v;
        let j = choose|j: int| 0 <= j < workspaces.len() && workspaces[j] == w;
        assert(workspaces[i].id == workspaces[j].id);
    }
    lemma_same_sorted::<Workspace, ByOutput>(workspaces, shuffled_workspaces);
    if !stacked {
        lemma_same_focused(workspaces, shuffled_workspaces);
    }
    assert forall|ws: Workspace|
        crate::layout::is_listed(ws, windows) == crate::layout::is_listed(
            ws,
            shuffled_windows,
        ) by {
        if crate::layout::is_listed(ws, windows) {
            lemma_listed_either_way(ws, windows, shuffled_windows);
        }
        if crate::layout::is_listed(ws, shuffled_windows) {
            lemma_listed_either_way(ws, shuffled_windows, windows);
        }
    }
    assert((|ws: Workspace| crate::layout::is_listed(ws, windows)) =~= (|ws: Workspace|
        crate::layout::is_listed(ws, shuffled_windows)));
    let pred = |w: Window<S>|
        w.workspace_id == Some(crate::layout::first_focused(workspaces)->0.id);
    crate::order::lemma_filter_items(windows, pred);
    crate::order::lemma_filter_items(shuffled_windows, pred);
    let (a, b) = if stacked {
        (windows, shuffled_windows)
    } else {
        (windows.filter(pred), shuffled_windows.filter(pred))
    };
    assert forall|v: Window<S>, w: Window<S>|
        a.contains(v) && a.contains(w) && #[trigger] <ById as Order<Window<S>>>::le(v, w)
            && #[trigger] <ById as Order<Window<S>>>::le(w, v) implies v == w by {
        if !stacked {
            windows.lemma_filter_contains_rev(pred, v);
            windows.lemma_filter_contains_rev(pred, w);
        }
        let i = choose|i: int| 0 <= i < windows.len() && windows[i] == v;
        let j = choose|j: int| 0 <= j < windows.len() && windows[j] == w;
        assert(windows[i].id == windows[j].id);
    }
    lemma_same_sorted::<Window<S>, ById>(a, b);
}

proof fn lemma_listed_either_way<S>(ws: Workspace, a: Seq<Window<S>>, b: Seq<Window<S>>)
    requires
        a.to_multiset() == b.to_multiset(),
        crate::layout::is_listed(ws, a),
    ensures
        crate::layout::is_listed(ws, b),
{
    broadcast use vstd::seq_lib::group_to_multiset_ensures;

    if !ws.is_active && !ws.is_focused {
        let i = choose|i: int|
            0 <= i < a.len() && (#[trigger] a[i]).workspace_id == Some(ws.id);
        assert(a.contains(a[i]));
        assert(b.to_multiset().contains(a[i]));
        assert(b.contains(a[i]));
    }
}

proof fn lemma_same_sorted<T, O: Order<T>>(a: Seq<T>, b: Seq<T>)
    requires
        a.to_multiset() == b.to_multiset(),
        forall|x: T, y: T|
            a.contains(x) && a.contains(y) && #[trigger] O::le(x, y) && #[trigger] O::le(y, x)
                ==> x == y,
    ensures
        crate::order::sorted::<T, O>(a) == crate::order::sorted::<T, O>(b),
{
    broadcast use vstd::seq_lib::group_to_multiset_ensures;

    crate::order::sorting_sorts::<T, O>(a);
    crate::order::sorting_sorts::<T, O>(b);
    let s = crate::order::sorted::<T, O>(a);
    assert forall|x: T, y: T|
        s.contains(x) && s.contains(y) && #[trigger] O::le(x, y) && #[trigger] O::le(
            y,
            x,
        ) implies x == y by {
        assert(s.to_multiset().contains(x) && s.to_multiset().contains(y));
        assert(a.contains(x) && a.contains(y));
    }
    crate::order::order_is_unique::<T, O>(s, crate::order::sorted::<T, O>(b));
}

/// Where only the focused workspace is drawn, what happens to the windows of
/// other workspaces does not touch the content.
pub proof fn other_workspaces_do_not_matter<S: Scalar>(
    workspaces: Seq<Workspace>,
    other_workspaces: Seq<Workspace>,
    windows: Seq<Window<S>>,
    other_windows: Seq<Window<S>>,
    outputs: Seq<Output>,
)
    requires
        crate::layout::first_focused(workspaces) == crate::layout::first_focused(other_workspaces),
        crate::layout::first_focused(workspaces) matches Some(ws) ==> windows.filter(
            |w: Window<S>| w.workspace_id == Some(ws.id),
        ) == other_windows.filter(|w: Window<S>| w.workspace_id == Some(ws.id)),
    ensures
        state_bytes(false, workspaces, windows, outputs) == state_bytes(
            false,
            other_workspaces,
            other_windows,
            outputs,
        ),
{
}

} // verus!
