//! Desktop icons: how they are found, and a cache that finds each one once.

use vstd::prelude::*;
use crate::paths::{file_name, name_of, split_name, stem_and_extension};
use crate::pixmap::{decode_png, decoded_png, dimensions, height, pixels, width};
use crate::scalar::{clamp, clamped, fraction, ratio, Scalar};
use crate::seqs::{text_of_option, texts};
use crate::text::{chars_of, is_text};
use tiny_skia::Pixmap;
use vstd::hash_map::StringHashMap;

verus! {

/// The icons found so far. What was looked for in vain is kept too.
pub struct IconCache {
    cache: StringHashMap<Option<Pixmap>>,
}

impl IconCache {
    /// What is known of each application: its icon, or that it has none.
    pub closed spec fn known(self) -> Map<Seq<char>, Option<Pixmap>> {
        self.cache@
    }

    /// Whether the application has an icon.
    pub open spec fn has(self, app_id: Seq<char>) -> bool {
        self.known().contains_key(app_id) && self.known()[app_id] is Some
    }
}

impl IconCache {
    /// Whether the icon of the application was looked for.
    pub fn knows(&self, app_id: &str) -> (r: bool)
        ensures
            r == self.known().contains_key(app_id@),
    {
        self.cache.contains_key(app_id)
    }

    /// The icon of the application, as far as it was looked for.
    pub fn get(&self, app_id: &str) -> (r: Option<&Pixmap>)
        ensures
            match r {
                Some(icon) => self.has(app_id@) && self.known()[app_id@] == Some(*icon),
                None => !self.has(app_id@),
            },
    {
        match self.cache.get(app_id) {
            Some(icon) => icon.as_ref(),
            None => None,
        }
    }
}

impl Default for IconCache {
    fn default() -> (r: Self)
        ensures
            r.known() == Map::<Seq<char>, Option<Pixmap>>::empty(),
    {
        IconCache { cache: StringHashMap::new() }
    }
}

impl IconCache {
    /// Gives an application an icon.
    pub fn insert(&mut self, app_id: &str, icon: Pixmap)
        ensures
            final(self).known() == old(self).known().insert(app_id@, Some(icon)),
    {
        self.cache.insert(app_id.to_owned(), Some(icon));
    }

    /// Looks for the icon of an application, unless that was done before. What
    /// was looked for in vain is kept too, so each application is looked for once
    /// at most.
    pub fn resolve_into<L: Fn(&str) -> Option<Pixmap>>(&mut self, app_id: &str, look_up: &L)
        requires
            forall|id: &str| #[trigger] look_up.requires((id,)),
        ensures
            looked_for(*old(self), set![app_id@], *look_up, *final(self)),
    {
        if !self.cache.contains_key(app_id) {
            let icon = look_up(app_id);
            self.cache.insert(app_id.to_owned(), icon);
            assert(was_found(*look_up, app_id@, icon));
        }
        assert(self.known().dom() =~= old(self).known().dom().union(set![app_id@]));
    }
}

/// Whether an icon, or that there is none, is what looking for an application
/// can give.
pub open spec fn was_found<L: Fn(&str) -> Option<Pixmap>>(
    look_up: L,
    app_id: Seq<char>,
    icon: Option<Pixmap>,
) -> bool {
    exists|id: &str| id@ == app_id && #[trigger] look_up.ensures((id,), icon)
}

/// What looking for some applications does to the cache: each that is not known
/// is looked for, and known from then on. All else stays, and where every one is
/// known, nothing is done at all.
pub open spec fn looked_for<L: Fn(&str) -> Option<Pixmap>>(
    before: IconCache,
    asked: Set<Seq<char>>,
    look_up: L,
    after: IconCache,
) -> bool {
    &&& after.known().dom() == before.known().dom().union(asked)
    &&& forall|id: Seq<char>|
        before.known().contains_key(id) ==> #[trigger] after.known()[id] == before.known()[id]
    &&& forall|id: Seq<char>|
        after.known().contains_key(id) && !before.known().contains_key(id) ==> was_found(
            look_up,
            id,
            #[trigger] after.known()[id],
        )
    &&& asked.subset_of(before.known().dom()) ==> after == before
}

/// Where nothing is asked for, nothing is done.
pub proof fn lemma_nothing_asked<L: Fn(&str) -> Option<Pixmap>>(icons: IconCache, look_up: L)
    ensures
        looked_for(icons, Set::empty(), look_up, icons),
{
    assert(icons.known().dom() =~= icons.known().dom().union(Set::empty()));
}

/// Looking for some applications and then for others is looking for all of them.
pub proof fn lemma_asked_in_turn<L: Fn(&str) -> Option<Pixmap>>(
    before: IconCache,
    first: Set<Seq<char>>,
    between: IconCache,
    second: Set<Seq<char>>,
    look_up: L,
    after: IconCache,
)
    requires
        looked_for(before, first, look_up, between),
        looked_for(between, second, look_up, after),
    ensures
        looked_for(before, first.union(second), look_up, after),
        second.subset_of(first) ==> after == between,
{
    assert(after.known().dom() =~= before.known().dom().union(first.union(second)));
    assert forall|id: Seq<char>| before.known().contains_key(id) implies (
    #[trigger] after.known()[id]) == before.known()[id] by {
        assert(between.known().contains_key(id));
        assert(between.known()[id] == before.known()[id]);
    }
    assert forall|id: Seq<char>|
        after.known().contains_key(id) && !before.known().contains_key(id) implies was_found(
        look_up,
        id,
        #[trigger] after.known()[id],
    ) by {
        if between.known().contains_key(id) {
            assert(after.known()[id] == between.known()[id]);
        }
    }
    if first.union(second).subset_of(before.known().dom()) {
        assert(first.subset_of(before.known().dom()));
        assert(second.subset_of(between.known().dom()));
    }
}

/// Whether the application has an icon. It is looked for on first use.
pub fn has_icon<L: Fn(&str) -> Option<Pixmap>>(
    icons: &mut IconCache,
    app_id: &str,
    look_up: &L,
) -> (r: bool)
    requires
        forall|id: &str| #[trigger] look_up.requires((id,)),
    ensures
        looked_for(*old(icons), set![app_id@], *look_up, *final(icons)),
        r == final(icons).has(app_id@),
{
    icons.resolve_into(app_id, look_up);
    icons.get(app_id).is_some()
}

/// Hands the icon of an application to `f`. It is looked for on first use.
pub fn with_icon<R, L: Fn(&str) -> Option<Pixmap>, F: FnOnce(Option<&Pixmap>) -> R>(
    icons: &mut IconCache,
    app_id: &str,
    look_up: &L,
    f: F,
) -> (r: R)
    requires
        forall|id: &str| #[trigger] look_up.requires((id,)),
        forall|icon: Option<&Pixmap>| #[trigger] f.requires((icon,)),
    ensures
        looked_for(*old(icons), set![app_id@], *look_up, *final(icons)),
        exists|icon: Option<&Pixmap>| #[trigger]
            f.ensures((icon,), r) && match icon {
                Some(p) => final(icons).has(app_id@) && final(icons).known()[app_id@] == Some(*p),
                None => !final(icons).has(app_id@),
            },
{
    icons.resolve_into(app_id, look_up);
    f(icons.get(app_id))
}

/// Each application is looked for once at most: what is known of it never
/// changes, whatever is asked for later.
pub proof fn each_application_is_looked_for_once<L: Fn(&str) -> Option<Pixmap>>(
    before: IconCache,
    asked: Set<Seq<char>>,
    look_up: L,
    after: IconCache,
    app_id: Seq<char>,
)
    requires
        looked_for(before, asked, look_up, after),
        before.known().contains_key(app_id),
    ensures
        after.known().contains_key(app_id),
        after.known()[app_id] == before.known()[app_id],
        looked_for(before, set![app_id], look_up, before),
{
    assert(before.known().dom() =~= before.known().dom().union(set![app_id]));
    assert(before.known().dom().contains(app_id));
    assert(after.known().dom().contains(app_id));
}

/// The names that an icon is looked for by: the one that the desktop entry of
/// the application gives, and the application itself.
pub open spec fn icon_names(app_id: Seq<char>, entry: Option<Seq<char>>) -> Seq<Seq<char>> {
    match entry {
        Some(name) => seq![name, app_id],
        None => seq![app_id],
    }
}

/// Whether `r` is what `load` gave for the first of some names for which it gave
/// anything.
pub open spec fn is_first_icon<F: Fn(&String) -> Option<Pixmap>>(
    names: Seq<String>,
    load: F,
    r: Option<Pixmap>,
) -> bool {
    match r {
        Some(icon) => exists|i: int|
            {
                &&& 0 <= i < names.len()
                &&& load.ensures((&#[trigger] names[i],), Some(icon))
                &&& forall|j: int| 0 <= j < i ==> load.ensures((&#[trigger] names[j],), None)
            },
        None => forall|j: int| 0 <= j < names.len() ==> load.ensures((&#[trigger] names[j],), None),
    }
}

/// Finds the icon of an application, given the icon that its desktop entry
/// names: the first that can be loaded.
pub fn resolve_icon<F: Fn(&String) -> Option<Pixmap>>(
    app_id: &str,
    entry: Option<String>,
    load: F,
) -> (r: Option<Pixmap>)
    requires
        forall|name: &String| #[trigger] load.requires((name,)),
    ensures
        exists|names: Seq<String>|
            texts(names) == icon_names(app_id@, text_of_option(entry)) && #[trigger] is_first_icon(
                names,
                load,
                r,
            ),
{
    let mut names: Vec<String> = Vec::new();
    if let Some(name) = entry {
        names.push(name);
    }
    names.push(app_id.to_owned());
    assert(texts(names@) =~= icon_names(app_id@, text_of_option(entry)));
    let mut i: usize = 0;
    while i < names.len()
        invariant
            i <= names@.len(),
            forall|name: &String| #[trigger] load.requires((name,)),
            forall|j: int| 0 <= j < i ==> load.ensures((&#[trigger] names@[j],), None),
            texts(names@) == icon_names(app_id@, text_of_option(entry)),
        decreases names@.len() - i,
    {
        if let Some(icon) = load(&names[i]) {
            assert(is_first_icon(names@, load, Some(icon)));
            return Some(icon);
        }
        i = i + 1;
    }
    assert(is_first_icon(names@, load, None));
    None
}

/// What the file of an icon holds.
#[derive(Clone, Copy, Debug, PartialEq, Eq, Structural)]
pub enum IconKind {
    Png,
    Svg,
    Other,
}

/// What a file holds, by its extension.
pub open spec fn kind_of(path: Seq<char>) -> IconKind {
    let extension = match file_name(path) {
        Some(name) => stem_and_extension(name).1,
        None => None,
    };
    if extension == Some("png"@) {
        IconKind::Png
    } else if extension == Some("svg"@) {
        IconKind::Svg
    } else {
        IconKind::Other
    }
}

/// What a file holds, by its extension.
pub fn icon_kind(path: &str) -> (r: IconKind)
    ensures
        r == kind_of(path@),
{
    proof {
        reveal_strlit("png");
        reveal_strlit("svg");
    }
    let chars = chars_of(path);
    match name_of(chars.as_slice()) {
        Some(name) => match split_name(name).1 {
            Some(extension) => if is_text(extension, "png") {
                IconKind::Png
            } else if is_text(extension, "svg") {
                IconKind::Svg
            } else {
                IconKind::Other
            },
            None => IconKind::Other,
        },
        None => IconKind::Other,
    }
}

/// The greatest side of an icon that is kept. Icons are never drawn larger, and
/// some themes ship large artwork.
pub const MAX_SIDE: u32 = 128;

/// How an icon is made smaller: scaled by `k` into an image of this size.
pub struct Shrink<N> {
    pub k: N,
    pub w: u32,
    pub h: u32,
}

/// How an icon of this size is made smaller; nothing, where it is small enough.
pub open spec fn shrunk<N: Scalar>(size: (u32, u32)) -> Option<Shrink<N>> {
    let (w, h) = size;
    let one = N::spec_from_u64(1);
    let k = N::spec_from_u64(MAX_SIDE as u64).spec_over(
        N::spec_from_u64(
            if w >= h {
                w as u64
            } else {
                h as u64
            },
        ),
    ).spec_lesser(one);
    if w <= MAX_SIDE && h <= MAX_SIDE {
        None
    } else {
        Some(
            Shrink {
                k,
                w: N::spec_from_u64(w as u64).spec_times(k).spec_round().spec_greater(
                    one,
                ).spec_to_u32(),
                h: N::spec_from_u64(h as u64).spec_times(k).spec_round().spec_greater(
                    one,
                ).spec_to_u32(),
            },
        )
    }
}

/// Makes an icon smaller, where it is too large: `shrink` scales it.
pub fn cap_size<N: Scalar, F: FnOnce(Pixmap, Shrink<N>) -> Option<Pixmap>>(
    icon: Pixmap,
    shrink: F,
) -> (r: Option<Pixmap>)
    requires
        forall|p: Pixmap, s: Shrink<N>| #[trigger] shrink.requires((p, s)),
    ensures
        match shrunk::<N>(dimensions(icon)) {
            Some(s) => shrink.ensures((icon, s), r),
            None => r == Some(icon),
        },
{
    let w: u32 = width(&icon);
    let h: u32 = height(&icon);
    if w <= MAX_SIDE && h <= MAX_SIDE {
        return Some(icon);
    }
    let one = N::from_u64(1);
    let longer: u32 = if w >= h {
        w
    } else {
        h
    };
    let k = N::from_u64(MAX_SIDE as u64).over(N::from_u64(longer as u64)).lesser(one);
    let nw: u32 = N::from_u64(w as u64).times(k).round().greater(one).to_u32();
    let nh: u32 = N::from_u64(h as u64).times(k).round().greater(one).to_u32();
    shrink(icon, Shrink { k, w: nw, h: nh })
}

/// How an SVG icon is drawn: scaled by `sx` and `sy` into an image of this size.
pub struct Canvas<N> {
    pub w: u32,
    pub h: u32,
    pub sx: N,
    pub sy: N,
}

/// A side of the image of an SVG icon: whole pixels, within what is kept.
pub open spec fn canvas_side<N: Scalar>(side: N) -> u32 {
    let max = N::spec_from_u64(MAX_SIDE as u64);
    clamped(side.spec_lesser(max).spec_ceil(), N::spec_from_u64(1), max).spec_to_u32()
}

/// How an SVG icon of this size is drawn; nothing, where it has no area.
pub open spec fn canvas<N: Scalar>(width: N, height: N) -> Option<Canvas<N>> {
    let zero = N::spec_from_u64(0);
    let w = canvas_side(width);
    let h = canvas_side(height);
    if width.spec_up_to(zero) || height.spec_up_to(zero) {
        None
    } else {
        Some(
            Canvas {
                w,
                h,
                sx: N::spec_from_u64(w as u64).spec_over(width),
                sy: N::spec_from_u64(h as u64).spec_over(height),
            },
        )
    }
}

/// How an SVG icon of this size is drawn.
pub fn svg_canvas<N: Scalar>(width: N, height: N) -> (r: Option<Canvas<N>>)
    ensures
        r == canvas(width, height),
{
    let zero = N::from_u64(0);
    if width.up_to(zero) || height.up_to(zero) {
        return None;
    }
    let one = N::from_u64(1);
    let max = N::from_u64(MAX_SIDE as u64);
    let w: u32 = clamp(width.lesser(max).ceil(), one, max).to_u32();
    let h: u32 = clamp(height.lesser(max).ceil(), one, max).to_u32();
    Some(
        Canvas {
            w,
            h,
            sx: N::from_u64(w as u64).over(width),
            sy: N::from_u64(h as u64).over(height),
        },
    )
}

/// Decodes the file of an icon, given its bytes: PNG images are made smaller by
/// `shrink` where they are too large, SVG images are drawn by `draw_svg`. Other
/// files are no icons.
pub fn decode_icon<
    N: Scalar,
    K: FnOnce(Pixmap, Shrink<N>) -> Option<Pixmap>,
    V: FnOnce(&[u8]) -> Option<Pixmap>,
>(path: &str, data: &[u8], shrink: K, draw_svg: V) -> (r: Option<Pixmap>)
    requires
        forall|p: Pixmap, s: Shrink<N>| #[trigger] shrink.requires((p, s)),
        draw_svg.requires((data,)),
    ensures
        match kind_of(path@) {
            IconKind::Png => match decoded_png(data@) {
                Some(image) => exists|icon: Pixmap| #[trigger]
                    dimensions(icon) == image.0 && pixels(icon) == image.1 && match shrunk::<N>(
                        image.0,
                    ) {
                        Some(s) => shrink.ensures((icon, s), r),
                        None => r == Some(icon),
                    },
                None => r is None,
            },
            IconKind::Svg => draw_svg.ensures((data,), r),
            IconKind::Other => r is None,
        },
{
    match icon_kind(path) {
        IconKind::Png => match decode_png(data) {
            Some(icon) => cap_size(icon, shrink),
            None => None,
        },
        IconKind::Svg => draw_svg(data),
        IconKind::Other => None,
    }
}

/// How an icon is drawn: scaled by `zoom`, its corner at `dx`, `dy` (buffer
/// pixels).
pub struct Blit<N> {
    pub zoom: N,
    pub dx: N,
    pub dy: N,
}

/// How an icon of `iw` by `ih` pixels is drawn into a tile: in its middle,
/// within 70% of the shorter side, and never enlarged. `scale` is the scale of
/// the buffer. An icon that would be smaller than a pixel is left out.
pub open spec fn placed_icon<N: Scalar>(
    size: (u32, u32),
    scale: N,
    x: N,
    y: N,
    w: N,
    h: N,
) -> Option<Blit<N>> {
    let zero = N::spec_from_u64(0);
    let one = N::spec_from_u64(1);
    let two = N::spec_from_u64(2);
    let iw = N::spec_from_u64(size.0 as u64);
    let ih = N::spec_from_u64(size.1 as u64);
    let fit = w.spec_lesser(h).spec_times(ratio(7, 10));
    let k = fit.spec_over(iw.spec_greater(ih)).spec_lesser(one);
    let dw = iw.spec_times(k);
    let dh = ih.spec_times(k);
    let dx = x.spec_plus(w.spec_minus(dw).spec_over(two));
    let dy = y.spec_plus(h.spec_minus(dh).spec_over(two));
    if iw.spec_up_to(zero) || ih.spec_up_to(zero) || w.spec_up_to(zero) || h.spec_up_to(zero) {
        None
    } else if dw.spec_below(one) || dh.spec_below(one) {
        None
    } else {
        Some(
            Blit {
                zoom: k.spec_times(scale),
                dx: dx.spec_times(scale),
                dy: dy.spec_times(scale),
            },
        )
    }
}

/// How an icon is drawn into a tile.
pub fn draw_icon<N: Scalar>(icon: &Pixmap, scale: N, x: N, y: N, w: N, h: N) -> (r: Option<Blit<N>>)
    ensures
        r == placed_icon(dimensions(*icon), scale, x, y, w, h),
{
    let zero = N::from_u64(0);
    let one = N::from_u64(1);
    let two = N::from_u64(2);
    let iw = N::from_u64(width(icon) as u64);
    let ih = N::from_u64(height(icon) as u64);
    if iw.up_to(zero) || ih.up_to(zero) || w.up_to(zero) || h.up_to(zero) {
        return None;
    }
    let fit = w.lesser(h).times(fraction(7, 10));
    let k = fit.over(iw.greater(ih)).lesser(one);
    let dw = iw.times(k);
    let dh = ih.times(k);
    if dw.below(one) || dh.below(one) {
        return None;
    }
    let dx = x.plus(w.minus(dw).over(two));
    let dy = y.plus(h.minus(dh).over(two));
    Some(Blit { zoom: k.times(scale), dx: dx.times(scale), dy: dy.times(scale) })
}

} // verus!
