//! How icons are found: what is tried before what, and what the names of
//! directories and the lines of desktop entries say.

use vstd::prelude::*;
use crate::desktop::{data_dirs, entry_dirs, entry_icon, entry_paths, file_keys, given_by, icon_in,
    indexed, is_entry, name_in, user_dirs, with_keys, DesktopFile};
use crate::icons::{icon_names, kind_of, IconKind};
use crate::order::{bytes_le, sorted, sorting_sorts};
use crate::paths::{file_name, joined, last_place, stem_and_extension, without_tail};
use crate::seqs::{first_index, lemma_first_index, texts};
use crate::text::{begins_with, is_blank, lemma_split_once, lowercase, split, trimmed, trimmed_end,
    trimmed_start};
use crate::themes::{base_paths, concat_all, decimal, files_below, files_in, files_in_base,
    files_in_named, files_in_theme, has_name, icon_files, is_absolute, number, search_order,
    side_of, sized_dirs, theme_order, BaseListing, BySide, ByThemeName, DirListing, ThemeListing};

verus! {

/// Whether `a` is tried before `b`.
pub open spec fn precedes(s: Seq<Seq<char>>, a: Seq<char>, b: Seq<char>) -> bool {
    exists|i: int, j: int| 0 <= i < j < s.len() && #[trigger] s[i] == a && #[trigger] s[j] == b
}

proof fn lemma_sum(x: Seq<Seq<char>>, y: Seq<Seq<char>>, a: Seq<char>, b: Seq<char>)
    ensures
        x.contains(a) || y.contains(a) ==> (x + y).contains(a),
        x.contains(a) && y.contains(b) ==> precedes(x + y, a, b),
        precedes(x, a, b) || precedes(y, a, b) ==> precedes(x + y, a, b),
{
    let s = x + y;
    if x.contains(a) {
        let i = choose|i: int| 0 <= i < x.len() && x[i] == a;
        assert(s[i] == a);
        if y.contains(b) {
            let j = choose|j: int| 0 <= j < y.len() && y[j] == b;
            assert(s[x.len() + j] == b);
        }
    }
    if y.contains(a) {
        let i = choose|i: int| 0 <= i < y.len() && y[i] == a;
        assert(s[x.len() + i] == a);
    }
    if precedes(x, a, b) {
        let (i, j) = choose|i: int, j: int|
            0 <= i < j < x.len() && #[trigger] x[i] == a && #[trigger] x[j] == b;
        assert(s[i] == a && s[j] == b);
    }
    if precedes(y, a, b) {
        let (i, j) = choose|i: int, j: int|
            0 <= i < j < y.len() && #[trigger] y[i] == a && #[trigger] y[j] == b;
        assert(s[x.len() + i] == a && s[x.len() + j] == b);
    }
}

/// What is in one of some lists is in all of them together.
proof fn lemma_among(lists: Seq<Seq<Seq<char>>>, p: int, a: Seq<char>)
    requires
        0 <= p < lists.len(),
        lists[p].contains(a),
    ensures
        concat_all(lists).contains(a),
    decreases lists.len(),
{
    lemma_sum(concat_all(lists.drop_last()), lists.last(), a, a);
    if p < lists.len() - 1 {
        lemma_among(lists.drop_last(), p, a);
    }
}

/// What is in an earlier list comes before what is in a later one.
proof fn lemma_across(lists: Seq<Seq<Seq<char>>>, p: int, q: int, a: Seq<char>, b: Seq<char>)
    requires
        0 <= p < q < lists.len(),
        lists[p].contains(a),
        lists[q].contains(b),
    ensures
        precedes(concat_all(lists), a, b),
    decreases lists.len(),
{
    let front = lists.drop_last();
    lemma_sum(concat_all(front), lists.last(), a, b);
    if q < lists.len() - 1 {
        lemma_across(front, p, q, a, b);
    } else {
        lemma_among(front, p, a);
    }
}

/// What comes before something in one of some lists does so in all of them
/// together.
proof fn lemma_within(lists: Seq<Seq<Seq<char>>>, p: int, a: Seq<char>, b: Seq<char>)
    requires
        0 <= p < lists.len(),
        precedes(lists[p], a, b),
    ensures
        precedes(concat_all(lists), a, b),
    decreases lists.len(),
{
    lemma_sum(concat_all(lists.drop_last()), lists.last(), a, b);
    if p < lists.len() - 1 {
        lemma_within(lists.drop_last(), p, a, b);
    }
}

/// In a directory, an icon is tried under its own name before its name in lower
/// case, and as PNG before SVG; nothing else is.
pub proof fn names_come_as_they_are_first(dir: Seq<char>, icon: Seq<char>)
    ensures
        ({
            let files = files_in(dir, icon);
            let own = |extension: Seq<char>| joined(dir, icon + extension);
            let lower = |extension: Seq<char>| joined(dir, lowercase(icon) + extension);
            &&& files.len() == 4
            &&& precedes(files, own(".png"@), own(".svg"@))
            &&& precedes(files, own(".svg"@), lower(".png"@))
            &&& precedes(files, lower(".png"@), lower(".svg"@))
        }),
{
    let files = files_in(dir, icon);
    assert(files[0] == joined(dir, icon + ".png"@));
    assert(files[1] == joined(dir, icon + ".svg"@));
    assert(files[2] == joined(dir, lowercase(icon) + ".png"@));
    assert(files[3] == joined(dir, lowercase(icon) + ".svg"@));
}

/// Every directory in a directory of a theme is looked through, icons of
/// applications first where they are preferred.
pub proof fn icons_of_applications_come_first(
    dir: Seq<char>,
    subdirs: Seq<Seq<char>>,
    icon: Seq<char>,
    prefer_apps: bool,
    x: int,
    y: int,
    f: Seq<char>,
    g: Seq<char>,
)
    requires
        0 <= x < subdirs.len(),
        0 <= y < subdirs.len(),
        files_in(joined(dir, subdirs[x]), icon).contains(f),
        files_in(joined(dir, subdirs[y]), icon).contains(g),
    ensures
        files_below(dir, subdirs, icon, prefer_apps).contains(f),
        prefer_apps && subdirs[x] == "apps"@ && subdirs[y] != "apps"@ ==> precedes(
            files_below(dir, subdirs, icon, prefer_apps),
            f,
            g,
        ),
        !prefer_apps && x < y ==> precedes(files_below(dir, subdirs, icon, prefer_apps), f, g),
{
    let order = search_order(subdirs, prefer_apps);
    let lists = order.map_values(|d: Seq<char>| files_in(joined(dir, d), icon));
    let i = lemma_searched(subdirs, prefer_apps, x);
    let j = lemma_searched(subdirs, prefer_apps, y);
    assert(lists[i] == files_in(joined(dir, subdirs[x]), icon));
    assert(lists[j] == files_in(joined(dir, subdirs[y]), icon));
    lemma_among(lists, i, f);
    if prefer_apps && subdirs[x] == "apps"@ && subdirs[y] != "apps"@ {
        assert(order[0] == "apps"@);
        assert(j > 0);
        assert(lists[0] == files_in(joined(dir, "apps"@), icon));
        lemma_across(lists, 0, j, f, g);
    }
    if !prefer_apps && x < y {
        assert(order == subdirs);
        assert(lists[x] == files_in(joined(dir, subdirs[x]), icon));
        assert(lists[y] == files_in(joined(dir, subdirs[y]), icon));
        lemma_across(lists, x, y, f, g);
    }
}

proof fn lemma_searched(subdirs: Seq<Seq<char>>, prefer_apps: bool, x: int) -> (i: int)
    requires
        0 <= x < subdirs.len(),
    ensures
        0 <= i < search_order(subdirs, prefer_apps).len(),
        search_order(subdirs, prefer_apps)[i] == subdirs[x],
{
    let order = search_order(subdirs, prefer_apps);
    if !prefer_apps {
        x
    } else if subdirs[x] == "apps"@ {
        assert(subdirs.contains("apps"@));
        assert(order[0] == "apps"@);
        0
    } else {
        let pred = |d: Seq<char>| d != "apps"@;
        let rest = subdirs.filter(pred);
        subdirs.lemma_filter_contains(pred, x);
        let m = choose|m: int| 0 <= m < rest.len() && rest[m] == subdirs[x];
        assert(order[order.len() - rest.len() + m] == rest[m]);
        order.len() - rest.len() + m
    }
}

/// The files of an icon in the directories of a directory of a theme.
pub open spec fn files_of(
    theme: Seq<char>,
    d: DirListing,
    icon: Seq<char>,
    prefer_apps: bool,
) -> Seq<Seq<char>> {
    files_below(joined(theme, d.name@), texts(d.subdirs@), icon, prefer_apps)
}

/// In a theme, larger icons are tried before smaller ones, icons of a given size
/// before scalable ones, and those before symbolic ones.
pub proof fn larger_icons_are_tried_first(
    theme: Seq<char>,
    entries: Seq<DirListing>,
    icon: Seq<char>,
    d: int,
    e: int,
    f: Seq<char>,
    g: Seq<char>,
)
    requires
        0 <= d < entries.len(),
        0 <= e < entries.len(),
        forall|i: int, j: int|
            0 <= i < j < entries.len() ==> (#[trigger] entries[i]).name@ != (
            #[trigger] entries[j]).name@,
        files_of(theme, entries[d], icon, entries[d].name@ != "symbolic"@).contains(f),
        files_of(theme, entries[e], icon, entries[e].name@ != "symbolic"@).contains(g),
    ensures
        ({
            let files = files_in_theme(theme, entries, icon);
            let a = entries[d].name@;
            let b = entries[e].name@;
            let scalable = "scalable"@;
            let symbolic = "symbolic"@;
            &&& side_of(a) is Some || a == scalable || a == symbolic ==> files.contains(f)
            &&& side_of(a) is Some && side_of(b) is Some && side_of(a)->0 > side_of(b)->0
                ==> precedes(files, f, g)
            &&& side_of(a) is Some && (b == scalable || b == symbolic) ==> precedes(files, f, g)
            &&& a == scalable && b == symbolic ==> precedes(files, f, g)
        }),
{
    let a = entries[d].name@;
    let b = entries[e].name@;
    let sized = sized_dirs(entries);
    let lists = sized.map_values(
        |d: DirListing| files_below(joined(theme, d.name@), texts(d.subdirs@), icon, true),
    );
    let first = concat_all(lists);
    let second = files_in_named(theme, entries, "scalable"@, icon, true);
    let third = files_in_named(theme, entries, "symbolic"@, icon, false);
    reveal_strlit("scalable");
    reveal_strlit("symbolic");
    assert("scalable"@ != "symbolic"@) by {
        assert("scalable"@[1] == 'c');
        assert("symbolic"@[1] == 'y');
    }
    lemma_split_once("scalable"@, 'x', 8);
    lemma_split_once("symbolic"@, 'x', 8);
    if side_of(a) is Some {
        let p = lemma_sized(entries, d);
        assert(lists[p] == files_of(theme, entries[d], icon, true));
        lemma_among(lists, p, f);
        if side_of(b) is Some {
            let q = lemma_sized(entries, e);
            assert(lists[q] == files_of(theme, entries[e], icon, true));
            if side_of(a)->0 > side_of(b)->0 {
                crate::themes::larger_icons_come_first(entries, least_of(p, q), most_of(p, q));
                lemma_across(lists, p, q, f, g);
            }
        }
    }
    lemma_named(theme, entries, d, icon, "scalable"@, true);
    lemma_named(theme, entries, e, icon, "scalable"@, true);
    lemma_named(theme, entries, d, icon, "symbolic"@, false);
    lemma_named(theme, entries, e, icon, "symbolic"@, false);
    lemma_sum(first, second, f, g);
    lemma_sum(first + second, third, f, g);
    lemma_sum(first, second, g, g);
}

spec fn least_of(p: int, q: int) -> int {
    if p <= q {
        p
    } else {
        q
    }
}

spec fn most_of(p: int, q: int) -> int {
    if p <= q {
        q
    } else {
        p
    }
}

proof fn lemma_sized(entries: Seq<DirListing>, d: int) -> (p: int)
    requires
        0 <= d < entries.len(),
        side_of(entries[d].name@) is Some,
    ensures
        0 <= p < sized_dirs(entries).len(),
        sized_dirs(entries)[p] == entries[d],
{
    broadcast use vstd::seq_lib::group_to_multiset_ensures;

    let pred = |d: DirListing| side_of(d.name@) is Some;
    let kept = entries.filter(pred);
    entries.lemma_filter_contains(pred, d);
    sorting_sorts::<DirListing, BySide>(kept);
    assert(kept.to_multiset().contains(entries[d]));
    assert(sized_dirs(entries).contains(entries[d]));
    choose|p: int| 0 <= p < sized_dirs(entries).len() && sized_dirs(entries)[p] == entries[d]
}

proof fn lemma_named(
    theme: Seq<char>,
    entries: Seq<DirListing>,
    d: int,
    icon: Seq<char>,
    name: Seq<char>,
    prefer_apps: bool,
)
    requires
        0 <= d < entries.len(),
        forall|i: int, j: int|
            0 <= i < j < entries.len() ==> (#[trigger] entries[i]).name@ != (
            #[trigger] entries[j]).name@,
    ensures
        entries[d].name@ == name ==> files_in_named(theme, entries, name, icon, prefer_apps)
            == files_of(theme, entries[d], icon, prefer_apps),
{
    let pred = has_name(name);
    lemma_first_index(entries, pred);
    if entries[d].name@ == name {
        assert(pred(entries[d]));
        let i = first_index(entries, pred)->0;
        assert(pred(entries[i]));
        assert(entries[i].name@ == entries[d].name@);
        assert(i == d);
    }
}

/// In a directory of icons, the theme that every application adds to is tried
/// first, then the others by name, and last the directory itself.
pub proof fn common_themes_come_first(
    base: BaseListing,
    icon: Seq<char>,
    t: int,
    u: int,
    f: Seq<char>,
    g: Seq<char>,
    h: Seq<char>,
)
    requires
        0 <= t < base.themes@.len(),
        0 <= u < base.themes@.len(),
        forall|i: int, j: int|
            0 <= i < j < base.themes@.len() ==> (#[trigger] base.themes@[i]).name@ != (
            #[trigger] base.themes@[j]).name@,
        files_in_theme(
            joined(base.path@, base.themes@[t].name@),
            base.themes@[t].entries@,
            icon,
        ).contains(f),
        files_in_theme(
            joined(base.path@, base.themes@[u].name@),
            base.themes@[u].entries@,
            icon,
        ).contains(g),
        files_in(base.path@, icon).contains(h),
    ensures
        ({
            let files = files_in_base(base, icon);
            let a = base.themes@[t].name@;
            let b = base.themes@[u].name@;
            &&& files.contains(f) && files.contains(h)
            &&& precedes(files, f, h)
            &&& a == "hicolor"@ && b != "hicolor"@ ==> precedes(files, f, g)
            &&& a != "hicolor"@ && b != "hicolor"@ && !bytes_le(
                vstd::utf8::encode_utf8(b),
                vstd::utf8::encode_utf8(a),
            ) ==> precedes(files, f, g)
        }),
{
    let themes = base.themes@;
    let order = theme_order(themes);
    let lists = order.map_values(
        |t: ThemeListing| files_in_theme(joined(base.path@, t.name@), t.entries@, icon),
    );
    let p = lemma_ordered(themes, t);
    let q = lemma_ordered(themes, u);
    assert(lists[p].contains(f));
    assert(lists[q].contains(g));
    lemma_among(lists, p, f);
    lemma_sum(concat_all(lists), files_in(base.path@, icon), f, h);
    lemma_sum(concat_all(lists), files_in(base.path@, icon), h, h);
    lemma_sum(concat_all(lists), files_in(base.path@, icon), f, g);
    let a = themes[t].name@;
    let b = themes[u].name@;
    if a == "hicolor"@ && b != "hicolor"@ {
        lemma_across(lists, p, q, f, g);
    }
    if a != "hicolor"@ && b != "hicolor"@ && !bytes_le(
        vstd::utf8::encode_utf8(b),
        vstd::utf8::encode_utf8(a),
    ) {
        let others = sorted::<ThemeListing, ByThemeName>(
            themes.filter(|t: ThemeListing| t.name@ != "hicolor"@),
        );
        sorting_sorts::<ThemeListing, ByThemeName>(
            themes.filter(|t: ThemeListing| t.name@ != "hicolor"@),
        );
        let shift = order.len() - others.len();
        assert(order[p] == others[p - shift]);
        assert(order[q] == others[q - shift]);
        if q <= p {
            assert(<ByThemeName as crate::order::Order<ThemeListing>>::le(
                others[q - shift],
                others[p - shift],
            ));
        }
        lemma_across(lists, p, q, f, g);
    }
}

/// The place of a theme in the order in which they are looked through.
proof fn lemma_ordered(themes: Seq<ThemeListing>, t: int) -> (p: int)
    requires
        0 <= t < themes.len(),
        forall|i: int, j: int|
            0 <= i < j < themes.len() ==> (#[trigger] themes[i]).name@ != (
            #[trigger] themes[j]).name@,
    ensures
        0 <= p < theme_order(themes).len(),
        theme_order(themes)[p] == themes[t],
        themes[t].name@ == "hicolor"@ ==> p == 0,
        themes[t].name@ != "hicolor"@ ==> p >= theme_order(themes).len() - themes.filter(
            |t: ThemeListing| t.name@ != "hicolor"@,
        ).len(),
        themes[t].name@ != "hicolor"@ && (exists|i: int|
            0 <= i < themes.len() && (#[trigger] themes[i]).name@ == "hicolor"@) ==> p > 0,
{
    broadcast use vstd::seq_lib::group_to_multiset_ensures;

    let is_common = |t: ThemeListing| t.name@ == "hicolor"@;
    let is_other = |t: ThemeListing| t.name@ != "hicolor"@;
    let common = themes.filter(is_common);
    let kept = themes.filter(is_other);
    let others = sorted::<ThemeListing, ByThemeName>(kept);
    let order = theme_order(themes);
    sorting_sorts::<ThemeListing, ByThemeName>(kept);
    if exists|i: int| 0 <= i < themes.len() && (#[trigger] themes[i]).name@ == "hicolor"@ {
        let i = choose|i: int| 0 <= i < themes.len() && (#[trigger] themes[i]).name@ == "hicolor"@;
        themes.lemma_filter_contains(is_common, i);
        assert(common.len() > 0);
    }
    if themes[t].name@ == "hicolor"@ {
        themes.lemma_filter_contains(is_common, t);
        let last = common.len() - 1;
        themes.lemma_filter_pred(is_common, last);
        assert(common.contains(common[last]));
        themes.lemma_filter_contains_rev(is_common, common[last]);
        let i = choose|i: int| 0 <= i < themes.len() && themes[i] == common[last];
        assert(themes[i].name@ == themes[t].name@);
        assert(i == t);
        assert(order[0] == common.last());
        0
    } else {
        themes.lemma_filter_contains(is_other, t);
        assert(kept.to_multiset().contains(themes[t]));
        assert(others.contains(themes[t]));
        let m = choose|m: int| 0 <= m < others.len() && others[m] == themes[t];
        assert(order[order.len() - others.len() + m] == others[m]);
        order.len() - others.len() + m
    }
}

/// The directories of icons are tried one after the other, each as far as it goes;
/// an icon that is given by its path is tried as that before anything else, then
/// as PNG and as SVG.
pub proof fn directories_are_tried_in_turn(
    icon: Seq<char>,
    bases: Seq<BaseListing>,
    i: int,
    j: int,
    f: Seq<char>,
    g: Seq<char>,
)
    ensures
        ({
            let name = trimmed(icon);
            let files = icon_files(icon, bases);
            &&& name.len() == 0 ==> files.len() == 0
            &&& is_absolute(name) ==> files.len() == 3 && files[0] == name
            &&& name.len() > 0 && !is_absolute(name) && 0 <= i < bases.len() ==> {
                &&& files_in_base(bases[i], name).contains(f) ==> files.contains(f)
                &&& precedes(files_in_base(bases[i], name), f, g) ==> precedes(files, f, g)
                &&& i < j < bases.len() && files_in_base(bases[i], name).contains(f)
                    && files_in_base(bases[j], name).contains(g) ==> precedes(files, f, g)
            }
        }),
{
    let name = trimmed(icon);
    let lists = bases.map_values(|b: BaseListing| files_in_base(b, name));
    if name.len() > 0 && !is_absolute(name) && 0 <= i < bases.len() {
        assert(lists[i] == files_in_base(bases[i], name));
        if lists[i].contains(f) {
            lemma_among(lists, i, f);
        }
        if precedes(lists[i], f, g) {
            lemma_within(lists, i, f, g);
        }
        if i < j < bases.len() {
            assert(lists[j] == files_in_base(bases[j], name));
            if lists[i].contains(f) && lists[j].contains(g) {
                lemma_across(lists, i, j, f, g);
            }
        }
    }
}

/// A number in decimal digits.
pub open spec fn digits_of(n: nat) -> Seq<char>
    decreases n,
{
    let last = ('0' as int + n % 10) as char;
    if n < 10 {
        seq![last]
    } else {
        digits_of(n / 10).push(last)
    }
}

proof fn lemma_digits(n: nat)
    ensures
        digits_of(n).len() > 0,
        decimal(digits_of(n)) == Some(n as int),
        forall|i: int| 0 <= i < digits_of(n).len() ==> '0' <= #[trigger] digits_of(n)[i] <= '9',
    decreases n,
{
    let last = ('0' as int + n % 10) as char;
    assert('0' <= last <= '9');
    if n < 10 {
        assert(digits_of(n).drop_last() =~= Seq::empty());
        assert(decimal(Seq::empty()) == Some(0int));
    } else {
        lemma_digits(n / 10);
        assert(digits_of(n).drop_last() =~= digits_of(n / 10));
    }
}

/// The directory for icons of `n` by `n` pixels is known by its name.
pub proof fn sizes_read_back(n: nat)
    requires
        0 < n <= u32::MAX,
    ensures
        number(digits_of(n)) == Some(n as int),
        side_of(digits_of(n).push('x') + digits_of(n)) == Some(n as int),
{
    lemma_digits(n);
    let digits = digits_of(n);
    let name = digits.push('x') + digits;
    assert(digits[0] != '+');
    assert forall|i: int| 0 <= i < digits.len() implies name[i] != 'x' by {
        assert(name[i] == digits[i]);
    }
    lemma_split_once(name, 'x', digits.len() as int);
    assert(name.take(digits.len() as int) =~= digits);
    assert(name.skip(digits.len() as int + 1) =~= digits);
}

/// Directories whose two sides differ are not for icons of one size.
pub proof fn only_squares_have_a_size(n: nat, m: nat)
    requires
        n != m,
        n <= u32::MAX,
        m <= u32::MAX,
    ensures
        side_of(digits_of(n).push('x') + digits_of(m)) is None,
{
    lemma_digits(n);
    lemma_digits(m);
    let digits = digits_of(n);
    let name = digits.push('x') + digits_of(m);
    assert(digits[0] != '+');
    assert(digits_of(m)[0] != '+');
    assert forall|i: int| 0 <= i < digits.len() implies name[i] != 'x' by {
        assert(name[i] == digits[i]);
    }
    lemma_split_once(name, 'x', digits.len() as int);
    assert(name.take(digits.len() as int) =~= digits);
    assert(name.skip(digits.len() as int + 1) =~= digits_of(m));
}

/// Some pieces with a character between them.
pub open spec fn rejoined(pieces: Seq<Seq<char>>, sep: char) -> Seq<char>
    decreases pieces.len(),
{
    if pieces.len() == 0 {
        Seq::empty()
    } else if pieces.len() == 1 {
        pieces[0]
    } else {
        rejoined(pieces.drop_last(), sep).push(sep) + pieces.last()
    }
}

/// A text is split where the character stands, and nowhere else: the pieces do not
/// hold it, and with it between them they are the text again.
pub proof fn pieces_make_the_text_again(s: Seq<char>, sep: char)
    ensures
        split(s, sep).len() > 0,
        rejoined(split(s, sep), sep) == s,
        forall|i: int|
            0 <= i < split(s, sep).len() ==> !(#[trigger] split(s, sep)[i]).contains(sep),
    decreases s.len(),
{
    let all = split(s, sep);
    if s.len() == 0 {
        assert(rejoined(all, sep) =~= s);
    } else {
        let front = split(s.drop_last(), sep);
        pieces_make_the_text_again(s.drop_last(), sep);
        if s.last() == sep {
            assert(all.drop_last() =~= front);
            assert(rejoined(all, sep) =~= s);
        } else {
            let longer = front.last().push(s.last());
            assert(all.drop_last() =~= front.drop_last());
            assert(all.last() == longer);
            if front.len() > 1 {
                assert(rejoined(all, sep) =~= rejoined(front, sep).push(s.last()));
            }
            assert(rejoined(all, sep) =~= s);
            assert forall|i: int| 0 <= i < all.len() implies !(#[trigger] all[i]).contains(
                sep,
            ) by {
                assert(!front[i].contains(sep));
                if i == all.len() - 1 && longer.contains(sep) {
                    let k = choose|k: int| 0 <= k < longer.len() && longer[k] == sep;
                    assert(front.last()[k] == sep);
                }
            }
        }
    }
}

/// White space is left out at both ends, and nowhere else.
pub proof fn only_white_space_is_left_out(s: Seq<char>) -> (r: (Seq<char>, Seq<char>))
    ensures
        r.0 + trimmed(s) + r.1 == s,
        forall|i: int| 0 <= i < r.0.len() ==> is_blank(#[trigger] r.0[i]),
        forall|i: int| 0 <= i < r.1.len() ==> is_blank(#[trigger] r.1[i]),
        trimmed(s).len() > 0 ==> !is_blank(trimmed(s)[0]) && !is_blank(trimmed(s).last()),
{
    let start = lemma_start(s);
    let end = lemma_end(trimmed_start(s));
    assert(start + trimmed(s) + end =~= s);
    if trimmed(s).len() > 0 {
        assert(trimmed(s)[0] == trimmed_start(s)[0]);
    }
    (start, end)
}

proof fn lemma_start(s: Seq<char>) -> (p: Seq<char>)
    ensures
        p + trimmed_start(s) == s,
        forall|i: int| 0 <= i < p.len() ==> is_blank(#[trigger] p[i]),
        trimmed_start(s).len() > 0 ==> !is_blank(trimmed_start(s)[0]),
    decreases s.len(),
{
    if s.len() > 0 && is_blank(s[0]) {
        let p = lemma_start(s.drop_first());
        let q = seq![s[0]] + p;
        assert(q + trimmed_start(s) =~= s) by {
            assert(s =~= seq![s[0]] + s.drop_first());
        }
        assert forall|i: int| 0 <= i < q.len() implies is_blank(#[trigger] q[i]) by {
            if i > 0 {
                assert(q[i] == p[i - 1]);
            }
        }
        q
    } else {
        assert(Seq::<char>::empty() + trimmed_start(s) =~= s);
        Seq::empty()
    }
}

proof fn lemma_end(s: Seq<char>) -> (p: Seq<char>)
    ensures
        trimmed_end(s) + p == s,
        forall|i: int| 0 <= i < p.len() ==> is_blank(#[trigger] p[i]),
        trimmed_end(s).len() > 0 ==> !is_blank(trimmed_end(s).last()),
    decreases s.len(),
{
    if s.len() > 0 && is_blank(s.last()) {
        let p = lemma_end(s.drop_last());
        let q = p.push(s.last());
        assert(trimmed_end(s) + q =~= s) by {
            assert(s =~= s.drop_last().push(s.last()));
        }
        assert forall|i: int| 0 <= i < q.len() implies is_blank(#[trigger] q[i]) by {
            if i < p.len() {
                assert(q[i] == p[i]);
            }
        }
        q
    } else {
        assert(trimmed_end(s) + Seq::<char>::empty() =~= s);
        Seq::empty()
    }
}

/// Whether a value can stand in a desktop entry: it is not empty, and has no white
/// space around it.
pub open spec fn is_value(v: Seq<char>) -> bool {
    v.len() > 0 && !is_blank(v[0]) && !is_blank(v.last())
}

/// The lines of a desktop entry are read as they are written: a line that gives an
/// icon gives that icon, and one that gives the application a name gives that name,
/// in lower case. Comments and headings give nothing.
pub proof fn entries_read_back(v: Seq<char>, rest: Seq<char>)
    requires
        is_value(v),
    ensures
        icon_in("Icon="@ + v) == Some(v),
        name_in("Name="@ + v) == Some(lowercase(v)),
        name_in("StartupWMClass="@ + v) == Some(lowercase(v)),
        is_value(seq!['#'] + rest) ==> icon_in(seq!['#'] + rest) is None && name_in(
            seq!['#'] + rest,
        ) is None,
        is_value(seq!['['] + rest) ==> icon_in(seq!['['] + rest) is None && name_in(
            seq!['['] + rest,
        ) is None,
{
    lemma_icon_line(v);
    lemma_name_line(v);
    lemma_class_line(v);
    lemma_kept(seq!['#'] + rest);
    lemma_kept(seq!['['] + rest);
}

/// What has no white space around it stays as it is.
proof fn lemma_kept(v: Seq<char>)
    ensures
        is_value(v) ==> trimmed(v) == v,
{
}

proof fn lemma_icon_line(v: Seq<char>)
    requires
        is_value(v),
    ensures
        icon_in("Icon="@ + v) == Some(v),
{
    reveal_strlit("Icon=");
    let line = "Icon="@ + v;
    assert(line[0] == 'I' && line.last() == v.last());
    lemma_kept(line);
    lemma_kept(v);
    assert(line.skip(5) =~= v);
    assert(line.take(5) =~= "Icon="@);
    assert(begins_with(line, "Icon="@));
}

proof fn lemma_name_line(v: Seq<char>)
    requires
        is_value(v),
    ensures
        name_in("Name="@ + v) == Some(lowercase(v)),
{
    reveal_strlit("Name=");
    reveal_strlit("Name");
    let line = "Name="@ + v;
    assert(line[0] == 'N' && line.last() == v.last());
    lemma_kept(line);
    lemma_kept(v);
    lemma_kept("Name"@);
    lemma_split_once(line, '=', 4);
    assert(line.take(4) =~= "Name"@);
    assert(line.skip(5) =~= v);
}

proof fn lemma_class_line(v: Seq<char>)
    requires
        is_value(v),
    ensures
        name_in("StartupWMClass="@ + v) == Some(lowercase(v)),
{
    reveal_strlit("StartupWMClass=");
    reveal_strlit("StartupWMClass");
    let line = "StartupWMClass="@ + v;
    assert(line[0] == 'S' && line.last() == v.last());
    lemma_kept(line);
    lemma_kept(v);
    lemma_kept("StartupWMClass"@);
    lemma_split_once(line, '=', 14);
    assert(line.take(14) =~= "StartupWMClass"@);
    assert(line.skip(15) =~= v);
}

/// The icon of a desktop entry is the first that a line of it gives.
pub proof fn the_first_icon_counts(text: Seq<char>, k: int)
    requires
        0 <= k < split(text, '\n').len(),
        icon_in(split(text, '\n')[k]) is Some,
        forall|i: int| 0 <= i < k ==> icon_in(#[trigger] split(text, '\n')[i]) is None,
    ensures
        entry_icon(text) == icon_in(split(text, '\n')[k]),
{
    let f = |l: Seq<char>| icon_in(l);
    lemma_first_given(split(text, '\n'), f, k);
}

proof fn lemma_first_given(
    lines: Seq<Seq<char>>,
    f: spec_fn(Seq<char>) -> Option<Seq<char>>,
    k: int,
)
    requires
        0 <= k < lines.len(),
        f(lines[k]) is Some,
        forall|i: int| 0 <= i < k ==> f(#[trigger] lines[i]) is None,
    ensures
        given_by(lines, f).len() > 0,
        given_by(lines, f)[0] == f(lines[k])->0,
    decreases lines.len(),
{
    if k < lines.len() - 1 {
        lemma_first_given(lines.drop_last(), f, k);
    } else {
        lemma_none_given(lines.drop_last(), f);
    }
}

proof fn lemma_none_given(lines: Seq<Seq<char>>, f: spec_fn(Seq<char>) -> Option<Seq<char>>)
    requires
        forall|i: int| 0 <= i < lines.len() ==> f(#[trigger] lines[i]) is None,
    ensures
        given_by(lines, f).len() == 0,
    decreases lines.len(),
{
    if lines.len() > 0 {
        assert(f(lines[lines.len() - 1]) is None);
        lemma_none_given(lines.drop_last(), f);
    }
}

/// A desktop entry is found by what it calls its application, where no entry before
/// it does: by the name of its file, and by every name that it gives.
pub proof fn entries_are_found_by_their_names(files: Seq<DesktopFile>, n: int, k: int)
    requires
        0 <= n < files.len(),
        is_entry(files[n].name@),
        0 <= k < file_keys(files[n]).len(),
    ensures
        ({
            let key = file_keys(files[n])[k];
            let path = joined(files[n].dir@, files[n].name@);
            &&& file_keys(files[n])[0] == lowercase(stem_and_extension(files[n].name@).0)
            &&& indexed(files).contains_key(key)
            &&& !indexed(files.take(n)).contains_key(key) ==> indexed(files)[key] == path
        }),
{
    let key = file_keys(files[n])[k];
    let path = joined(files[n].dir@, files[n].name@);
    let upto = files.take(n + 1);
    assert(upto.drop_last() =~= files.take(n));
    assert(upto.last() == files[n]);
    lemma_keys_lead(indexed(files.take(n)), file_keys(files[n]), path, k);
    crate::desktop::first_entry_counts(files, n + 1, key);
}

proof fn lemma_keys_lead(
    index: Map<Seq<char>, Seq<char>>,
    keys: Seq<Seq<char>>,
    path: Seq<char>,
    k: int,
)
    requires
        0 <= k < keys.len(),
    ensures
        with_keys(index, keys, path).contains_key(keys[k]),
        !index.contains_key(keys[k]) ==> with_keys(index, keys, path)[keys[k]] == path,
        forall|key: Seq<char>| #[trigger]
            with_keys(index, keys, path).contains_key(key) && !index.contains_key(key)
                ==> with_keys(index, keys, path)[key] == path,
    decreases keys.len(),
{
    let front = keys.drop_last();
    let before = with_keys(index, front, path);
    let after = with_keys(index, keys, path);
    if front.len() > 0 {
        lemma_keys_lead(
            index,
            front,
            path,
            if k < front.len() {
                k
            } else {
                0
            },
        );
    } else {
        assert(before == index);
    }
    assert forall|key: Seq<char>| #[trigger] after.contains_key(key) && !index.contains_key(
        key,
    ) implies after[key] == path by {
        assert(before.contains_key(key) ==> before[key] == path);
        assert(after == before || after == before.insert(keys.last(), path));
    }
}

/// Desktop entries are looked for in the directories one after the other; those of
/// the user come before those of the system. The icon that an entry gives is tried
/// before one that is called like the application.
pub proof fn entries_of_the_user_come_first(
    app_id: Seq<char>,
    list: Seq<Seq<char>>,
    i: int,
    j: int,
    home: Option<Seq<char>>,
    data_home: Option<Seq<char>>,
    dirs: Option<Seq<char>>,
    own: Seq<char>,
    icon: Seq<char>,
)
    requires
        0 <= i < j < list.len(),
    ensures
        entry_paths(app_id, list).len() == list.len(),
        precedes(
            entry_paths(app_id, list),
            joined(list[i], app_id + ".desktop"@),
            joined(list[j], app_id + ".desktop"@),
        ),
        user_dirs(home, data_home).contains(own) ==> precedes(
            entry_dirs(home, data_home, dirs),
            own,
            "/var/lib/flatpak/exports/share/applications"@,
        ),
        home matches Some(h) ==> user_dirs(home, data_home).contains(
            joined(h, ".local/share/applications"@),
        ),
        data_home matches Some(d) ==> (d.len() > 0 ==> user_dirs(home, data_home).contains(
            joined(d, "applications"@),
        )),
        precedes(icon_names(app_id, Some(icon)), icon, app_id),
        icon_names(app_id, None) == seq![app_id],
{
    let paths = entry_paths(app_id, list);
    assert(paths[i] == joined(list[i], app_id + ".desktop"@));
    assert(paths[j] == joined(list[j], app_id + ".desktop"@));
    let mine = user_dirs(home, data_home);
    let all = entry_dirs(home, data_home, dirs);
    if mine.contains(own) {
        let m = choose|m: int| 0 <= m < mine.len() && mine[m] == own;
        assert(all[m] == own);
        assert(all[all.len() - 1] == "/var/lib/flatpak/exports/share/applications"@);
    }
    if let Some(h) = home {
        assert(mine[0] == joined(h, ".local/share/applications"@));
    }
    if let Some(d) = data_home {
        if d.len() > 0 {
            assert(mine[mine.len() - 1] == joined(d, "applications"@));
        }
    }
    let names = icon_names(app_id, Some(icon));
    assert(names[0] == icon && names[1] == app_id);
}

proof fn lemma_last_place(s: Seq<char>, c: char, i: int)
    requires
        -1 <= i < s.len(),
        i >= 0 ==> s[i] == c,
        forall|j: int| i < j < s.len() ==> s[j] != c,
    ensures
        last_place(s, c) == if i >= 0 {
            Some(i)
        } else {
            None
        },
    decreases s.len(),
{
    if s.len() > 0 && i < s.len() - 1 {
        assert(s[s.len() - 1] != c);
        lemma_last_place(s.drop_last(), c, i);
    }
}

/// The extension of a file name is what follows its last dot, and the rest its
/// stem; a name without a dot, or with one at its start alone, has none.
pub proof fn names_are_taken_apart(stem: Seq<char>, extension: Seq<char>)
    requires
        !extension.contains('.'),
    ensures
        stem.len() > 0 ==> stem_and_extension(stem.push('.') + extension) == (
            stem,
            Some(extension),
        ),
        stem_and_extension(seq!['.'] + extension) == (seq!['.'] + extension, None::<Seq<char>>),
        stem_and_extension(extension) == (extension, None::<Seq<char>>),
{
    let name = stem.push('.') + extension;
    assert forall|j: int| stem.len() < j < name.len() implies name[j] != '.' by {
        assert(name[j] == extension[j - stem.len() - 1]);
    }
    lemma_last_place(name, '.', stem.len() as int);
    assert(name.take(stem.len() as int) =~= stem);
    assert(name.skip(stem.len() as int + 1) =~= extension);
    let hidden = seq!['.'] + extension;
    assert forall|j: int| 0 < j < hidden.len() implies hidden[j] != '.' by {
        assert(hidden[j] == extension[j - 1]);
    }
    lemma_last_place(hidden, '.', 0);
    assert forall|j: int| 0 <= j < extension.len() implies extension[j] != '.' by {
        assert(extension.contains(extension[j]));
    }
    lemma_last_place(extension, '.', -1);
}

/// Whether a text is the name of a file: not empty, without slashes, and not one
/// that stands for a directory.
pub open spec fn is_file_name(name: Seq<char>) -> bool {
    &&& name.len() > 0
    &&& !name.contains('/')
    &&& name != seq!['.'] && name != seq!['.', '.']
}

/// A file in a directory has the name that it was given there, and is of the kind
/// that its extension says.
pub proof fn files_keep_their_names(dir: Seq<char>, name: Seq<char>)
    requires
        is_file_name(name),
    ensures
        file_name(joined(dir, name)) == Some(name),
        kind_of(joined(dir, name)) == (if stem_and_extension(name).1 == Some("png"@) {
            IconKind::Png
        } else if stem_and_extension(name).1 == Some("svg"@) {
            IconKind::Svg
        } else {
            IconKind::Other
        }),
{
    let path = joined(dir, name);
    let at = path.len() - name.len();
    assert forall|j: int| 0 <= j < name.len() implies name[j] != '/' && path[at + j] == name[j] by {
        assert(name.contains(name[j]));
    }
    assert(path.last() == name.last());
    if path.len() > 1 && path.last() == '.' && path[path.len() - 2] == '/' {
        if name.len() > 1 {
            assert(path[at + (name.len() - 2)] == name[name.len() - 2]);
        } else {
            assert(name =~= seq!['.']);
        }
    }
    assert(without_tail(path) == path);
    if at > 0 {
        assert(path[at - 1] == '/');
    }
    assert forall|j: int| at - 1 < j < path.len() implies path[j] != '/' by {
        assert(path[at + (j - at)] == name[j - at]);
    }
    lemma_last_place(path, '/', at - 1);
    assert(path.skip(at) =~= name);
}

/// The icons of the user are looked for before those that all share.
pub proof fn icons_of_the_user_come_first(home: Seq<char>, dirs: Option<Seq<char>>)
    ensures
        precedes(
            base_paths(Some(home), dirs),
            joined(home, ".local/share/icons"@),
            "/usr/share/pixmaps"@,
        ),
        base_paths(Some(home), dirs).len() == data_dirs(dirs).len() + 3,
        forall|i: int|
            0 <= i < data_dirs(dirs).len() ==> #[trigger] base_paths(Some(home), dirs)[i + 1]
                == joined(data_dirs(dirs)[i], "icons"@),
{
    let all = base_paths(Some(home), dirs);
    let n = data_dirs(dirs).len() as int;
    assert(all[0] == joined(home, ".local/share/icons"@));
    assert(all[n + 1] == "/usr/share/pixmaps"@);
    assert forall|i: int| 0 <= i < n implies #[trigger] all[i + 1] == joined(
        data_dirs(dirs)[i],
        "icons"@,
    ) by {}
}

} // verus!
