//! Where the file of an icon is looked for, and in which order.

use vstd::prelude::*;
use crate::desktop::{data_dirs, data_dirs_of, first_file, is_first_file, optional};
use crate::order::{bytes_at_most, bytes_le, bytes_le_total, bytes_le_transitive, sort, sorted,
    Order};
use crate::paths::{join, joined, replace_extension, with_extension};
use crate::seqs::{contains_text, first_index, lemma_first_index, text_of_option, texts};
use crate::text::{append_text, chars_of, find_char, lemma_split_once, lowercase, same_text,
    split_once, text_of, to_lowercase, trim, trimmed};

verus! {

/// A directory of a theme, with the names of the directories in it.
pub struct DirListing {
    pub name: String,
    pub subdirs: Vec<String>,
}

/// A theme, with its directories.
pub struct ThemeListing {
    pub name: String,
    pub entries: Vec<DirListing>,
}

/// A directory of icons, with the themes in it.
pub struct BaseListing {
    pub path: String,
    pub themes: Vec<ThemeListing>,
}

/// The files of an icon in a directory: its name as it is written and in lower
/// case, each as PNG and as SVG.
pub open spec fn files_in(dir: Seq<char>, icon: Seq<char>) -> Seq<Seq<char>> {
    seq![
        joined(dir, icon + ".png"@),
        joined(dir, icon + ".svg"@),
        joined(dir, lowercase(icon) + ".png"@),
        joined(dir, lowercase(icon) + ".svg"@),
    ]
}

fn push_files(out: &mut Vec<String>, dir: &str, icon: &str)
    ensures
        texts(final(out)@) == texts(old(out)@) + files_in(dir@, icon@),
{
    let lower = to_lowercase(icon);
    out.push(join(dir, append_text(icon, ".png").as_str()));
    out.push(join(dir, append_text(icon, ".svg").as_str()));
    out.push(join(dir, append_text(lower.as_str(), ".png").as_str()));
    out.push(join(dir, append_text(lower.as_str(), ".svg").as_str()));
    assert(texts(out@) =~= texts(old(out)@) + files_in(dir@, icon@));
}

/// Looks for an icon in one directory.
pub fn try_icon_in<F: Fn(&String) -> bool>(dir: &str, icon: &str, is_file: &F) -> (r: Option<String>)
    requires
        forall|p: &String| #[trigger] is_file.requires((p,)),
    ensures
        exists|candidates: Seq<String>|
            texts(candidates) == files_in(dir@, icon@) && #[trigger] is_first_file(
                candidates,
                *is_file,
                text_of_option(r),
            ),
{
    let mut candidates: Vec<String> = Vec::new();
    push_files(&mut candidates, dir, icon);
    let ghost list = candidates@;
    assert(texts(list) =~= files_in(dir@, icon@));
    first_file(candidates, is_file)
}

/// Lists one behind the other.
pub open spec fn concat_all(s: Seq<Seq<Seq<char>>>) -> Seq<Seq<char>>
    decreases s.len(),
{
    if s.len() == 0 {
        Seq::empty()
    } else {
        concat_all(s.drop_last()) + s.last()
    }
}

/// The order in which directories are looked through: as they come, or, where
/// icons of applications are preferred, `apps` first.
pub open spec fn search_order(subdirs: Seq<Seq<char>>, prefer_apps: bool) -> Seq<Seq<char>> {
    if prefer_apps {
        (if subdirs.contains("apps"@) {
            seq!["apps"@]
        } else {
            Seq::empty()
        }) + subdirs.filter(|d: Seq<char>| d != "apps"@)
    } else {
        subdirs
    }
}

/// The files of an icon in the directories of `dir`.
pub open spec fn files_below(
    dir: Seq<char>,
    subdirs: Seq<Seq<char>>,
    icon: Seq<char>,
    prefer_apps: bool,
) -> Seq<Seq<char>> {
    concat_all(
        search_order(subdirs, prefer_apps).map_values(
            |d: Seq<char>| files_in(joined(dir, d), icon),
        ),
    )
}

fn order_subdirs(subdirs: &[String], prefer_apps: bool) -> (r: Vec<String>)
    ensures
        texts(r@) == search_order(texts(subdirs@), prefer_apps),
{
    let ghost all = texts(subdirs@);
    let ghost pred = |d: Seq<char>| prefer_apps ==> d != "apps"@;
    let mut r: Vec<String> = Vec::new();
    if prefer_apps && contains_text(subdirs, "apps") {
        r.push("apps".to_owned());
    }
    let ghost head = texts(r@);
    assert(head =~= if prefer_apps && all.contains("apps"@) {
        seq!["apps"@]
    } else {
        Seq::empty()
    });
    let mut i: usize = 0;
    proof {
        reveal(Seq::filter);
    }
    assert(texts(r@) =~= head + all.take(0).filter(pred));
    while i < subdirs.len()
        invariant
            i <= subdirs@.len(),
            all == texts(subdirs@),
            pred == (|d: Seq<char>| prefer_apps ==> d != "apps"@),
            texts(r@) == head + all.take(i as int).filter(pred),
        decreases subdirs@.len() - i,
    {
        let ghost before = r@;
        let ghost name = subdirs@[i as int]@;
        if !prefer_apps || !same_text(subdirs[i].as_str(), "apps") {
            r.push(subdirs[i].clone());
            assert(texts(r@) =~= texts(before).push(name));
        }
        proof {
            reveal(Seq::filter);
            assert(all.take(i + 1).drop_last() =~= all.take(i as int));
            assert(all.take(i + 1).last() == name);
            assert(texts(r@) =~= head + all.take(i + 1).filter(pred));
        }
        i = i + 1;
    }
    proof {
        assert(all.take(i as int) =~= all);
        if prefer_apps {
            assert(pred =~= (|d: Seq<char>| d != "apps"@));
        } else {
            crate::seqs::lemma_filter_all(all, pred);
        }
        assert(texts(r@) =~= search_order(all, prefer_apps));
    }
    r
}

fn search_subdirs(out: &mut Vec<String>, dir: &str, subdirs: &[String], icon: &str, prefer_apps: bool)
    ensures
        texts(final(out)@) == texts(old(out)@) + files_below(
            dir@,
            texts(subdirs@),
            icon@,
            prefer_apps,
        ),
{
    let order = order_subdirs(subdirs, prefer_apps);
    let ghost all = search_order(texts(subdirs@), prefer_apps).map_values(
        |d: Seq<char>| files_in(joined(dir@, d), icon@),
    );
    let ghost start = texts(out@);
    let mut i: usize = 0;
    assert(texts(out@) =~= start + concat_all(all.take(0)));
    while i < order.len()
        invariant
            i <= order@.len(),
            texts(order@) == search_order(texts(subdirs@), prefer_apps),
            all == search_order(texts(subdirs@), prefer_apps).map_values(
                |d: Seq<char>| files_in(joined(dir@, d), icon@),
            ),
            texts(out@) == start + concat_all(all.take(i as int)),
        decreases order@.len() - i,
    {
        let sub = join(dir, order[i].as_str());
        assert(texts(order@)[i as int] == order@[i as int]@);
        assert(all[i as int] == files_in(sub@, icon@));
        push_files(out, sub.as_str(), icon);
        assert(all.take(i + 1).drop_last() =~= all.take(i as int));
        assert(texts(out@) =~= start + concat_all(all.take(i + 1)));
        i = i + 1;
    }
    assert(all.take(i as int) =~= all);
}

/// The number that decimal digits write.
pub open spec fn decimal(digits: Seq<char>) -> Option<int>
    decreases digits.len(),
{
    if digits.len() == 0 {
        Some(0)
    } else {
        match decimal(digits.drop_last()) {
            Some(high) => if '0' <= digits.last() <= '9' {
                Some(high * 10 + (digits.last() as int - '0' as int))
            } else {
                None
            },
            None => None,
        }
    }
}

/// The number that a text writes, within `u32`. A plus sign may stand before it.
pub open spec fn number(s: Seq<char>) -> Option<int> {
    let digits = if s.len() > 0 && s[0] == '+' {
        s.drop_first()
    } else {
        s
    };
    if digits.len() == 0 {
        None
    } else {
        match decimal(digits) {
            Some(v) => if v <= u32::MAX {
                Some(v)
            } else {
                None
            },
            None => None,
        }
    }
}

proof fn lemma_decimal_prefix(s: Seq<char>, n: int)
    requires
        0 <= n <= s.len(),
    ensures
        decimal(s.take(n)) is None ==> decimal(s) is None,
        decimal(s) is Some ==> decimal(s.take(n)) is Some && 0 <= decimal(s.take(n))->0
            <= decimal(s)->0,
    decreases s.len(),
{
    if n < s.len() {
        assert(s.drop_last().take(n) =~= s.take(n));
        lemma_decimal_prefix(s.drop_last(), n);
    } else {
        assert(s.take(n) =~= s);
        if s.len() > 0 {
            lemma_decimal_prefix(s.drop_last(), s.len() - 1);
        }
    }
}

/// The number that a text writes.
pub fn parse_number(s: &[char]) -> (r: Option<u32>)
    ensures
        match (r, number(s@)) {
            (Some(v), Some(n)) => v == n,
            (None, None) => true,
            _ => false,
        },
{
    let from: usize = if s.len() > 0 && s[0] == '+' {
        1
    } else {
        0
    };
    let ghost digits = s@.skip(from as int);
    assert(digits =~= if s@.len() > 0 && s@[0] == '+' {
        s@.drop_first()
    } else {
        s@
    });
    if from == s.len() {
        return None;
    }
    let mut value: u32 = 0;
    let mut i: usize = from;
    assert(digits.take(0) =~= Seq::empty());
    while i < s.len()
        invariant
            from <= i <= s@.len(),
            digits == s@.skip(from as int),
            digits.len() > 0,
            number(s@) == match decimal(digits) {
                Some(v) => if v <= u32::MAX {
                    Some(v)
                } else {
                    None
                },
                None => None,
            },
            decimal(digits.take(i - from)) == Some(value as int),
        decreases s@.len() - i,
    {
        let c: char = s[i];
        assert(digits.take(i - from + 1).drop_last() =~= digits.take(i - from));
        assert(digits.take(i - from + 1).last() == c);
        proof {
            lemma_decimal_prefix(digits, i - from + 1);
        }
        if c < '0' || c > '9' {
            return None;
        }
        let d: u32 = c as u32 - '0' as u32;
        match value.checked_mul(10) {
            Some(high) => match high.checked_add(d) {
                Some(v) => {
                    value = v;
                },
                None => {
                    return None;
                },
            },
            None => {
                return None;
            },
        }
        i = i + 1;
    }
    assert(digits.take(i - from) =~= digits);
    Some(value)
}

/// The side of the icons in a directory, by its name: such as 48 for `48x48`.
pub open spec fn side_of(name: Seq<char>) -> Option<int> {
    match split_once(name, 'x') {
        Some((w, h)) => match (number(w), number(h)) {
            (Some(a), Some(b)) => if a == b && a != 0 {
                Some(a)
            } else {
                None
            },
            _ => None,
        },
        None => None,
    }
}

fn parse_side(name: &str) -> (r: Option<u32>)
    ensures
        match (r, side_of(name@)) {
            (Some(v), Some(n)) => v == n,
            (None, None) => true,
            _ => false,
        },
{
    let chars = chars_of(name);
    let s = chars.as_slice();
    let at: usize = find_char(s, 'x', 0);
    proof {
        lemma_split_once(s@, 'x', at as int);
    }
    if at == s.len() {
        return None;
    }
    let w = vstd::slice::slice_subrange(s, 0, at);
    let h = vstd::slice::slice_subrange(s, at + 1, s.len());
    assert(w@ =~= s@.take(at as int));
    assert(h@ =~= s@.skip(at + 1));
    match (parse_number(w), parse_number(h)) {
        (Some(a), Some(b)) => if a == b && a != 0 {
            Some(a)
        } else {
            None
        },
        _ => None,
    }
}

/// Directories by the side of their icons, the largest first.
pub struct BySide;

/// The side of the icons in a directory, or 0.
pub open spec fn side_or_zero(d: DirListing) -> int {
    match side_of(d.name@) {
        Some(side) => side,
        None => 0,
    }
}

impl Order<DirListing> for BySide {
    open spec fn le(a: DirListing, b: DirListing) -> bool {
        side_or_zero(a) >= side_or_zero(b)
    }

    proof fn total(a: DirListing, b: DirListing) {
    }

    proof fn transitive(a: DirListing, b: DirListing, c: DirListing) {
    }

    fn at_most(a: &DirListing, b: &DirListing) -> (r: bool) {
        let x: u32 = match parse_side(a.name.as_str()) {
            Some(v) => v,
            None => 0,
        };
        let y: u32 = match parse_side(b.name.as_str()) {
            Some(v) => v,
            None => 0,
        };
        x >= y
    }
}

/// The directories of a theme that are named by the side of their icons, the
/// largest first.
pub open spec fn sized_dirs(entries: Seq<DirListing>) -> Seq<DirListing> {
    sorted::<DirListing, BySide>(entries.filter(|d: DirListing| side_of(d.name@) is Some))
}

/// The directories of a theme that are named by the side of their icons, the
/// largest first.
pub fn size_dirs_descending(entries: &[DirListing]) -> (r: Vec<&DirListing>)
    ensures
        r@.unref() == sized_dirs(entries@),
{
    let ghost pred = |d: DirListing| side_of(d.name@) is Some;
    let mut dirs: Vec<&DirListing> = Vec::new();
    let mut i: usize = 0;
    proof {
        reveal(Seq::filter);
    }
    assert(dirs@.unref() =~= entries@.take(0).filter(pred));
    while i < entries.len()
        invariant
            i <= entries@.len(),
            pred == (|d: DirListing| side_of(d.name@) is Some),
            dirs@.unref() == entries@.take(i as int).filter(pred),
        decreases entries@.len() - i,
    {
        let ghost before = dirs@.unref();
        let d: &DirListing = &entries[i];
        if parse_side(d.name.as_str()).is_some() {
            dirs.push(d);
        }
        proof {
            reveal(Seq::filter);
            assert(entries@.take(i + 1).drop_last() =~= entries@.take(i as int));
            assert(entries@.take(i + 1).last() == *d);
            assert(pred(*d) ==> dirs@.unref() =~= before.push(*d));
        }
        i = i + 1;
    }
    assert(entries@.take(i as int) =~= entries@);
    sort::<DirListing, BySide>(dirs.as_slice())
}

/// The directories with this name.
pub open spec fn has_name(name: Seq<char>) -> spec_fn(DirListing) -> bool {
    |d: DirListing| d.name@ == name
}

/// The files of an icon in the directory of a theme with this name.
pub open spec fn files_in_named(
    theme: Seq<char>,
    entries: Seq<DirListing>,
    name: Seq<char>,
    icon: Seq<char>,
    prefer_apps: bool,
) -> Seq<Seq<char>> {
    match first_index(entries, has_name(name)) {
        Some(i) => files_below(joined(theme, name), texts(entries[i].subdirs@), icon, prefer_apps),
        None => Seq::empty(),
    }
}

/// The files of an icon in a theme: in the directories by size, the largest
/// first, then in `scalable`, then in `symbolic`.
pub open spec fn files_in_theme(
    theme: Seq<char>,
    entries: Seq<DirListing>,
    icon: Seq<char>,
) -> Seq<Seq<char>> {
    concat_all(
        sized_dirs(entries).map_values(
            |d: DirListing| files_below(joined(theme, d.name@), texts(d.subdirs@), icon, true),
        ),
    ) + files_in_named(theme, entries, "scalable"@, icon, true) + files_in_named(
        theme,
        entries,
        "symbolic"@,
        icon,
        false,
    )
}

fn search_named(
    out: &mut Vec<String>,
    theme: &str,
    entries: &[DirListing],
    name: &str,
    icon: &str,
    prefer_apps: bool,
)
    ensures
        texts(final(out)@) == texts(old(out)@) + files_in_named(
            theme@,
            entries@,
            name@,
            icon@,
            prefer_apps,
        ),
{
    let ghost pred = has_name(name@);
    proof {
        lemma_first_index(entries@, pred);
    }
    let mut i: usize = 0;
    while i < entries.len() && !same_text(entries[i].name.as_str(), name)
        invariant
            i <= entries@.len(),
            forall|j: int| 0 <= j < i ==> (#[trigger] entries@[j]).name@ != name@,
        ensures
            i <= entries@.len(),
            forall|j: int| 0 <= j < i ==> (#[trigger] entries@[j]).name@ != name@,
            i < entries@.len() ==> entries@[i as int].name@ == name@,
        decreases entries@.len() - i,
    {
        i = i + 1;
    }
    if i < entries.len() {
        assert(pred(entries@[i as int]));
        assert(first_index(entries@, pred) == Some(i as int));
        let dir = join(theme, name);
        search_subdirs(out, dir.as_str(), entries[i].subdirs.as_slice(), icon, prefer_apps);
    } else {
        assert(first_index(entries@, pred) is None);
        assert(texts(out@) =~= texts(old(out)@) + Seq::<Seq<char>>::empty());
    }
}

fn search_theme(out: &mut Vec<String>, theme: &str, entries: &[DirListing], icon: &str)
    ensures
        texts(final(out)@) == texts(old(out)@) + files_in_theme(theme@, entries@, icon@),
{
    let dirs = size_dirs_descending(entries);
    let ghost sized = sized_dirs(entries@);
    let ghost all = sized.map_values(
        |d: DirListing| files_below(joined(theme@, d.name@), texts(d.subdirs@), icon@, true),
    );
    let ghost start = texts(out@);
    let mut i: usize = 0;
    assert(texts(out@) =~= start + concat_all(all.take(0)));
    while i < dirs.len()
        invariant
            i <= dirs@.len(),
            dirs@.unref() == sized,
            all == sized.map_values(
                |d: DirListing|
                    files_below(joined(theme@, d.name@), texts(d.subdirs@), icon@, true),
            ),
            texts(out@) == start + concat_all(all.take(i as int)),
        decreases dirs@.len() - i,
    {
        let d: &DirListing = dirs[i];
        assert(sized[i as int] == *d);
        let dir = join(theme, d.name.as_str());
        search_subdirs(out, dir.as_str(), d.subdirs.as_slice(), icon, true);
        assert(all.take(i + 1).drop_last() =~= all.take(i as int));
        assert(all.take(i + 1).last() == files_below(dir@, texts(d.subdirs@), icon@, true));
        assert(texts(out@) =~= start + concat_all(all.take(i + 1)));
        i = i + 1;
    }
    assert(all.take(i as int) =~= all);
    search_named(out, theme, entries, "scalable", icon, true);
    search_named(out, theme, entries, "symbolic", icon, false);
    assert(texts(out@) =~= start + files_in_theme(theme@, entries@, icon@));
}

/// Themes by name.
pub struct ByThemeName;

impl Order<ThemeListing> for ByThemeName {
    open spec fn le(a: ThemeListing, b: ThemeListing) -> bool {
        bytes_le(vstd::utf8::encode_utf8(a.name@), vstd::utf8::encode_utf8(b.name@))
    }

    proof fn total(a: ThemeListing, b: ThemeListing) {
        bytes_le_total(vstd::utf8::encode_utf8(a.name@), vstd::utf8::encode_utf8(b.name@));
    }

    proof fn transitive(a: ThemeListing, b: ThemeListing, c: ThemeListing) {
        bytes_le_transitive(
            vstd::utf8::encode_utf8(a.name@),
            vstd::utf8::encode_utf8(b.name@),
            vstd::utf8::encode_utf8(c.name@),
        );
    }

    fn at_most(a: &ThemeListing, b: &ThemeListing) -> (r: bool) {
        bytes_at_most(a.name.as_str().as_bytes(), b.name.as_str().as_bytes())
    }
}

/// Themes in the order in which they are looked through: `hicolor`, which every
/// application adds to, then the others by name.
pub open spec fn theme_order(themes: Seq<ThemeListing>) -> Seq<ThemeListing> {
    let common = themes.filter(|t: ThemeListing| t.name@ == "hicolor"@);
    let others = sorted::<ThemeListing, ByThemeName>(
        themes.filter(|t: ThemeListing| t.name@ != "hicolor"@),
    );
    if common.len() > 0 {
        seq![common.last()] + others
    } else {
        others
    }
}

/// The files of an icon in a directory of icons: in its themes, and then in the
/// directory itself.
pub open spec fn files_in_base(base: BaseListing, icon: Seq<char>) -> Seq<Seq<char>> {
    concat_all(
        theme_order(base.themes@).map_values(
            |t: ThemeListing| files_in_theme(joined(base.path@, t.name@), t.entries@, icon),
        ),
    ) + files_in(base.path@, icon)
}

fn order_themes(themes: &[ThemeListing]) -> (r: Vec<&ThemeListing>)
    ensures
        r@.unref() == theme_order(themes@),
{
    let ghost is_common = |t: ThemeListing| t.name@ == "hicolor"@;
    let ghost is_other = |t: ThemeListing| t.name@ != "hicolor"@;
    let mut common: Option<&ThemeListing> = None;
    let mut others: Vec<&ThemeListing> = Vec::new();
    let mut i: usize = 0;
    proof {
        reveal(Seq::filter);
    }
    assert(others@.unref() =~= themes@.take(0).filter(is_other));
    while i < themes.len()
        invariant
            i <= themes@.len(),
            is_common == (|t: ThemeListing| t.name@ == "hicolor"@),
            is_other == (|t: ThemeListing| t.name@ != "hicolor"@),
            others@.unref() == themes@.take(i as int).filter(is_other),
            match common {
                Some(t) => themes@.take(i as int).filter(is_common).len() > 0 && themes@.take(
                    i as int,
                ).filter(is_common).last() == *t,
                None => themes@.take(i as int).filter(is_common).len() == 0,
            },
        decreases themes@.len() - i,
    {
        let ghost before = others@.unref();
        let t: &ThemeListing = &themes[i];
        proof {
            reveal(Seq::filter);
            assert(themes@.take(i + 1).drop_last() =~= themes@.take(i as int));
            assert(themes@.take(i + 1).last() == *t);
        }
        if same_text(t.name.as_str(), "hicolor") {
            common = Some(t);
        } else {
            others.push(t);
            assert(others@.unref() =~= before.push(*t));
        }
        i = i + 1;
    }
    assert(themes@.take(i as int) =~= themes@);
    let mut r = sort::<ThemeListing, ByThemeName>(others.as_slice());
    if let Some(t) = common {
        let ghost tail = r@.unref();
        r.insert(0, t);
        assert(r@.unref() =~= seq![*t] + tail);
    }
    r
}

/// Lists the files of an icon in a directory of icons.
fn search_theme_dirs(out: &mut Vec<String>, base: &BaseListing, icon: &str)
    ensures
        texts(final(out)@) == texts(old(out)@) + files_in_base(*base, icon@),
{
    let themes = order_themes(base.themes.as_slice());
    let ghost order = theme_order(base.themes@);
    let ghost all = order.map_values(
        |t: ThemeListing| files_in_theme(joined(base.path@, t.name@), t.entries@, icon@),
    );
    let ghost start = texts(out@);
    let mut i: usize = 0;
    assert(texts(out@) =~= start + concat_all(all.take(0)));
    while i < themes.len()
        invariant
            i <= themes@.len(),
            themes@.unref() == order,
            all == order.map_values(
                |t: ThemeListing| files_in_theme(joined(base.path@, t.name@), t.entries@, icon@),
            ),
            texts(out@) == start + concat_all(all.take(i as int)),
        decreases themes@.len() - i,
    {
        let t: &ThemeListing = themes[i];
        assert(order[i as int] == *t);
        let dir = join(base.path.as_str(), t.name.as_str());
        search_theme(out, dir.as_str(), t.entries.as_slice(), icon);
        assert(all.take(i + 1).drop_last() =~= all.take(i as int));
        assert(all.take(i + 1).last() == files_in_theme(dir@, t.entries@, icon@));
        assert(texts(out@) =~= start + concat_all(all.take(i + 1)));
        i = i + 1;
    }
    assert(all.take(i as int) =~= all);
    push_files(out, base.path.as_str(), icon);
    assert(texts(out@) =~= start + files_in_base(*base, icon@));
}

/// Whether a path begins at the root.
pub open spec fn is_absolute(path: Seq<char>) -> bool {
    path.len() > 0 && path[0] == '/'
}

/// Where the file of an icon is looked for, in this order. An icon may be given
/// by its path, also without an extension.
pub open spec fn icon_files(icon: Seq<char>, bases: Seq<BaseListing>) -> Seq<Seq<char>> {
    let name = trimmed(icon);
    if name.len() == 0 {
        Seq::empty()
    } else if is_absolute(name) {
        seq![name, with_extension(name, "png"@), with_extension(name, "svg"@)]
    } else {
        concat_all(bases.map_values(|b: BaseListing| files_in_base(b, name)))
    }
}

/// Lists the files of an icon that is given by its path.
fn path_candidates(name: String) -> (r: Vec<String>)
    ensures
        texts(r@) == seq![name@, with_extension(name@, "png"@), with_extension(name@, "svg"@)],
{
    let png = replace_extension(name.as_str(), "png");
    let svg = replace_extension(name.as_str(), "svg");
    let ghost files = seq![name@, png@, svg@];
    let mut r: Vec<String> = Vec::new();
    r.push(name);
    r.push(png);
    r.push(svg);
    assert(texts(r@) =~= files);
    r
}

/// Whether some directories of icons are the first of `paths`, each with the
/// themes that `list` gave for it.
pub open spec fn are_listed<L: Fn(&String) -> Vec<ThemeListing>>(
    bases: Seq<BaseListing>,
    paths: Seq<String>,
    list: L,
) -> bool {
    &&& bases.len() <= paths.len()
    &&& forall|i: int|
        0 <= i < bases.len() ==> (#[trigger] bases[i]).path == paths[i] && list.ensures(
            (&paths[i],),
            bases[i].themes,
        )
}

/// Finds the file of an icon: the first that is one. The directories of icons
/// are listed one after the other, until the file is found; none is listed for
/// an icon that is given by its path.
pub fn find_icon_file<F: Fn(&String) -> bool, L: Fn(&String) -> Vec<ThemeListing>>(
    icon: &str,
    paths: &[String],
    list: &L,
    is_file: &F,
) -> (r: Option<String>)
    requires
        forall|p: &String| #[trigger] is_file.requires((p,)),
        forall|p: &String| #[trigger] list.requires((p,)),
    ensures
        exists|bases: Seq<BaseListing>, candidates: Seq<String>|
            {
                &&& #[trigger] are_listed(bases, paths@, *list)
                &&& trimmed(icon@).len() == 0 || is_absolute(trimmed(icon@)) ==> bases.len() == 0
                &&& r is None && trimmed(icon@).len() > 0 && !is_absolute(trimmed(icon@))
                    ==> bases.len() == paths@.len()
                &&& texts(candidates) == icon_files(icon@, bases)
                &&& #[trigger] is_first_file(candidates, *is_file, text_of_option(r))
            },
{
    let chars = chars_of(icon);
    let name = trim(chars.as_slice());
    let ghost none = Seq::<BaseListing>::empty();
    assert(are_listed(none, paths@, *list));
    if name.len() == 0 {
        let ghost tried = Seq::<String>::empty();
        assert(texts(tried) =~= icon_files(icon@, none));
        assert(is_first_file(tried, *is_file, None));
        return None;
    }
    let icon_name = text_of(name);
    if name[0] == '/' {
        let candidates = path_candidates(icon_name);
        let ghost tried = candidates@;
        assert(texts(tried) == icon_files(icon@, none));
        return first_file(candidates, is_file);
    }
    let ghost mut bases: Seq<BaseListing> = Seq::empty();
    let ghost mut tried: Seq<String> = Seq::empty();
    let mut i: usize = 0;
    assert(texts(tried) =~= concat_all(
        bases.map_values(|b: BaseListing| files_in_base(b, icon_name@)),
    ));
    while i < paths.len()
        invariant
            i <= paths@.len(),
            bases.len() == i,
            icon_name@ == trimmed(icon@),
            icon_name@.len() > 0,
            !is_absolute(icon_name@),
            are_listed(bases, paths@, *list),
            texts(tried) == concat_all(
                bases.map_values(|b: BaseListing| files_in_base(b, icon_name@)),
            ),
            forall|j: int| 0 <= j < tried.len() ==> is_file.ensures((&#[trigger] tried[j],), false),
            forall|p: &String| #[trigger] is_file.requires((p,)),
            forall|p: &String| #[trigger] list.requires((p,)),
        decreases paths@.len() - i,
    {
        let base = BaseListing { path: paths[i].clone(), themes: list(&paths[i]) };
        let mut candidates: Vec<String> = Vec::new();
        search_theme_dirs(&mut candidates, &base, icon_name.as_str());
        let ghost here = candidates@;
        assert(texts(here) =~= files_in_base(base, icon_name@));
        let ghost more = bases.push(base);
        let ghost all = tried + here;
        proof {
            let f = |b: BaseListing| files_in_base(b, icon_name@);
            assert(more.map_values(f).drop_last() =~= bases.map_values(f));
            assert(more.map_values(f).last() == files_in_base(base, icon_name@));
            assert(texts(all) =~= texts(tried) + texts(here));
            assert(are_listed(more, paths@, *list));
        }
        let found = first_file(candidates, is_file);
        if found.is_some() {
            proof {
                lemma_first_file_later(tried, here, *is_file, text_of_option(found));
                assert(are_listed(more, paths@, *list));
                assert(is_first_file(all, *is_file, text_of_option(found)));
            }
            return found;
        }
        proof {
            assert forall|j: int| 0 <= j < all.len() implies is_file.ensures(
                (&#[trigger] all[j],),
                false,
            ) by {
                if j < tried.len() {
                    assert(all[j] == tried[j]);
                } else {
                    assert(all[j] == here[j - tried.len()]);
                }
            }
            bases = more;
            tried = all;
        }
        i = i + 1;
    }
    assert(is_first_file(tried, *is_file, None));
    None
}

/// Where none of some paths is a file, the first of more paths that is one is
/// the first of all.
proof fn lemma_first_file_later<F: Fn(&String) -> bool>(
    tried: Seq<String>,
    more: Seq<String>,
    is_file: F,
    r: Option<Seq<char>>,
)
    requires
        forall|j: int| 0 <= j < tried.len() ==> is_file.ensures((&#[trigger] tried[j],), false),
        is_first_file(more, is_file, r),
        r is Some,
    ensures
        is_first_file(tried + more, is_file, r),
{
    let all = tried + more;
    let i = choose|i: int|
        {
            &&& 0 <= i < more.len()
            &&& (#[trigger] more[i])@ == r->0
            &&& is_file.ensures((&more[i],), true)
            &&& forall|j: int| 0 <= j < i ==> is_file.ensures((&#[trigger] more[j],), false)
        };
    let k = tried.len() + i;
    assert(all[k] == more[i]);
    assert forall|j: int| 0 <= j < k implies is_file.ensures((&#[trigger] all[j],), false) by {
        if j < tried.len() {
            assert(all[j] == tried[j]);
        } else {
            assert(all[j] == more[j - tried.len()]);
        }
    }
}

/// The directories of icons, in the order in which they are looked through.
pub open spec fn base_paths(home: Option<Seq<char>>, dirs: Option<Seq<char>>) -> Seq<Seq<char>> {
    let own = match home {
        Some(h) => seq![joined(h, ".local/share/icons"@)],
        None => Seq::empty(),
    };
    let system = data_dirs(dirs).map_values(|d: Seq<char>| joined(d, "icons"@));
    let common = (own + system).push("/usr/share/pixmaps"@);
    match home {
        Some(h) => common.push(joined(h, ".local/share/pixmaps"@)),
        None => common,
    }
}

/// The directories of icons, in the order in which they are looked through.
pub fn icon_bases(home: Option<&str>, dirs: Option<&str>) -> (r: Vec<String>)
    ensures
        texts(r@) == base_paths(optional(home), optional(dirs)),
{
    let mut r: Vec<String> = Vec::new();
    if let Some(h) = home {
        r.push(join(h, ".local/share/icons"));
    }
    let ghost own = texts(r@);
    assert(own =~= match home {
        Some(h) => seq![joined(h@, ".local/share/icons"@)],
        None => Seq::empty(),
    });
    let list = data_dirs_of(dirs);
    let ghost system = data_dirs(optional(dirs)).map_values(|d: Seq<char>| joined(d, "icons"@));
    let mut i: usize = 0;
    assert(texts(r@) =~= own + system.take(0));
    while i < list.len()
        invariant
            i <= list@.len(),
            texts(list@) == data_dirs(optional(dirs)),
            system == data_dirs(optional(dirs)).map_values(|d: Seq<char>| joined(d, "icons"@)),
            texts(r@) == own + system.take(i as int),
        decreases list@.len() - i,
    {
        let ghost before = r@;
        let path = join(list[i].as_str(), "icons");
        let ghost added = path@;
        assert(texts(list@)[i as int] == list@[i as int]@);
        assert(added == system[i as int]);
        r.push(path);
        assert(texts(r@) =~= texts(before).push(added));
        assert(system.take(i + 1) =~= system.take(i as int).push(added));
        assert(texts(r@) =~= own + system.take(i + 1));
        i = i + 1;
    }
    assert(system.take(i as int) =~= system);
    let ghost before = r@;
    r.push("/usr/share/pixmaps".to_owned());
    assert(texts(r@) =~= texts(before).push("/usr/share/pixmaps"@));
    if let Some(h) = home {
        let ghost common = r@;
        r.push(join(h, ".local/share/pixmaps"));
        assert(texts(r@) =~= texts(common).push(joined(h@, ".local/share/pixmaps"@)));
    }
    r
}

/// Larger icons are looked for before smaller ones.
pub proof fn larger_icons_come_first(entries: Seq<DirListing>, i: int, j: int)
    requires
        0 <= i <= j < sized_dirs(entries).len(),
    ensures
        side_or_zero(sized_dirs(entries)[i]) >= side_or_zero(sized_dirs(entries)[j]),
{
    crate::order::sorting_sorts::<DirListing, BySide>(
        entries.filter(|d: DirListing| side_of(d.name@) is Some),
    );
    assert(BySide::le(sized_dirs(entries)[i], sized_dirs(entries)[j]));
}

} // verus!
