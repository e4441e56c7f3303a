//! Desktop entries: where they are, what they say, and how the one of an
//! application is found.

use vstd::prelude::*;
use crate::order::{sort, Order};
use crate::paths::{join, joined, parts, same_path, split_name, stem_and_extension, ByPath};
use crate::seqs::texts;
use crate::text::{append_text, begins_with, chars_of, find_char, is_text, lemma_split_once,
    lowercase, pieces, split, split_at_all, split_once, strip_prefix, text_of, to_lowercase, trim,
    trimmed};
use vstd::hash_map::StringHashMap;

verus! {

/// Whether a line of a desktop entry says anything: it is not empty, no
/// comment, and no heading.
pub open spec fn says_something(line: Seq<char>) -> bool {
    line.len() > 0 && line[0] != '#' && line[0] != '['
}

/// Whether a key of a desktop entry names the application: `Name`, also in some
/// language, or `StartupWMClass`.
pub open spec fn names_application(key: Seq<char>) -> bool {
    ||| key == "Name"@
    ||| key == "StartupWMClass"@
    ||| begins_with(key, "Name["@) && key.last() == ']'
}

/// The name of the application that a line gives, in lower case.
pub open spec fn name_in(line: Seq<char>) -> Option<Seq<char>> {
    let l = trimmed(line);
    match split_once(l, '=') {
        Some((key, value)) => if says_something(l) && names_application(trimmed(key)) {
            Some(lowercase(trimmed(value)))
        } else {
            None
        },
        None => None,
    }
}

/// The icon that a line gives.
pub open spec fn icon_in(line: Seq<char>) -> Option<Seq<char>> {
    let l = trimmed(line);
    let value = trimmed(l.skip("Icon="@.len() as int));
    if says_something(l) && begins_with(l, "Icon="@) && value.len() > 0 {
        Some(value)
    } else {
        None
    }
}

/// What lines give, one after the other; lines that give nothing are skipped.
pub open spec fn given_by(
    lines: Seq<Seq<char>>,
    f: spec_fn(Seq<char>) -> Option<Seq<char>>,
) -> Seq<Seq<char>>
    decreases lines.len(),
{
    if lines.len() == 0 {
        Seq::empty()
    } else {
        match f(lines.last()) {
            Some(v) => given_by(lines.drop_last(), f).push(v),
            None => given_by(lines.drop_last(), f),
        }
    }
}

/// The names of the application that a desktop entry gives.
pub open spec fn entry_names(text: Seq<char>) -> Seq<Seq<char>> {
    given_by(split(text, '\n'), |l: Seq<char>| name_in(l))
}

/// The icon that a desktop entry gives: the first one.
pub open spec fn entry_icon(text: Seq<char>) -> Option<Seq<char>> {
    let icons = given_by(split(text, '\n'), |l: Seq<char>| icon_in(l));
    if icons.len() > 0 {
        Some(icons[0])
    } else {
        None
    }
}

fn parse_name(line: &[char]) -> (r: Option<String>)
    ensures
        match (r, name_in(line@)) {
            (Some(s), Some(t)) => s@ == t,
            (None, None) => true,
            _ => false,
        },
{
    let l = trim(line);
    if l.len() == 0 || l[0] == '#' || l[0] == '[' {
        return None;
    }
    let at: usize = find_char(l, '=', 0);
    proof {
        lemma_split_once(l@, '=', at as int);
    }
    if at == l.len() {
        return None;
    }
    let before = vstd::slice::slice_subrange(l, 0, at);
    let after = vstd::slice::slice_subrange(l, at + 1, l.len());
    assert(before@ =~= l@.take(at as int));
    assert(after@ =~= l@.skip(at + 1));
    let key = trim(before);
    let localized: bool = match strip_prefix(key, "Name[") {
        Some(_) => key.len() > 0 && key[key.len() - 1] == ']',
        None => false,
    };
    proof {
        reveal_strlit("Name[");
    }
    if is_text(key, "Name") || is_text(key, "StartupWMClass") || localized {
        let value = text_of(trim(after));
        Some(to_lowercase(value.as_str()))
    } else {
        None
    }
}

fn parse_icon(line: &[char]) -> (r: Option<String>)
    ensures
        match (r, icon_in(line@)) {
            (Some(s), Some(t)) => s@ == t,
            (None, None) => true,
            _ => false,
        },
{
    let l = trim(line);
    if l.len() == 0 || l[0] == '#' || l[0] == '[' {
        return None;
    }
    match strip_prefix(l, "Icon=") {
        Some(rest) => {
            let value = trim(rest);
            if value.len() > 0 {
                Some(text_of(value))
            } else {
                None
            }
        },
        None => None,
    }
}

/// The names of the application that a desktop entry gives, in lower case.
pub fn desktop_keys(text: &str) -> (r: Vec<String>)
    ensures
        texts(r@) == entry_names(text@),
{
    let chars = chars_of(text);
    let lines = split_at_all(chars.as_slice(), '\n');
    let ghost all = split(text@, '\n');
    let ghost f = |l: Seq<char>| name_in(l);
    let mut r: Vec<String> = Vec::new();
    let mut i: usize = 0;
    assert(texts(r@) =~= given_by(all.take(0), f));
    while i < lines.len()
        invariant
            i <= lines@.len(),
            all == pieces(lines@),
            f == (|l: Seq<char>| name_in(l)),
            texts(r@) == given_by(all.take(i as int), f),
        decreases lines@.len() - i,
    {
        assert(all.take(i + 1).drop_last() =~= all.take(i as int));
        assert(all.take(i + 1).last() == lines@[i as int]@);
        let ghost before = r@;
        if let Some(name) = parse_name(lines[i].as_slice()) {
            let ghost added = name@;
            r.push(name);
            assert(texts(r@) =~= texts(before).push(added));
        }
        i = i + 1;
    }
    assert(all.take(i as int) =~= all);
    r
}

/// The icon that a desktop entry gives.
pub fn desktop_icon_name(text: &str) -> (r: Option<String>)
    ensures
        match (r, entry_icon(text@)) {
            (Some(s), Some(t)) => s@ == t,
            (None, None) => true,
            _ => false,
        },
{
    let chars = chars_of(text);
    let lines = split_at_all(chars.as_slice(), '\n');
    let ghost all = split(text@, '\n');
    let ghost f = |l: Seq<char>| icon_in(l);
    let mut i: usize = 0;
    assert(given_by(all.take(0), f).len() == 0);
    while i < lines.len()
        invariant
            i <= lines@.len(),
            all == split(text@, '\n'),
            all == pieces(lines@),
            f == (|l: Seq<char>| icon_in(l)),
            given_by(all.take(i as int), f).len() == 0,
        decreases lines@.len() - i,
    {
        assert(all.take(i + 1).drop_last() =~= all.take(i as int));
        assert(all.take(i + 1).last() == lines@[i as int]@);
        if let Some(icon) = parse_icon(lines[i].as_slice()) {
            proof {
                assert(given_by(all.take(i + 1), f) =~= seq![icon@]);
                lemma_first_stays(all, f, i + 1);
            }
            return Some(icon);
        }
        i = i + 1;
    }
    assert(all.take(i as int) =~= all);
    None
}

/// What the first lines give comes first.
proof fn lemma_first_stays(
    lines: Seq<Seq<char>>,
    f: spec_fn(Seq<char>) -> Option<Seq<char>>,
    n: int,
)
    requires
        0 <= n <= lines.len(),
        given_by(lines.take(n), f).len() > 0,
    ensures
        given_by(lines, f).len() > 0,
        given_by(lines, f)[0] == given_by(lines.take(n), f)[0],
    decreases lines.len(),
{
    if n < lines.len() {
        assert(lines.drop_last().take(n) =~= lines.take(n));
        lemma_first_stays(lines.drop_last(), f, n);
    } else {
        assert(lines.take(n) =~= lines);
    }
}

/// A file in a directory of desktop entries.
pub struct DesktopFile {
    pub dir: String,
    pub name: String,
    /// What it says, where it could be read.
    pub text: Option<String>,
}

/// Whether a file is a desktop entry, by its name.
pub open spec fn is_entry(name: Seq<char>) -> bool {
    stem_and_extension(name).1 == Some("desktop"@)
}

/// Whether a file is a desktop entry, by its name.
pub fn is_desktop_file(name: &str) -> (r: bool)
    ensures
        r == is_entry(name@),
{
    let chars = chars_of(name);
    match split_name(chars.as_slice()).1 {
        Some(extension) => is_text(extension, "desktop"),
        None => false,
    }
}

/// What an application may be called by a desktop entry, in lower case: the name
/// of the file, and the names that it gives.
pub open spec fn file_keys(file: DesktopFile) -> Seq<Seq<char>> {
    if is_entry(file.name@) {
        seq![lowercase(stem_and_extension(file.name@).0)] + match file.text {
            Some(text) => entry_names(text@),
            None => Seq::empty(),
        }
    } else {
        Seq::empty()
    }
}

/// `index` with a path for each of some keys; keys that it has stay.
pub open spec fn with_keys(
    index: Map<Seq<char>, Seq<char>>,
    keys: Seq<Seq<char>>,
    path: Seq<char>,
) -> Map<Seq<char>, Seq<char>>
    decreases keys.len(),
{
    if keys.len() == 0 {
        index
    } else {
        let front = with_keys(index, keys.drop_last(), path);
        if front.contains_key(keys.last()) {
            front
        } else {
            front.insert(keys.last(), path)
        }
    }
}

/// The desktop entries by what they call their applications. Of two entries
/// with the same name the first counts.
pub open spec fn indexed(files: Seq<DesktopFile>) -> Map<Seq<char>, Seq<char>>
    decreases files.len(),
{
    if files.len() == 0 {
        Map::empty()
    } else {
        let file = files.last();
        with_keys(indexed(files.drop_last()), file_keys(file), joined(file.dir@, file.name@))
    }
}

/// The paths of desktop entries, by what they call their applications.
pub struct DesktopIndex {
    paths: StringHashMap<String>,
}

impl DesktopIndex {
    pub closed spec fn entries(self) -> Map<Seq<char>, Seq<char>> {
        self.paths@.map_values(|p: String| p@)
    }

    fn add_key(&mut self, key: String, path: &String)
        ensures
            final(self).entries() == if old(self).entries().contains_key(key@) {
                old(self).entries()
            } else {
                old(self).entries().insert(key@, path@)
            },
    {
        if !self.paths.contains_key(key.as_str()) {
            self.paths.insert(key, path.clone());
            assert(self.entries() =~= old(self).entries().insert(key@, path@));
        }
    }

    /// The path of the desktop entry with this name.
    pub fn get(&self, key: &str) -> (r: Option<&String>)
        ensures
            match r {
                Some(path) => self.entries().contains_key(key@) && self.entries()[key@] == path@,
                None => !self.entries().contains_key(key@),
            },
    {
        self.paths.get(key)
    }
}

fn add_keys(index: &mut DesktopIndex, keys: Vec<String>, path: &String)
    ensures
        final(index).entries() == with_keys(old(index).entries(), texts(keys@), path@),
{
    let ghost all = texts(keys@);
    let mut i: usize = 0;
    assert(all.take(0) =~= Seq::empty());
    while i < keys.len()
        invariant
            i <= keys@.len(),
            all == texts(keys@),
            index.entries() == with_keys(old(index).entries(), all.take(i as int), path@),
        decreases keys@.len() - i,
    {
        assert(all.take(i + 1).drop_last() =~= all.take(i as int));
        assert(all.take(i + 1).last() == keys@[i as int]@);
        index.add_key(keys[i].clone(), path);
        i = i + 1;
    }
    assert(all.take(i as int) =~= all);
}

/// The keys of one file.
fn keys_of(file: &DesktopFile) -> (r: Vec<String>)
    ensures
        texts(r@) == file_keys(*file),
{
    let name = chars_of(file.name.as_str());
    let (stem, extension) = split_name(name.as_slice());
    let mut r: Vec<String> = Vec::new();
    let entry: bool = match extension {
        Some(e) => is_text(e, "desktop"),
        None => false,
    };
    if !entry {
        assert(texts(r@) =~= file_keys(*file));
        return r;
    }
    let key = to_lowercase(text_of(stem).as_str());
    r.push(key);
    let ghost first = seq![key@];
    assert(texts(r@) =~= first);
    if let Some(text) = &file.text {
        let mut more = desktop_keys(text.as_str());
        let ghost names = more@;
        let ghost before = r@;
        r.append(&mut more);
        assert(texts(r@) =~= texts(before) + texts(names));
    }
    assert(texts(r@) =~= file_keys(*file));
    r
}

/// Collects the desktop entries of some directories, given in order.
pub fn build_desktop_index(files: &[DesktopFile]) -> (r: DesktopIndex)
    ensures
        r.entries() == indexed(files@),
{
    let mut r = DesktopIndex { paths: StringHashMap::new() };
    let mut i: usize = 0;
    assert(r.entries() =~= indexed(files@.take(0)));
    while i < files.len()
        invariant
            i <= files@.len(),
            r.entries() == indexed(files@.take(i as int)),
        decreases files@.len() - i,
    {
        let file: &DesktopFile = &files[i];
        let path = join(file.dir.as_str(), file.name.as_str());
        let keys = keys_of(file);
        add_keys(&mut r, keys, &path);
        assert(files@.take(i + 1).drop_last() =~= files@.take(i as int));
        i = i + 1;
    }
    assert(files@.take(i as int) =~= files@);
    r
}

/// Whether `r` is the first of some paths of which `is_file` says that it is a
/// file; nothing, where it says so of none.
pub open spec fn is_first_file<F: Fn(&String) -> bool>(
    candidates: Seq<String>,
    is_file: F,
    r: Option<Seq<char>>,
) -> bool {
    match r {
        Some(path) => exists|i: int|
            {
                &&& 0 <= i < candidates.len()
                &&& (#[trigger] candidates[i])@ == path
                &&& is_file.ensures((&candidates[i],), true)
                &&& forall|j: int|
                    0 <= j < i ==> is_file.ensures((&#[trigger] candidates[j],), false)
            },
        None => forall|j: int|
            0 <= j < candidates.len() ==> is_file.ensures((&#[trigger] candidates[j],), false),
    }
}

/// The first of some paths that is a file.
pub fn first_file<F: Fn(&String) -> bool>(candidates: Vec<String>, is_file: &F) -> (r: Option<
    String,
>)
    requires
        forall|p: &String| #[trigger] is_file.requires((p,)),
    ensures
        is_first_file(candidates@, *is_file, crate::seqs::text_of_option(r)),
{
    let mut i: usize = 0;
    while i < candidates.len()
        invariant
            i <= candidates@.len(),
            forall|p: &String| #[trigger] is_file.requires((p,)),
            forall|j: int|
                0 <= j < i ==> is_file.ensures((&#[trigger] candidates@[j],), false),
        decreases candidates@.len() - i,
    {
        if is_file(&candidates[i]) {
            return Some(candidates[i].clone());
        }
        i = i + 1;
    }
    None
}

/// Where the desktop entry of an application is looked for by its file name.
pub open spec fn entry_paths(app_id: Seq<char>, dirs: Seq<Seq<char>>) -> Seq<Seq<char>> {
    dirs.map_values(|dir: Seq<char>| joined(dir, app_id + ".desktop"@))
}

/// Whether an index is the one that there was, or, where there was none, one
/// that `build` made.
pub open spec fn is_kept_or_built<I: FnOnce() -> DesktopIndex>(
    before: Option<DesktopIndex>,
    build: I,
    index: DesktopIndex,
) -> bool {
    match before {
        Some(kept) => index == kept,
        None => build.ensures((), index),
    }
}

/// The desktop entry that calls an application by this name, in any case.
pub open spec fn entry_named(
    entries: Map<Seq<char>, Seq<char>>,
    app_id: Seq<char>,
) -> Option<Seq<char>> {
    if entries.contains_key(lowercase(app_id)) {
        Some(entries[lowercase(app_id)])
    } else {
        None
    }
}

/// Finds the desktop entry of an application: by its file name, or else by what
/// the entries call their applications. The index over all entries is built
/// when it is needed first, and kept from then on.
pub fn find_desktop_file<F: Fn(&String) -> bool, I: FnOnce() -> DesktopIndex>(
    app_id: &str,
    dirs: &[String],
    is_file: &F,
    index: &mut Option<DesktopIndex>,
    build: I,
) -> (r: Option<String>)
    requires
        forall|p: &String| #[trigger] is_file.requires((p,)),
        build.requires(()),
    ensures
        exists|candidates: Seq<String>, found: Option<Seq<char>>|
            {
                &&& texts(candidates) == entry_paths(app_id@, texts(dirs@))
                &&& #[trigger] is_first_file(candidates, *is_file, found)
                &&& match found {
                    Some(path) => {
                        &&& crate::seqs::text_of_option(r) == Some(path)
                        &&& *final(index) == *old(index)
                    },
                    None => {
                        &&& (*final(index)) is Some
                        &&& is_kept_or_built(*old(index), build, (*final(index))->0)
                        &&& crate::seqs::text_of_option(r) == entry_named(
                            ((*final(index))->0).entries(),
                            app_id@,
                        )
                    },
                }
            },
{
    let name = append_text(app_id, ".desktop");
    let ghost all = entry_paths(app_id@, texts(dirs@));
    let mut candidates: Vec<String> = Vec::new();
    let mut i: usize = 0;
    assert(texts(candidates@) =~= all.take(0));
    while i < dirs.len()
        invariant
            i <= dirs@.len(),
            name@ == app_id@ + ".desktop"@,
            all == entry_paths(app_id@, texts(dirs@)),
            texts(candidates@) == all.take(i as int),
        decreases dirs@.len() - i,
    {
        let ghost before = candidates@;
        let path = join(dirs[i].as_str(), name.as_str());
        let ghost added = path@;
        candidates.push(path);
        assert(texts(candidates@) =~= texts(before).push(added));
        assert(all.take(i + 1) =~= all.take(i as int).push(added));
        i = i + 1;
    }
    assert(all.take(i as int) =~= all);
    let ghost list = candidates@;
    let found = first_file(candidates, is_file);
    assert(is_first_file(list, *is_file, crate::seqs::text_of_option(found)));
    match found {
        Some(path) => Some(path),
        None => {
            if index.is_none() {
                *index = Some(build());
            }
            let key = to_lowercase(app_id);
            match &*index {
                Some(entries) => match entries.get(key.as_str()) {
                    Some(path) => Some(path.clone()),
                    None => None,
                },
                None => None,
            }
        },
    }
}

/// The data directories that `XDG_DATA_DIRS` names, or the usual ones.
pub open spec fn data_dirs(value: Option<Seq<char>>) -> Seq<Seq<char>> {
    split(
        match value {
            Some(v) => v,
            None => "/usr/local/share:/usr/share"@,
        },
        ':',
    ).filter(|d: Seq<char>| d.len() > 0)
}

/// A text that may be missing.
pub open spec fn optional(s: Option<&str>) -> Option<Seq<char>> {
    match s {
        Some(s) => Some(s@),
        None => None,
    }
}

/// The data directories that `XDG_DATA_DIRS` names, or the usual ones.
pub fn data_dirs_of(value: Option<&str>) -> (r: Vec<String>)
    ensures
        texts(r@) == data_dirs(optional(value)),
{
    let list: &str = match value {
        Some(v) => v,
        None => "/usr/local/share:/usr/share",
    };
    let chars = chars_of(list);
    let dirs = split_at_all(chars.as_slice(), ':');
    let ghost all = split(list@, ':');
    let ghost pred = |d: Seq<char>| d.len() > 0;
    let mut r: Vec<String> = Vec::new();
    let mut i: usize = 0;
    proof {
        reveal(Seq::filter);
    }
    assert(texts(r@) =~= all.take(0).filter(pred));
    while i < dirs.len()
        invariant
            i <= dirs@.len(),
            all == pieces(dirs@),
            pred == (|d: Seq<char>| d.len() > 0),
            texts(r@) == all.take(i as int).filter(pred),
        decreases dirs@.len() - i,
    {
        let ghost before = r@;
        let ghost piece = dirs@[i as int]@;
        if dirs[i].len() > 0 {
            r.push(text_of(dirs[i].as_slice()));
            assert(texts(r@) =~= texts(before).push(piece));
        }
        proof {
            reveal(Seq::filter);
            assert(all.take(i + 1).drop_last() =~= all.take(i as int));
            assert(all.take(i + 1).last() == piece);
        }
        i = i + 1;
    }
    assert(all.take(i as int) =~= all);
    r
}

/// The directories of desktop entries, as they come: those of the user, those
/// of the system, and those of packages.
pub open spec fn entry_dirs(
    home: Option<Seq<char>>,
    data_home: Option<Seq<char>>,
    dirs: Option<Seq<char>>,
) -> Seq<Seq<char>> {
    let system = data_dirs(dirs).map_values(|d: Seq<char>| joined(d, "applications"@));
    (user_dirs(home, data_home) + system).push("/var/lib/flatpak/exports/share/applications"@)
}

/// The directories of desktop entries of the user.
pub open spec fn user_dirs(home: Option<Seq<char>>, data_home: Option<Seq<char>>) -> Seq<Seq<char>> {
    let own = match home {
        Some(h) => seq![
            joined(h, ".local/share/applications"@),
            joined(h, ".local/share/flatpak/exports/share/applications"@),
        ],
        None => Seq::empty(),
    };
    match data_home {
        Some(d) => if d.len() > 0 {
            own.push(joined(d, "applications"@))
        } else {
            own
        },
        None => own,
    }
}

/// Whether two paths are the same.
pub open spec fn is_same_path(a: Seq<char>, b: Seq<char>) -> bool {
    parts(vstd::utf8::encode_utf8(a)) == parts(vstd::utf8::encode_utf8(b))
}

/// Some paths, those left out that are the same as the one before.
pub open spec fn without_repeats(s: Seq<String>) -> Seq<String>
    decreases s.len(),
{
    if s.len() == 0 {
        s
    } else {
        let front = without_repeats(s.drop_last());
        if front.len() > 0 && is_same_path(front.last()@, s.last()@) {
            front
        } else {
            front.push(s.last())
        }
    }
}

fn collect_dirs(home: Option<&str>, data_home: Option<&str>, dirs: Option<&str>) -> (r: Vec<String>)
    ensures
        texts(r@) == entry_dirs(optional(home), optional(data_home), optional(dirs)),
{
    let mut r: Vec<String> = Vec::new();
    if let Some(h) = home {
        r.push(join(h, ".local/share/applications"));
        r.push(join(h, ".local/share/flatpak/exports/share/applications"));
    }
    if let Some(d) = data_home {
        if chars_of(d).len() > 0 {
            r.push(join(d, "applications"));
        }
    }
    let ghost start = texts(r@);
    assert(start =~= user_dirs(optional(home), optional(data_home)));
    let list = data_dirs_of(dirs);
    let ghost system = data_dirs(optional(dirs)).map_values(
        |d: Seq<char>| joined(d, "applications"@),
    );
    let mut i: usize = 0;
    assert(texts(r@) =~= start + system.take(0));
    while i < list.len()
        invariant
            i <= list@.len(),
            texts(list@) == data_dirs(optional(dirs)),
            system == data_dirs(optional(dirs)).map_values(
                |d: Seq<char>| joined(d, "applications"@),
            ),
            texts(r@) == start + system.take(i as int),
        decreases list@.len() - i,
    {
        let ghost before = r@;
        let path = join(list[i].as_str(), "applications");
        let ghost added = path@;
        assert(texts(list@)[i as int] == list@[i as int]@);
        assert(added == system[i as int]);
        r.push(path);
        assert(texts(r@) =~= texts(before).push(added));
        assert(system.take(i + 1) =~= system.take(i as int).push(added));
        assert(texts(r@) =~= start + system.take(i + 1));
        i = i + 1;
    }
    assert(system.take(i as int) =~= system);
    let ghost before = r@;
    r.push("/var/lib/flatpak/exports/share/applications".to_owned());
    assert(texts(r@) =~= texts(before).push("/var/lib/flatpak/exports/share/applications"@));
    r
}

/// The directories of desktop entries, in order, each once.
pub fn applications_dirs(home: Option<&str>, data_home: Option<&str>, dirs: Option<&str>) -> (r: Vec<
    String,
>)
    ensures
        exists|all: Seq<String>| #[trigger]
            texts(all) == entry_dirs(optional(home), optional(data_home), optional(dirs))
                && texts(r@) == texts(
                without_repeats(crate::order::sorted::<String, ByPath>(all)),
            ),
{
    let all = collect_dirs(home, data_home, dirs);
    let mut refs: Vec<&String> = Vec::new();
    let mut i: usize = 0;
    while i < all.len()
        invariant
            i <= all@.len(),
            refs@.unref() == all@.take(i as int),
        decreases all@.len() - i,
    {
        let ghost before = refs@.unref();
        refs.push(&all[i]);
        assert(refs@.unref() =~= before.push(all@[i as int]));
        i = i + 1;
        assert(all@.take(i as int) =~= all@.take(i - 1).push(all@[i - 1]));
    }
    assert(all@.take(i as int) =~= all@);
    let list = sort::<String, ByPath>(refs.as_slice());
    let ghost order = list@.unref();
    let mut r: Vec<String> = Vec::new();
    let mut k: usize = 0;
    assert(r@ =~= without_repeats(order.take(0)));
    while k < list.len()
        invariant
            k <= list@.len(),
            order == list@.unref(),
            r@ == without_repeats(order.take(k as int)),
        decreases list@.len() - k,
    {
        assert(order.take(k + 1).drop_last() =~= order.take(k as int));
        assert(order.take(k + 1).last() == *list@[k as int]);
        let repeated: bool = r.len() > 0 && same_path(r[r.len() - 1].as_str(), list[k].as_str());
        if !repeated {
            r.push(list[k].clone());
        }
        k = k + 1;
    }
    assert(order.take(k as int) =~= order);
    r
}

proof fn lemma_keys_stay(
    index: Map<Seq<char>, Seq<char>>,
    keys: Seq<Seq<char>>,
    path: Seq<char>,
    key: Seq<char>,
)
    requires
        index.contains_key(key),
    ensures
        with_keys(index, keys, path).contains_key(key),
        with_keys(index, keys, path)[key] == index[key],
    decreases keys.len(),
{
    if keys.len() > 0 {
        lemma_keys_stay(index, keys.drop_last(), path, key);
    }
}

/// Of the entries that give an application the same name the first counts: what
/// is found among some files is found there still when more follow.
pub proof fn first_entry_counts(files: Seq<DesktopFile>, n: int, key: Seq<char>)
    requires
        0 <= n <= files.len(),
        indexed(files.take(n)).contains_key(key),
    ensures
        indexed(files).contains_key(key),
        indexed(files)[key] == indexed(files.take(n))[key],
    decreases files.len(),
{
    if n < files.len() {
        assert(files.drop_last().take(n) =~= files.take(n));
        first_entry_counts(files.drop_last(), n, key);
        let file = files.last();
        lemma_keys_stay(
            indexed(files.drop_last()),
            file_keys(file),
            joined(file.dir@, file.name@),
            key,
        );
    } else {
        assert(files.take(n) =~= files);
    }
}

/// A list of paths in order, without those that are the same as the one before,
/// holds no path twice.
pub proof fn paths_are_listed_once(s: Seq<String>, i: int, j: int)
    requires
        crate::order::in_order::<String, ByPath>(s),
        0 <= i < j < without_repeats(s).len(),
    ensures
        !is_same_path(without_repeats(s)[i]@, without_repeats(s)[j]@),
{
    lemma_listed_once(s);
}

proof fn lemma_listed_once(s: Seq<String>)
    requires
        crate::order::in_order::<String, ByPath>(s),
    ensures
        ({
            let d = without_repeats(s);
            &&& s.len() > 0 ==> forall|i: int|
                0 <= i < d.len() ==> ByPath::le(#[trigger] d[i], s.last())
            &&& crate::order::in_order::<String, ByPath>(d)
            &&& forall|i: int, j: int|
                0 <= i < j < d.len() ==> !is_same_path(#[trigger] d[i]@, #[trigger] d[j]@)
        }),
    decreases s.len(),
{
    if s.len() > 0 {
        let front = s.drop_last();
        let last = s.last();
        lemma_listed_once(front);
        let d = without_repeats(front);
        let r = without_repeats(s);
        ByPath::total(last, last);
        assert forall|i: int| 0 <= i < d.len() implies ByPath::le(#[trigger] d[i], last) by {
            assert(ByPath::le(front[front.len() - 1], last)) by {
                assert(ByPath::le(s[s.len() - 2], s[s.len() - 1]));
            }
            ByPath::transitive(d[i], front.last(), last);
        }
        if r.len() > d.len() {
            assert forall|i: int| 0 <= i < d.len() implies !is_same_path(
                #[trigger] d[i]@,
                last@,
            ) by {
                if is_same_path(d[i]@, last@) && i < d.len() - 1 {
                    let a = parts(vstd::utf8::encode_utf8(d[i]@));
                    let b = parts(vstd::utf8::encode_utf8(d.last()@));
                    assert(ByPath::le(d[i], d[d.len() - 1]));
                    assert(ByPath::le(d[d.len() - 1], last));
                    crate::paths::lemma_parts_antisymmetric(a, b);
                    assert(is_same_path(d[i]@, d[d.len() - 1]@));
                }
            }
        }
    }
}

} // verus!
