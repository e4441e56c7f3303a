//! How icons are found.

use std::cell::{Cell, RefCell};

use nirimap::desktop::{
    applications_dirs, build_desktop_index, data_dirs_of, desktop_icon_name, desktop_keys,
    find_desktop_file, first_file, is_desktop_file, DesktopFile, DesktopIndex,
};
use nirimap::icons::{has_icon, icon_kind, resolve_icon, with_icon, IconCache, IconKind};
use nirimap::paths::{join, name_of, replace_extension, same_path, split_name};
use nirimap::text::{chars_of, append_text, same_text, split_at_all, strip_prefix, text_of, trim};
use nirimap::themes::{
    find_icon_file, icon_bases, parse_number, size_dirs_descending, try_icon_in, DirListing,
    ThemeListing,
};
use tiny_skia::Pixmap;

const ENTRY: &str = "# a comment = 1\n\
    [Desktop Entry]\r\n\
    Name = Text Editor\n\
    Name[de]=Texteditor  \n\
    GenericName=Editor\n\
    StartupWMClass=org.Example.Edit\n\
    Icon=\n\
    Icon=  edit-icon \n\
    Icon=other\n";

fn file(dir: &str, name: &str, text: Option<&str>) -> DesktopFile {
    DesktopFile { dir: dir.into(), name: name.into(), text: text.map(Into::into) }
}

fn dir(name: &str, subdirs: &[&str]) -> DirListing {
    DirListing { name: name.into(), subdirs: subdirs.iter().map(|s| (*s).to_string()).collect() }
}

#[test]
fn desktop_entries_name_their_application() {
    assert_eq!(desktop_keys(ENTRY), vec!["text editor", "texteditor", "org.example.edit"]);
    assert_eq!(desktop_icon_name(ENTRY).as_deref(), Some("edit-icon"));
    assert_eq!(desktop_icon_name("[Desktop Entry]\nName=x\n"), None);
    assert!(desktop_keys("Name\nName[=x\n#Name=y").is_empty());
}

#[test]
fn the_first_desktop_entry_counts() {
    let index = build_desktop_index(&[
        file("/a", "Edit.desktop", Some(ENTRY)),
        file("/a", "notes.txt", Some("Name=Notes")),
        file("/b", "edit.desktop", Some("Name=Other Editor")),
        file("/b", "unreadable.desktop", None),
    ]);
    let at = |key: &str| index.get(key).cloned();
    assert_eq!(at("edit").as_deref(), Some("/a/Edit.desktop"));
    assert_eq!(at("text editor").as_deref(), Some("/a/Edit.desktop"));
    assert_eq!(at("other editor").as_deref(), Some("/b/edit.desktop"));
    assert_eq!(at("unreadable").as_deref(), Some("/b/unreadable.desktop"));
    assert_eq!(at("notes"), None);
    assert!(is_desktop_file("a.desktop"));
    assert!(!is_desktop_file(".desktop"));
    assert!(!is_desktop_file("desktop"));
}

#[test]
fn desktop_files_are_found_by_name_and_by_index() {
    let build = || build_desktop_index(&[file("/a", "edit.desktop", Some(ENTRY))]);
    let never = || -> DesktopIndex { panic!("no index is needed") };
    let dirs = vec!["/a".to_string(), "/b/".to_string()];
    let exists = |p: &String| p == "/b/Foo.desktop";
    let mut index = None;
    assert_eq!(
        find_desktop_file("Foo", &dirs, &exists, &mut index, never).as_deref(),
        Some("/b/Foo.desktop")
    );
    assert!(index.is_none());
    // The index knows names in lower case. It is built once.
    assert_eq!(
        find_desktop_file("org.Example.Edit", &dirs, &exists, &mut index, build).as_deref(),
        Some("/a/edit.desktop")
    );
    assert!(index.is_some());
    assert_eq!(find_desktop_file("nothing", &dirs, &exists, &mut index, never), None);
    assert_eq!(
        find_desktop_file("EDIT", &dirs, &exists, &mut index, never).as_deref(),
        Some("/a/edit.desktop")
    );
}

#[test]
fn directories_of_entries_are_in_order_and_listed_once() {
    assert_eq!(
        applications_dirs(Some("/home/u"), Some("/home/u/.local/share"), Some("/usr/share:/a-b:/a:")),
        vec![
            "/a/applications",
            "/a-b/applications",
            "/home/u/.local/share/applications",
            "/home/u/.local/share/flatpak/exports/share/applications",
            "/usr/share/applications",
            "/var/lib/flatpak/exports/share/applications",
        ]
    );
    assert_eq!(
        applications_dirs(None, Some(""), None),
        vec![
            "/usr/local/share/applications",
            "/usr/share/applications",
            "/var/lib/flatpak/exports/share/applications",
        ]
    );
    assert_eq!(data_dirs_of(Some("/x::/y")), vec!["/x", "/y"]);
}

#[test]
fn an_icon_is_looked_for_in_one_directory() {
    let lower = |p: &String| p == "/d/firefox.svg";
    assert_eq!(try_icon_in("/d", "Firefox", &lower).as_deref(), Some("/d/firefox.svg"));
    let all = |_: &String| true;
    assert_eq!(try_icon_in("/d", "Firefox", &all).as_deref(), Some("/d/Firefox.png"));
    let none = |_: &String| false;
    assert_eq!(try_icon_in("/d", "Firefox", &none), None);
    assert_eq!(first_file(vec!["a".into(), "b".into()], &|p: &String| p == "b").as_deref(), Some("b"));
}

#[test]
fn icons_are_looked_for_in_order() {
    let themes = |_: &String| {
        vec![
            ThemeListing { name: "Zed".into(), entries: vec![] },
            ThemeListing {
                name: "Alpha".into(),
                entries: vec![dir("symbolic", &["actions", "apps"]), dir("scalable", &["mimes", "apps"])],
            },
            ThemeListing {
                name: "hicolor".into(),
                entries: vec![
                    dir("16x16", &["apps"]),
                    dir("48x48", &["places", "apps"]),
                    dir("cursors", &["apps"]),
                    dir("32x16", &["apps"]),
                ],
            },
        ]
    };
    let never = |_: &String| -> Vec<ThemeListing> { panic!("nothing is to be listed") };
    let tried = RefCell::new(Vec::new());
    let none = |p: &String| {
        tried.borrow_mut().push(p.clone());
        false
    };
    let paths = vec!["/icons".to_string()];
    assert_eq!(find_icon_file(" x ", &paths, &themes, &none), None);
    let found: Vec<String> = tried.take().into_iter().step_by(4).collect();
    assert_eq!(
        found,
        vec![
            "/icons/hicolor/48x48/apps/x.png",
            "/icons/hicolor/48x48/places/x.png",
            "/icons/hicolor/16x16/apps/x.png",
            "/icons/Alpha/scalable/apps/x.png",
            "/icons/Alpha/scalable/mimes/x.png",
            "/icons/Alpha/symbolic/actions/x.png",
            "/icons/Alpha/symbolic/apps/x.png",
            "/icons/x.png",
        ]
    );
    assert_eq!(find_icon_file("/opt/app/logo.ico", &paths, &never, &none), None);
    assert_eq!(tried.take(), vec!["/opt/app/logo.ico", "/opt/app/logo.png", "/opt/app/logo.svg"]);
    assert_eq!(find_icon_file("  ", &paths, &never, &none), None);
    assert!(tried.take().is_empty());
    let svg = |p: &String| p.ends_with(".svg");
    assert_eq!(find_icon_file("/opt/logo", &paths, &never, &svg).as_deref(), Some("/opt/logo.svg"));
    assert_eq!(find_icon_file("relative", &[], &never, &svg), None);
    // No directory is listed after the one with the icon.
    let first_only = |p: &String| {
        assert_eq!(p, "/icons");
        Vec::new()
    };
    let two = vec!["/icons".to_string(), "/more".to_string()];
    assert_eq!(
        find_icon_file("y", &two, &first_only, &svg).as_deref(),
        Some("/icons/y.svg")
    );
}

#[test]
fn directories_by_size_come_largest_first() {
    let entries = vec![dir("16x16", &[]), dir("scalable", &[]), dir("256x256", &[]), dir("+32x32", &[])];
    let names: Vec<&str> =
        size_dirs_descending(&entries).into_iter().map(|d| d.name.as_str()).collect();
    assert_eq!(names, vec!["256x256", "+32x32", "16x16"]);
    let number = |s: &str| parse_number(&chars_of(s));
    assert_eq!(number("4294967295"), Some(u32::MAX));
    assert_eq!(number("4294967296"), None);
    assert_eq!(number("00012"), Some(12));
    assert_eq!(number("+"), None);
    assert_eq!(number(""), None);
    assert_eq!(number("-1"), None);
    assert_eq!(number("48@2"), None);
}

#[test]
fn directories_of_icons() {
    assert_eq!(
        icon_bases(Some("/home/u"), Some("/usr/share")),
        vec![
            "/home/u/.local/share/icons",
            "/usr/share/icons",
            "/usr/share/pixmaps",
            "/home/u/.local/share/pixmaps",
        ]
    );
    assert_eq!(
        icon_bases(None, None),
        vec!["/usr/local/share/icons", "/usr/share/icons", "/usr/share/pixmaps"]
    );
}

#[test]
fn each_application_is_looked_for_once() {
    let mut icons = IconCache::default();
    let calls = Cell::new(0);
    let nothing = |_: &str| {
        calls.set(calls.get() + 1);
        None
    };
    let found = |id: &str| {
        assert_eq!(id, "app");
        Pixmap::new(3, 4)
    };
    let unasked = |_: &str| -> Option<Pixmap> { panic!("asked twice") };
    assert!(!has_icon(&mut icons, "nirimap-test-nonexistent", &nothing));
    assert_eq!(calls.get(), 1);
    icons.resolve_into("nirimap-test-nonexistent", &unasked);
    assert!(!has_icon(&mut icons, "nirimap-test-nonexistent", &unasked));
    let missing = "nirimap-test-nonexistent";
    assert!(!with_icon(&mut icons, missing, &unasked, |i: Option<&Pixmap>| i.is_some()));

    let width = |i: Option<&Pixmap>| i.map(|p| p.width());
    assert_eq!(with_icon(&mut icons, "app", &found, width), Some(3));
    assert!(has_icon(&mut icons, "app", &unasked));
    assert_eq!(with_icon(&mut icons, "app", &unasked, width), Some(3));

    icons.insert("other", Pixmap::new(5, 5).unwrap());
    assert_eq!(icons.get("other").map(|p| p.height()), Some(5));
    icons.resolve_into("other", &unasked);
    assert_eq!(icons.get("other").map(|p| p.height()), Some(5));
    assert!(icons.get("never").is_none());
}

#[test]
fn the_icon_of_the_entry_comes_first() {
    let load = |name: &String| if name == "entry" { Pixmap::new(1, 1) } else { Pixmap::new(2, 2) };
    let icon = resolve_icon("app", Some("entry".into()), load).unwrap();
    assert_eq!(icon.width(), 1);
    let icon = resolve_icon("app", None, load).unwrap();
    assert_eq!(icon.width(), 2);
    let only_app = |name: &String| if name == "app" { Pixmap::new(3, 3) } else { None };
    assert_eq!(resolve_icon("app", Some("entry".into()), only_app).unwrap().width(), 3);
    assert!(resolve_icon("app", Some("entry".into()), |_: &String| None).is_none());
}

#[test]
fn paths_are_taken_apart() {
    assert_eq!(join("/a", "b"), "/a/b");
    assert_eq!(join("/a/", "b"), "/a/b");
    assert_eq!(join("/a", "/b"), "/b");
    assert_eq!(join("", "b"), "b");
    assert_eq!(replace_extension("/a/b.tar.gz", "png"), "/a/b.tar.png");
    assert_eq!(replace_extension("/a/b/", "png"), "/a/b.png");
    assert_eq!(replace_extension("/a/b/.", "png"), "/a/b.png");
    assert_eq!(replace_extension("/a/.hidden", "png"), "/a/.hidden.png");
    assert_eq!(replace_extension("/", "png"), "/");
    assert_eq!(replace_extension("/a/..", "png"), "/a/..");
    for path in ["/a/b.tar.gz", "/a/b/", "/a/b/.", "/a/.hidden", "/", "/a/..", "/a/b."] {
        assert_eq!(
            replace_extension(path, "svg"),
            std::path::Path::new(path).with_extension("svg").to_str().unwrap()
        );
        let chars = chars_of(path);
        assert_eq!(
            name_of(&chars).map(text_of),
            std::path::Path::new(path).file_name().map(|n| n.to_str().unwrap().to_string())
        );
    }
    let chars = chars_of("a.b.c");
    let (stem, extension) = split_name(&chars);
    assert_eq!((text_of(stem).as_str(), extension.map(text_of).as_deref()), ("a.b", Some("c")));
    for (a, b) in [("/usr//share", "/usr/share"), ("/usr/./share/", "/usr/share"), ("./a", "a")] {
        assert_eq!(same_path(a, b), std::path::Path::new(a) == std::path::Path::new(b));
    }
    assert_eq!(icon_kind("/x/a.png"), IconKind::Png);
    assert_eq!(icon_kind("/x.png/a.svg"), IconKind::Svg);
    assert_eq!(icon_kind("/x/a.PNG"), IconKind::Other);
    assert_eq!(icon_kind("/x/.png"), IconKind::Other);
}

#[test]
fn texts_are_taken_apart() {
    assert!(same_text("a\u{e9}", "a\u{e9}") && !same_text("a", "b"));
    assert_eq!(append_text("ab", "c"), "abc");
    assert_eq!(text_of(trim(&chars_of(" \t x y\u{a0}\n"))), "x y");
    let parts: Vec<String> =
        split_at_all(&chars_of("a::b"), ':').iter().map(|p| text_of(p)).collect();
    assert_eq!(parts, vec!["a", "", "b"]);
    assert_eq!(strip_prefix(&chars_of("Icon=x"), "Icon=").map(text_of).as_deref(), Some("x"));
    assert_eq!(strip_prefix(&chars_of("Ico"), "Icon=").map(text_of), None);
    // Blanks are those of `char::is_whitespace`.
    for c in (0..0x3100u32).filter_map(char::from_u32) {
        let s = c.to_string();
        assert_eq!(trim(&chars_of(&s)).is_empty(), c.is_whitespace(), "{c:?}");
    }
}
