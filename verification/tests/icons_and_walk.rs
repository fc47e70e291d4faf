use std::cell::RefCell;
use std::collections::HashMap;

use brunch::desktop_files::{DesktopFileWalk, DirectoryChild};
use brunch::entry::{DesktopEntry, Field, Group};
use brunch::icons::{
    data_roots, flatpak_appid, has_supported_extension, icon_format, IconFormat, IconResolver,
    Listing,
};
use brunch::paths::{extension_of, is_path_less, sorted_paths};

fn texts(items: &[&str]) -> Vec<String> {
    items.iter().map(|s| s.to_string()).collect()
}

fn icon_entry(path: &str, icon: Option<&str>) -> DesktopEntry {
    let mut fields = vec![Field { key: "Name".to_string(), value: "App".to_string(), localized: Vec::new() }];
    if let Some(icon) = icon {
        fields.push(Field { key: "Icon".to_string(), value: icon.to_string(), localized: Vec::new() });
    }
    DesktopEntry {
        appid: "app".to_string(),
        path: path.to_string(),
        groups: vec![Group { name: "Desktop Entry".to_string(), fields }],
    }
}

/// A file system of directories, each with its subdirectories and files.
struct FakeTree {
    dirs: HashMap<String, (Vec<String>, Vec<String>)>,
    reads: RefCell<Vec<String>>,
}

impl FakeTree {
    fn new(spec: &[(&str, &[&str], &[&str])]) -> Self {
        let mut dirs = HashMap::new();
        for (dir, subdirs, files) in spec {
            let subdirs = subdirs.iter().map(|s| format!("{dir}/{s}")).collect();
            dirs.insert(dir.to_string(), (subdirs, texts(files)));
        }
        FakeTree { dirs, reads: RefCell::new(Vec::new()) }
    }

    fn read(&self, dir: &String) -> Listing {
        self.reads.borrow_mut().push(dir.clone());
        match self.dirs.get(dir) {
            Some((directories, files)) => Listing { directories: directories.clone(), files: files.clone() },
            None => Listing { directories: Vec::new(), files: Vec::new() },
        }
    }
}

#[test]
fn extensions_follow_std_path_rules() {
    assert_eq!(extension_of("/a/b.tar.gz"), Some("gz".to_string()));
    assert_eq!(extension_of("/a/.hidden"), None);
    assert_eq!(extension_of("/a/noext"), None);
    assert_eq!(extension_of("/a/trailing."), Some("".to_string()));
    assert_eq!(extension_of("/a/b.svg/"), Some("svg".to_string()));
    assert!(has_supported_extension("icon.svgz"));
    assert!(has_supported_extension("x/icon.jpeg"));
    assert!(!has_supported_extension("icon.gif"));
    assert!(!has_supported_extension("firefox"));
}

#[test]
fn icon_formats_by_extension() {
    assert!(icon_format(Some("/i/a.svg")) == Some(IconFormat::Svg));
    assert!(icon_format(Some("/i/a.png")) == Some(IconFormat::Raster));
    assert!(icon_format(Some("/i/a.jpg")) == Some(IconFormat::Raster));
    assert!(icon_format(Some("/i/a.svgz")).is_none());
    assert!(icon_format(None).is_none());
}

#[test]
fn flatpak_app_ids_come_from_below_the_applications_directory() {
    assert_eq!(
        flatpak_appid("/var/lib/flatpak/exports/share/applications/org.gimp.GIMP.desktop"),
        Some("org.gimp.GIMP".to_string())
    );
    assert_eq!(
        flatpak_appid("/x/applications/applications/nested/app.desktop"),
        Some("nested".to_string())
    );
    assert_eq!(flatpak_appid("/x/applications"), None);
    assert_eq!(flatpak_appid("/x/other/app.desktop"), None);
}

#[test]
fn data_roots_follow_the_xdg_variables() {
    assert_eq!(
        data_roots(Some("/d".to_string()), Some("/h".to_string()), Some("/a::/b:".to_string())),
        texts(&["/d", "/a", "/b"])
    );
    assert_eq!(
        data_roots(None, Some("/home/u".to_string()), None),
        texts(&["/home/u/.local/share", "/usr/local/share", "/usr/share"])
    );
    assert_eq!(data_roots(None, None, Some(String::new())), Vec::<String>::new());
}

#[test]
fn icons_are_found_in_pixmaps_before_themes_and_themes_in_sorted_order() {
    let tree = FakeTree::new(&[
        ("/r1/icons", &["zeta", "alpha"], &[]),
        ("/r1/icons/alpha", &["48x48", "16x16"], &[]),
        ("/r1/icons/alpha/16x16/apps", &[], &["gimp.png"]),
        ("/r1/icons/alpha/48x48/apps", &[], &["gimp.svg"]),
        ("/r1/icons/zeta", &[], &["gimp.png"]),
        ("/r2/pixmaps", &[], &["gimp.xpm", "gimp.png"]),
    ]);
    let read = |dir: &String| tree.read(dir);
    let is_file = |_: &String| false;
    let mut resolver = IconResolver::from_data_roots(texts(&["/r1", "/r2"]));
    let found = resolver.resolve(&icon_entry("/apps/gimp.desktop", Some("gimp")), &read, &is_file);
    assert_eq!(found, Some("/r1/icons/alpha/16x16/apps/gimp.png".to_string()));

    let again = resolver.resolve(&icon_entry("/apps/gimp.desktop", Some("gimp")), &read, &is_file);
    assert_eq!(again, found);
    let reads = tree.reads.borrow().clone();
    let mut unique = reads.clone();
    unique.sort();
    unique.dedup();
    assert_eq!(reads.len(), unique.len());

    let other = resolver.resolve(&icon_entry("/apps/x.desktop", Some("gimp.png")), &read, &is_file);
    assert_eq!(other, Some("/r1/icons/alpha/16x16/apps/gimp.png".to_string()));
    let missing = resolver.resolve(&icon_entry("/apps/x.desktop", Some("nothing")), &read, &is_file);
    assert_eq!(missing, None);
    let none = resolver.resolve(&icon_entry("/apps/x.desktop", None), &read, &is_file);
    assert_eq!(none, None);
}

#[test]
fn absolute_icons_are_used_when_they_are_files() {
    let tree = FakeTree::new(&[]);
    let read = |dir: &String| tree.read(dir);
    let is_file = |p: &String| p == "/opt/app/icon.png";
    let mut resolver = IconResolver::new(Some("/d".to_string()), None, Some(String::new()));
    let found = resolver.resolve(&icon_entry("/apps/a.desktop", Some("/opt/app/icon.png")), &read, &is_file);
    assert_eq!(found, Some("/opt/app/icon.png".to_string()));
    let gone = resolver.resolve(&icon_entry("/apps/a.desktop", Some("/opt/app/gone.png")), &read, &is_file);
    assert_eq!(gone, None);
    assert!(tree.reads.borrow().is_empty());
}

#[test]
fn flatpak_icons_are_found_in_the_active_deployment() {
    let base = "/var/lib/flatpak/app/org.gimp.GIMP";
    let tree = FakeTree::new(&[
        (base, &["x86_64"], &[]),
        ("/var/lib/flatpak/app/org.gimp.GIMP/x86_64", &["stable", "beta"], &[]),
        ("/var/lib/flatpak/app/org.gimp.GIMP/x86_64/stable", &["active"], &[]),
        ("/var/lib/flatpak/app/org.gimp.GIMP/x86_64/beta", &[], &["active"]),
        (
            "/var/lib/flatpak/app/org.gimp.GIMP/x86_64/stable/active/files/share/pixmaps",
            &[],
            &["org.gimp.GIMP.png"],
        ),
    ]);
    let read = |dir: &String| tree.read(dir);
    let is_file = |_: &String| false;
    let mut resolver = IconResolver::from_data_roots(texts(&["/usr/share"]));
    let entry = icon_entry(
        "/var/lib/flatpak/exports/share/applications/org.gimp.GIMP.desktop",
        Some("org.gimp.GIMP"),
    );
    assert_eq!(
        resolver.resolve(&entry, &read, &is_file),
        Some("/var/lib/flatpak/app/org.gimp.GIMP/x86_64/stable/active/files/share/pixmaps/org.gimp.GIMP.png".to_string())
    );
    let not_flatpak = icon_entry("/opt/exports/share/applications/org.gimp.GIMP.desktop", Some("org.gimp.GIMP"));
    assert_eq!(resolver.resolve(&not_flatpak, &read, &is_file), None);
}

fn child(dir: &str, name: &str, key: Option<(u64, u64)>) -> DirectoryChild {
    DirectoryChild { name: name.to_string(), path: format!("{dir}/{name}"), directory: key }
}

#[test]
fn the_walk_lists_files_before_subdirectories_in_name_order_and_enters_each_directory_once() {
    let mut walk = DesktopFileWalk::start("/apps".to_string(), (1, 1));
    let mut read = Vec::new();
    while let Some(dir) = walk.next_directory() {
        read.push(dir.clone());
        let children = match dir.as_str() {
            "/apps" => vec![
                child("/apps", "z.desktop", None),
                child("/apps", "kde", Some((1, 2))),
                child("/apps", "a.desktop", None),
                child("/apps", "loop", Some((1, 1))),
                child("/apps", "b", Some((1, 3))),
                child("/apps", "notes.txt", None),
            ],
            "/apps/b" => vec![child("/apps/b", "again", Some((1, 2))), child("/apps/b", "b.desktop", None)],
            "/apps/kde" => vec![child("/apps/kde", "k.desktop", None)],
            _ => Vec::new(),
        };
        walk.visit(children);
    }
    assert_eq!(read, texts(&["/apps", "/apps/b", "/apps/kde"]));
    assert_eq!(
        walk.paths(),
        &texts(&["/apps/a.desktop", "/apps/z.desktop", "/apps/b/b.desktop", "/apps/kde/k.desktop"])
    );
}

#[test]
fn paths_sort_component_by_component() {
    assert!(is_path_less("/a/3/active", "/a/3.1/active"));
    assert!(!is_path_less("/a/3.1/active", "/a/3/active"));
    assert!(is_path_less("/a/stable/x", "/a/stable-1/x"));
    assert!(is_path_less("/", "/a"));
    assert!(is_path_less("/a/..", "/a/-"));
    assert!(!is_path_less("/a//b", "/a/b"));
    assert_eq!(
        sorted_paths(&texts(&["/d/3.1/active/files/share", "/d/stable-1/x", "/d/3/active/files/share", "/d/stable/x"])),
        texts(&["/d/3/active/files/share", "/d/3.1/active/files/share", "/d/stable/x", "/d/stable-1/x"])
    );
}

#[test]
fn flatpak_branches_are_tried_in_path_order() {
    let tree = FakeTree::new(&[
        ("/f/flatpak/app/org.a.A", &["x86_64"], &[]),
        ("/f/flatpak/app/org.a.A/x86_64", &["3.1", "3"], &[]),
        ("/f/flatpak/app/org.a.A/x86_64/3", &["active"], &[]),
        ("/f/flatpak/app/org.a.A/x86_64/3.1", &["active"], &[]),
        ("/f/flatpak/app/org.a.A/x86_64/3/active/files/share/pixmaps", &[], &["org.a.A.png"]),
        ("/f/flatpak/app/org.a.A/x86_64/3.1/active/files/share/pixmaps", &[], &["org.a.A.png"]),
    ]);
    let read = |dir: &String| tree.read(dir);
    let is_file = |_: &String| false;
    let mut resolver = IconResolver::from_data_roots(Vec::new());
    let entry = icon_entry("/f/flatpak/exports/share/applications/org.a.A.desktop", Some("org.a.A"));
    assert_eq!(
        resolver.resolve(&entry, &read, &is_file),
        Some("/f/flatpak/app/org.a.A/x86_64/3/active/files/share/pixmaps/org.a.A.png".to_string())
    );
}
