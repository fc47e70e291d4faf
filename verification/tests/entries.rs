use brunch::applications::{
    actions_for_entry, desktop_id, executable_name_of, is_executable, should_show_entry,
    Candidate, DesktopEntryScanner,
};
use brunch::entry::{DesktopEntry, Field, Group, LocalizedValue};

fn field(key: &str, value: &str) -> Field {
    Field { key: key.to_string(), value: value.to_string(), localized: Vec::new() }
}

fn localized_field(key: &str, value: &str, values: &[(&str, &str)]) -> Field {
    Field {
        key: key.to_string(),
        value: value.to_string(),
        localized: values
            .iter()
            .map(|(locale, value)| LocalizedValue { locale: locale.to_string(), value: value.to_string() })
            .collect(),
    }
}

fn entry_of(appid: &str, groups: Vec<Group>) -> DesktopEntry {
    DesktopEntry {
        appid: appid.to_string(),
        path: format!("/usr/share/applications/{appid}.desktop"),
        groups,
    }
}

fn main_group(fields: Vec<Field>) -> Group {
    Group { name: "Desktop Entry".to_string(), fields }
}

fn owned(items: &[&str]) -> Vec<String> {
    items.iter().map(|s| s.to_string()).collect()
}

fn application(appid: &str, name: &str, extra: Vec<Field>) -> DesktopEntry {
    let mut fields = vec![field("Type", "Application"), field("Name", name), field("Exec", appid)];
    fields.extend(extra);
    entry_of(appid, vec![main_group(fields)])
}

#[test]
fn localized_values_prefer_the_locale_then_its_language() {
    let entry = entry_of(
        "files",
        vec![main_group(vec![localized_field(
            "Name",
            "Files",
            &[("de_DE", "Dateien"), ("fr", "Fichiers")],
        )])],
    );
    assert_eq!(entry.name(&owned(&["de_DE"])), Some("Dateien".to_string()));
    assert_eq!(entry.name(&owned(&["fr_CA"])), Some("Fichiers".to_string()));
    assert_eq!(entry.name(&owned(&["it_IT", "fr"])), Some("Fichiers".to_string()));
    assert_eq!(entry.name(&owned(&["it"])), Some("Files".to_string()));
    assert_eq!(entry.name(&Vec::new()), Some("Files".to_string()));
    assert_eq!(entry.comment(&Vec::new()), None);
}

#[test]
fn flags_are_true_only_when_written_true() {
    let entry = application("a", "A", vec![field("NoDisplay", "true"), field("Hidden", "True")]);
    assert!(entry.no_display());
    assert!(!entry.hidden());
    assert!(!entry.terminal());
}

#[test]
fn lists_split_at_semicolons() {
    let entry = application("a", "A", vec![field("OnlyShowIn", "GNOME;KDE;")]);
    assert_eq!(entry.only_show_in(), Some(owned(&["GNOME", "KDE", ""])));
    assert_eq!(entry.not_show_in(), None);
}

#[test]
fn actions_need_a_name_and_a_command() {
    let entry = entry_of(
        "editor",
        vec![
            main_group(vec![field("Name", "Editor"), field("Actions", "new-window;broken;blank;")]),
            Group {
                name: "Desktop Action new-window".to_string(),
                fields: vec![field("Name", "New Window"), field("Exec", "editor --new-window")],
            },
            Group { name: "Desktop Action broken".to_string(), fields: vec![field("Name", "Broken")] },
            Group {
                name: "Desktop Action blank".to_string(),
                fields: vec![field("Name", "  "), field("Exec", "editor")],
            },
        ],
    );
    let actions = actions_for_entry(&entry, &Vec::new());
    assert_eq!(actions.len(), 1);
    assert_eq!(actions[0].id, "new-window");
    assert_eq!(actions[0].name, "New Window");
}

#[test]
fn desktop_ids_join_the_relative_path_with_dashes() {
    assert_eq!(
        desktop_id("/usr/share/applications", "/usr/share/applications/kde/org.kde.kate.desktop"),
        Some("kde-org.kde.kate.desktop".to_string())
    );
    assert_eq!(
        desktop_id("/usr/share/applications/", "/usr/share/applications/firefox.desktop"),
        Some("firefox.desktop".to_string())
    );
    assert_eq!(desktop_id("/usr/share/applications", "/opt/other.desktop"), None);
}

#[test]
fn executable_names_take_the_first_word_or_a_quoted_program() {
    assert_eq!(executable_name_of("  firefox --new-window"), "firefox");
    assert_eq!(executable_name_of("\"/opt/My App/run\" --flag"), "/opt/My App/run");
    assert_eq!(executable_name_of("   "), "");
}

#[test]
fn executables_are_looked_up_in_path_unless_they_have_a_slash() {
    let path_dirs = owned(&["/bin", "/usr/bin"]);
    let installed = |p: &String| p == "/usr/bin/firefox" || p == "/opt/tool";
    assert!(is_executable("firefox", &path_dirs, &installed));
    assert!(!is_executable("chromium", &path_dirs, &installed));
    assert!(is_executable("/opt/tool", &path_dirs, &installed));
    assert!(!is_executable("bin/firefox", &path_dirs, &installed));
    assert!(!is_executable("", &path_dirs, &installed));
}

#[test]
fn desktops_and_try_exec_decide_what_shows() {
    let nothing = |_: &String| false;
    let everything = |_: &String| true;
    let gnome_only = application("g", "G", vec![field("OnlyShowIn", "GNOME;")]);
    let not_kde = application("k", "K", vec![field("NotShowIn", "kde")]);
    let needs_tool = application("t", "T", vec![field("TryExec", "tool")]);
    let kde = owned(&["KDE"]);
    let gnome = owned(&["gnome"]);
    let path_dirs = owned(&["/usr/bin"]);
    assert!(!should_show_entry(&gnome_only, &kde, &path_dirs, &everything));
    assert!(should_show_entry(&gnome_only, &gnome, &path_dirs, &everything));
    assert!(should_show_entry(&gnome_only, &Vec::new(), &path_dirs, &everything));
    assert!(!should_show_entry(&not_kde, &kde, &path_dirs, &everything));
    assert!(should_show_entry(&not_kde, &gnome, &path_dirs, &everything));
    assert!(!should_show_entry(&needs_tool, &gnome, &path_dirs, &nothing));
    assert!(should_show_entry(&needs_tool, &gnome, &path_dirs, &everything));
}

#[test]
fn scanning_keeps_the_first_file_of_each_id_and_only_offered_applications() {
    let everything = |_: &String| true;
    let dir_user = "/home/u/.local/share/applications".to_string();
    let dir_system = "/usr/share/applications".to_string();
    let candidates = vec![
        Candidate {
            directory: dir_user.clone(),
            path: format!("{dir_user}/firefox.desktop"),
            entry: Some(application("firefox", "Firefox (user)", vec![])),
        },
        Candidate {
            directory: dir_system.clone(),
            path: format!("{dir_system}/firefox.desktop"),
            entry: Some(application("firefox", "Firefox", vec![])),
        },
        Candidate {
            directory: dir_system.clone(),
            path: format!("{dir_system}/hidden.desktop"),
            entry: Some(application("hidden", "Hidden", vec![field("Hidden", "true")])),
        },
        Candidate { directory: dir_system.clone(), path: format!("{dir_system}/broken.desktop"), entry: None },
        Candidate {
            directory: dir_system.clone(),
            path: format!("{dir_system}/gimp.desktop"),
            entry: Some(application("gimp", "GIMP", vec![field("Keywords", "paint;Image")])),
        },
    ];
    let scanner = DesktopEntryScanner::from_candidates(candidates, &Vec::new(), &Vec::new(), &everything);
    assert_eq!(scanner.len(), 2);
    assert!(!scanner.is_empty());
    assert_eq!(scanner.entries()[0].name(&Vec::new()), Some("Firefox (user)".to_string()));
    assert_eq!(scanner.entries()[1].appid, "gimp");

    let by_keyword = scanner.search("  IMAGE ");
    assert_eq!(by_keyword.len(), 1);
    assert_eq!(by_keyword[0].appid, "gimp");
    assert_eq!(scanner.search("").len(), 2);
    assert_eq!(scanner.search("fire")[0].appid, "firefox");
    assert!(scanner.search("nothing like it").is_empty());
}

#[test]
fn search_ignores_case_beyond_ascii() {
    let everything = |_: &String| true;
    let candidates = vec![Candidate {
        directory: "/apps".to_string(),
        path: "/apps/omega.desktop".to_string(),
        entry: Some(application("omega", "ÄRGER Ω", vec![field("Comment", "Straße")])),
    }];
    let scanner = DesktopEntryScanner::from_candidates(candidates, &Vec::new(), &Vec::new(), &everything);
    assert_eq!(scanner.search("ärger ω").len(), 1);
    assert_eq!(scanner.search("STRASSE").len(), 0);
    assert_eq!(scanner.search("STRAßE").len(), 1);
}
