use brunch::applications::{Candidate, DesktopEntryScanner};
use brunch::entry::{DesktopEntry, Field, Group};
use brunch::history::{seconds_from_clock, unix_seconds, History};
use brunch::launch::{LaunchAction, LaunchError};
use brunch::search::{fuzzy_matches, haystack_line, keep_confident, lines_of, parse_line_index};
use brunch::ui::{result_surface, Effect, Key, Launcher, Message, Surface, ViewMode};

fn state_field(key: &str, value: &str) -> Field {
    Field { key: key.to_string(), value: value.to_string(), localized: Vec::new() }
}

fn app_entry(appid: &str, name: &str, comment: &str, actions: &[(&str, &str, &str)]) -> DesktopEntry {
    let mut fields = vec![
        state_field("Type", "Application"),
        state_field("Name", name),
        state_field("Comment", comment),
        state_field("Exec", appid),
    ];
    let mut groups = Vec::new();
    if !actions.is_empty() {
        let ids: Vec<&str> = actions.iter().map(|(id, _, _)| *id).collect();
        fields.push(state_field("Actions", &ids.join(";")));
    }
    groups.push(Group { name: "Desktop Entry".to_string(), fields });
    for (id, name, exec) in actions {
        groups.push(Group {
            name: format!("Desktop Action {id}"),
            fields: vec![state_field("Name", name), state_field("Exec", exec)],
        });
    }
    DesktopEntry { appid: appid.to_string(), path: format!("/apps/{appid}.desktop"), groups }
}

fn scanner_of(entries: Vec<DesktopEntry>) -> DesktopEntryScanner {
    let all = |_: &String| true;
    let candidates = entries
        .into_iter()
        .map(|entry| Candidate {
            directory: "/apps".to_string(),
            path: entry.path.clone(),
            entry: Some(entry),
        })
        .collect();
    DesktopEntryScanner::from_candidates(candidates, &Vec::new(), &Vec::new(), &all)
}

fn sample_scanner() -> DesktopEntryScanner {
    scanner_of(vec![
        app_entry("firefox", "Firefox", "Web Browser", &[("private", "Private Window", "firefox --private")]),
        app_entry("files", "Files", "Manage files", &[]),
        app_entry("terminal", "Terminal", "Command line", &[]),
    ])
}

#[test]
fn recorded_launches_are_kept_per_application_in_order() {
    let mut history = History::new(Some("/data/history.json".to_string()));
    assert!(history.launches("firefox").is_none());
    history.record_launch_at("firefox", 10);
    history.record_launch_at("files", 5);
    history.record_launch_at("firefox", 20);
    assert_eq!(history.launches("firefox").unwrap(), &vec![10, 20]);
    assert_eq!(history.launches("files").unwrap(), &vec![5]);
    assert_eq!(history.records().len(), 2);
    assert_eq!(history.path(), &Some("/data/history.json".to_string()));
}

#[test]
fn launches_of_different_applications_may_be_recorded_in_either_order() {
    let mut first = History::new(None);
    first.record_launch_at("a", 1);
    first.record_launch_at("b", 2);
    let mut second = History::new(None);
    second.record_launch_at("b", 2);
    second.record_launch_at("a", 1);
    for appid in ["a", "b", "c"] {
        assert_eq!(first.launches(appid), second.launches(appid));
    }
}

#[test]
fn a_recorded_launch_now_is_stamped_with_the_clock() {
    let before = unix_seconds();
    let mut history = History::new(None);
    history.record_launch("firefox");
    let launches = history.launches("firefox").unwrap();
    assert_eq!(launches.len(), 1);
    assert!(launches[0] >= before);
    assert!(before > 1_600_000_000);
}

#[test]
fn history_files_of_another_version_are_ignored() {
    let pairs = vec![("firefox".to_string(), vec![1, 2]), ("files".to_string(), vec![3])];
    let current = History::from_file(None, 1, pairs.clone());
    assert_eq!(current.launches("firefox").unwrap(), &vec![1, 2]);
    assert_eq!(current.launches("files").unwrap(), &vec![3]);
    let other = History::from_file(None, 2, pairs);
    assert!(other.launches("firefox").is_none());
    assert!(other.records().is_empty());
    let repeated = History::from_file(None, 1, vec![("a".to_string(), vec![1]), ("a".to_string(), vec![9])]);
    assert_eq!(repeated.launches("a").unwrap(), &vec![9]);
}

#[test]
fn match_lines_carry_the_entry_position() {
    let line = haystack_line(12, "Fire", "Web");
    assert_eq!(line, "12\tFire\tWeb");
    assert_eq!(parse_line_index(&line), Some(12));
    assert_eq!(parse_line_index("x\ty"), None);
    assert_eq!(parse_line_index("no tab"), None);
    assert_eq!(parse_line_index(&haystack_line(0, "", "")), Some(0));
    let lines = lines_of(&sample_scanner(), &Vec::new());
    assert_eq!(lines[1], "1\tFiles\tManage files");
}

#[test]
fn only_confident_matches_are_kept() {
    let matches = vec![
        ("0\tA\t".to_string(), 100),
        ("1\tB\t".to_string(), 80),
        ("2\tC\t".to_string(), 79),
        ("3\tD\t".to_string(), 90),
    ];
    assert_eq!(keep_confident(&matches), vec![(0, 100), (1, 80), (3, 90)]);
    assert!(keep_confident(&Vec::new()).is_empty());
}

#[test]
fn fuzzy_matching_ranks_the_entries_by_their_lines() {
    let scanner = sample_scanner();
    let found = fuzzy_matches(&scanner, "fire", &Vec::new());
    assert_eq!(found.len(), 1);
    assert_eq!(found[0].0, 0);
    assert!(found[0].1 > 0);
    let none = fuzzy_matches(&scanner, "zzzz", &Vec::new());
    assert!(none.is_empty());
}

#[test]
fn moving_down_then_up_returns_to_the_first_row() {
    let mut launcher = Launcher::new(sample_scanner(), History::new(None), Vec::new());
    assert!(matches!(launcher.update(Message::QueryChanged("e".to_string())), Effect::RefreshMatches));
    assert_eq!(launcher.query(), "e");
    launcher.refresh(vec![0, 1, 2]);
    assert!(matches!(launcher.update(Message::MoveDown), Effect::ScrollToRow(1)));
    assert_eq!(launcher.selected_row(), 1);
    assert!(matches!(launcher.update(Message::KeyPressed(Key::ArrowDown)), Effect::ScrollToRow(2)));
    assert!(matches!(launcher.update(Message::MoveDown), Effect::Nothing));
    assert_eq!(launcher.selected_row(), 2);
    assert!(matches!(launcher.update(Message::MoveUp), Effect::ScrollToRow(1)));
    assert!(matches!(launcher.update(Message::MoveUp), Effect::ScrollToRow(0)));
    assert!(matches!(launcher.update(Message::MoveUp), Effect::Nothing));
    assert_eq!(launcher.selected_row(), 0);
    launcher.refresh(vec![2]);
    assert_eq!(launcher.selected_row(), 0);
    launcher.refresh(Vec::new());
    assert!(launcher.selected().is_none());
}

#[test]
fn dismissing_or_losing_focus_exits() {
    let mut launcher = Launcher::new(sample_scanner(), History::new(None), Vec::new());
    assert!(matches!(launcher.update(Message::Dismiss), Effect::Exit));
    assert!(matches!(launcher.update(Message::WindowUnfocused), Effect::Exit));
    assert!(matches!(launcher.update(Message::WindowOther), Effect::Nothing));
}

#[test]
fn choosing_an_entry_launches_it_and_a_success_records_the_launch() {
    let mut launcher = Launcher::new(sample_scanner(), History::new(None), Vec::new());
    launcher.refresh(vec![1, 0]);
    match launcher.update(Message::KeyPressed(Key::Enter)) {
        Effect::Launch(LaunchAction::DesktopEntry(launch)) => {
            assert_eq!(launch.appid, "files");
            assert_eq!(launch.args, vec!["files".to_string()]);
        }
        _ => panic!("Enter launches the highlighted entry"),
    }
    assert_eq!(launcher.selection(), Some(1));
    assert!(matches!(launcher.launch_finished(Ok(())), Effect::PersistHistoryAndExit));
    assert_eq!(launcher.history().launches("files").unwrap().len(), 1);
    assert!(matches!(launcher.launch_finished(Ok(())), Effect::Nothing));
}

#[test]
fn a_failed_launch_is_reported_and_nothing_is_recorded() {
    let mut launcher = Launcher::new(sample_scanner(), History::new(None), Vec::new());
    assert!(matches!(launcher.update(Message::Select(2)), Effect::Launch(_)));
    assert!(matches!(launcher.launch_finished(Err(LaunchError::NoTerminal)), Effect::Nothing));
    assert_eq!(launcher.selection_error(), &Some("no terminal emulator is available".to_string()));
    assert!(launcher.history().launches("terminal").is_none());
    assert!(matches!(launcher.update(Message::Select(7)), Effect::Nothing));
    assert_eq!(
        launcher.selection_error(),
        &Some("Selected application is no longer available".to_string())
    );
}

#[test]
fn the_actions_view_lists_and_launches_actions() {
    let mut launcher = Launcher::new(sample_scanner(), History::new(None), Vec::new());
    launcher.refresh(vec![1, 0]);
    assert!(matches!(launcher.update(Message::OpenActions), Effect::Nothing));
    assert!(matches!(launcher.mode(), ViewMode::Applications));
    assert!(matches!(launcher.update(Message::MoveDown), Effect::ScrollToRow(1)));
    assert!(matches!(launcher.update(Message::KeyPressed(Key::Tab)), Effect::Nothing));
    assert!(matches!(launcher.mode(), ViewMode::Actions));
    assert_eq!(launcher.actions().len(), 1);
    assert_eq!(launcher.actions()[0].name, "Private Window");
    assert_eq!(launcher.action_selected(), 0);
    match launcher.update(Message::KeyPressed(Key::Enter)) {
        Effect::Launch(LaunchAction::DesktopAction(launch)) => {
            assert_eq!(launch.action_id, "private");
            assert_eq!(launch.args, vec!["firefox".to_string(), "--private".to_string()]);
        }
        _ => panic!("Enter launches the highlighted action"),
    }
}

#[test]
fn escape_leaves_the_actions_view_and_otherwise_exits() {
    let mut launcher = Launcher::new(sample_scanner(), History::new(None), Vec::new());
    launcher.refresh(vec![0]);
    assert!(matches!(launcher.update(Message::SelectAction(0)), Effect::Nothing));
    assert!(matches!(launcher.update(Message::OpenActions), Effect::Nothing));
    assert!(matches!(launcher.mode(), ViewMode::Actions));
    assert!(matches!(launcher.update(Message::Select(0)), Effect::Nothing));
    assert!(matches!(launcher.update(Message::MoveDown), Effect::Nothing));
    assert_eq!(launcher.action_selected(), 0);
    assert!(matches!(launcher.update(Message::KeyPressed(Key::Escape)), Effect::Nothing));
    assert!(matches!(launcher.mode(), ViewMode::Applications));
    assert_eq!(launcher.selected_row(), 0);
    assert!(matches!(launcher.update(Message::KeyPressed(Key::Other)), Effect::Nothing));
    assert!(matches!(launcher.update(Message::KeyPressed(Key::Escape)), Effect::Exit));
}

#[test]
fn replacing_launches_keeps_one_record_per_application() {
    let mut history = History::new(None);
    history.set_launches("a", vec![3, 4]);
    history.record_launch_at("a", 5);
    history.set_launches("b", Vec::new());
    assert_eq!(history.launches("a").unwrap(), &vec![3, 4, 5]);
    assert_eq!(history.launches("b").unwrap(), &Vec::<i64>::new());
    assert_eq!(history.records().len(), 2);
    let empty = scanner_of(Vec::new());
    assert!(empty.is_empty());
    assert_eq!(empty.len(), 0);
}

#[test]
fn clock_readings_become_unix_seconds() {
    assert_eq!(seconds_from_clock(Some(1_700_000_000)), 1_700_000_000);
    assert_eq!(seconds_from_clock(None), 0);
    assert_eq!(seconds_from_clock(Some(u64::MAX)), -1);
}

#[test]
fn failed_rows_show_the_error_surface_before_highlighting() {
    assert!(result_surface(true, true, true) == Surface::Failed);
    assert!(result_surface(false, true, false) == Surface::Highlighted);
    assert!(result_surface(true, false, false) == Surface::Highlighted);
    assert!(result_surface(false, false, false) == Surface::Plain);
}
