use brunch::entry::{DesktopEntry, Field, Group};
use brunch::launch::{
    find_executable, resolve_terminal, terminal_candidates_of, terminal_prefix,
    DesktopActionLaunch, DesktopEntryLaunch, ExecFailure, LaunchAction, LaunchError,
    SystemExecutor, TerminalCommand,
};

fn launch_field(key: &str, value: &str) -> Field {
    Field { key: key.to_string(), value: value.to_string(), localized: Vec::new() }
}

fn launch_entry(fields: Vec<Field>, action_fields: Vec<Field>) -> DesktopEntry {
    DesktopEntry {
        appid: "org.example.App".to_string(),
        path: "/usr/share/applications/org.example.App.desktop".to_string(),
        groups: vec![
            Group { name: "Desktop Entry".to_string(), fields },
            Group { name: "Desktop Action edit".to_string(), fields: action_fields },
        ],
    }
}

fn strings(items: &[&str]) -> Vec<String> {
    items.iter().map(|s| s.to_string()).collect()
}

#[test]
fn entry_launches_drop_file_codes_and_expand_icon_and_location() {
    let entry = launch_entry(
        vec![
            launch_field("Exec", "app --open %u %i %k"),
            launch_field("Icon", "app-icon"),
            launch_field("Path", "/srv"),
            launch_field("Terminal", "true"),
        ],
        vec![],
    );
    let launch = DesktopEntryLaunch::from_entry(&entry).ok().unwrap();
    assert_eq!(launch.appid, "org.example.App");
    assert_eq!(
        launch.args,
        strings(&["app", "--open", "app-icon", "/usr/share/applications/org.example.App.desktop"])
    );
    assert_eq!(launch.working_directory, Some("/srv".to_string()));
    assert!(launch.terminal);
    assert!(LaunchAction::from(launch).terminal());
}

#[test]
fn entry_launch_errors_follow_the_exec_value() {
    let missing = launch_entry(vec![launch_field("Name", "App")], vec![]);
    assert!(matches!(
        DesktopEntryLaunch::from_entry(&missing),
        Err(LaunchError::InvalidExec(ExecFailure::ExecFieldNotFound))
    ));
    let empty = launch_entry(vec![launch_field("Exec", "%F")], vec![]);
    assert!(matches!(
        DesktopEntryLaunch::from_entry(&empty),
        Err(LaunchError::InvalidExec(ExecFailure::ExecFieldIsEmpty))
    ));
    let assignment = launch_entry(vec![launch_field("Exec", "A=1 app")], vec![]);
    match DesktopEntryLaunch::from_entry(&assignment) {
        Err(error) => assert_eq!(error.message(), "could not parse Exec field: equal sign detected"),
        Ok(_) => panic!("an assignment is not a command"),
    }
}

#[test]
fn action_launches_use_the_action_exec() {
    let entry = launch_entry(
        vec![launch_field("Exec", "app"), launch_field("Path", "/tmp")],
        vec![launch_field("Name", "Edit"), launch_field("Exec", "app --edit")],
    );
    let launch = DesktopActionLaunch::from_entry(&entry, "edit").ok().unwrap();
    assert_eq!(launch.action_id, "edit");
    assert_eq!(launch.args, strings(&["app", "--edit"]));
    assert_eq!(launch.working_directory, Some("/tmp".to_string()));
    assert!(!launch.terminal);
    assert!(matches!(
        DesktopActionLaunch::from_entry(&entry, "missing"),
        Err(LaunchError::InvalidExec(ExecFailure::ExecFieldNotFound))
    ));
}

fn plain_launch(args: &[&str], terminal: bool) -> LaunchAction {
    LaunchAction::from(DesktopEntryLaunch {
        appid: "a".to_string(),
        args: strings(args),
        working_directory: None,
        terminal,
    })
}

#[test]
fn commands_run_the_program_or_wrap_it_in_the_terminal() {
    let executor = SystemExecutor;
    let direct = executor.command(&plain_launch(&["htop", "-d", "5"], false), None).ok().unwrap();
    assert_eq!(direct.program, "htop");
    assert_eq!(direct.args, strings(&["-d", "5"]));
    let kitty = TerminalCommand { executable: "/usr/bin/kitty".to_string(), prefix: strings(&["--"]) };
    let wrapped = executor.command(&plain_launch(&["htop"], true), Some(kitty)).ok().unwrap();
    assert_eq!(wrapped.program, "/usr/bin/kitty");
    assert_eq!(wrapped.args, strings(&["--", "htop"]));
    assert!(matches!(executor.command(&plain_launch(&["htop"], true), None), Err(LaunchError::NoTerminal)));
    assert!(matches!(executor.command(&plain_launch(&[], true), None), Err(LaunchError::EmptyCommand)));
}

#[test]
fn launch_error_messages() {
    assert_eq!(LaunchError::EmptyCommand.message(), "launch command is empty");
    assert_eq!(LaunchError::NoTerminal.message(), "no terminal emulator is available");
    assert_eq!(
        LaunchError::Spawn("No such file".to_string()).message(),
        "could not spawn application: No such file"
    );
    assert_eq!(
        LaunchError::InvalidExec(ExecFailure::ExecFieldIsEmpty).message(),
        "could not parse Exec field: Exec field is empty"
    );
}

#[test]
fn terminal_prefixes_and_candidates() {
    assert_eq!(terminal_prefix("kitty"), strings(&["--"]));
    assert_eq!(terminal_prefix("gnome-terminal"), strings(&["--"]));
    assert_eq!(terminal_prefix("konsole"), strings(&["-e"]));
    let with_env = terminal_candidates_of(&Some("foot".to_string()));
    assert_eq!(with_env[0], "foot");
    assert_eq!(with_env[1], "x-terminal-emulator");
    assert_eq!(with_env.len(), 8);
    assert_eq!(terminal_candidates_of(&None).len(), 7);
}

#[test]
fn executables_are_found_in_the_path_directories_in_order() {
    let dirs = Some(strings(&["/usr/local/bin", "/usr/bin"]));
    let present = |p: &String| p == "/usr/bin/foot" || p == "/usr/local/bin/foot" || p == "/opt/foot";
    assert_eq!(find_executable("foot", &dirs, &present), Some("/usr/local/bin/foot".to_string()));
    assert_eq!(find_executable("/opt/foot", &dirs, &present), Some("/opt/foot".to_string()));
    assert_eq!(find_executable("kitty", &dirs, &present), None);
    assert_eq!(find_executable("foot", &None, &present), None);
}

#[test]
fn the_first_installed_terminal_is_used_with_its_prefix() {
    let dirs = Some(strings(&["/usr/bin"]));
    let present = |p: &String| p == "/usr/bin/kitty" || p == "/usr/bin/konsole";
    let found = resolve_terminal(Some("foot".to_string()), &dirs, &present).unwrap();
    assert_eq!(found.executable, "/usr/bin/kitty");
    assert_eq!(found.prefix, strings(&["--"]));
    let preferred = resolve_terminal(Some("konsole".to_string()), &dirs, &present).unwrap();
    assert_eq!(preferred.executable, "/usr/bin/konsole");
    assert_eq!(preferred.prefix, strings(&["-e"]));
    let nothing = |_: &String| false;
    assert!(resolve_terminal(None, &dirs, &nothing).is_none());
}

#[test]
fn exec_quotes_whitespace_and_name_codes() {
    let quoted = launch_entry(
        vec![launch_field("Exec", "\"app \t%c  %d %x\""), launch_field("Name", "Editor")],
        vec![],
    );
    let launch = DesktopEntryLaunch::from_entry(&quoted).ok().unwrap();
    assert_eq!(launch.args, strings(&["app", "Editor"]));
    let unmatched = launch_entry(vec![launch_field("Exec", "\"app --flag")], vec![]);
    match DesktopEntryLaunch::from_entry(&unmatched) {
        Err(LaunchError::InvalidExec(ExecFailure::WrongFormat(message))) => {
            assert_eq!(message, "unmatched quote")
        }
        _ => panic!("an unmatched quote is refused"),
    }
    let lone_quote = launch_entry(vec![launch_field("Exec", "\"")], vec![]);
    assert!(matches!(
        DesktopEntryLaunch::from_entry(&lone_quote),
        Err(LaunchError::InvalidExec(ExecFailure::WrongFormat(_)))
    ));
    let no_name = launch_entry(vec![launch_field("Exec", "app %c %i")], vec![]);
    assert_eq!(DesktopEntryLaunch::from_entry(&no_name).ok().unwrap().args, strings(&["app"]));
}
