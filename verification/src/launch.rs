//! What launching an entry or one of its actions runs: the command line, the
//! working directory, and the terminal emulator it is wrapped in.
use vstd::prelude::*;
use crate::entry::{action_group, DesktopEntry};
use crate::paths::{components, file_name, file_name_of, join, join_path, path_components};
use crate::text::{
    concat, lemma_skip_class_bounds, lemma_skip_stops, lemma_until_class_bounds, push_text, skip_class,
    until_class, CharClass,
};
use crate::applications::{missed_all, reported};
use freedesktop_desktop_entry as fde;

verus! {

/// Launching an application's main command.
pub struct DesktopEntryLaunch {
    pub appid: String,
    pub args: Vec<String>,
    pub working_directory: Option<String>,
    pub terminal: bool,
}

/// Launching one of an application's actions.
pub struct DesktopActionLaunch {
    pub appid: String,
    pub action_id: String,
    pub args: Vec<String>,
    pub working_directory: Option<String>,
    pub terminal: bool,
}

/// Something to launch.
pub enum LaunchAction {
    DesktopEntry(DesktopEntryLaunch),
    DesktopAction(DesktopActionLaunch),
}

impl From<DesktopEntryLaunch> for LaunchAction {
    fn from(entry: DesktopEntryLaunch) -> (r: Self) {
        LaunchAction::DesktopEntry(entry)
    }
}

impl vstd::std_specs::convert::FromSpecImpl<DesktopEntryLaunch> for LaunchAction {
    open spec fn obeys_from_spec() -> bool {
        true
    }

    open spec fn from_spec(entry: DesktopEntryLaunch) -> Self {
        LaunchAction::DesktopEntry(entry)
    }
}

impl From<DesktopActionLaunch> for LaunchAction {
    fn from(action: DesktopActionLaunch) -> (r: Self) {
        LaunchAction::DesktopAction(action)
    }
}

impl vstd::std_specs::convert::FromSpecImpl<DesktopActionLaunch> for LaunchAction {
    open spec fn obeys_from_spec() -> bool {
        true
    }

    open spec fn from_spec(action: DesktopActionLaunch) -> Self {
        LaunchAction::DesktopAction(action)
    }
}

impl LaunchAction {
    /// The command line to run.
    pub open spec fn spec_args(self) -> Seq<Seq<char>> {
        match self {
            LaunchAction::DesktopEntry(e) => e.args.deep_view(),
            LaunchAction::DesktopAction(a) => a.args.deep_view(),
        }
    }

    /// The directory to run it in.
    pub open spec fn spec_working_directory(self) -> Option<Seq<char>> {
        match self {
            LaunchAction::DesktopEntry(e) => e.working_directory.deep_view(),
            LaunchAction::DesktopAction(a) => a.working_directory.deep_view(),
        }
    }

    /// Whether it runs in a terminal emulator.
    pub open spec fn spec_terminal(self) -> bool {
        match self {
            LaunchAction::DesktopEntry(e) => e.terminal,
            LaunchAction::DesktopAction(a) => a.terminal,
        }
    }

    /// The application it belongs to.
    pub open spec fn spec_appid(self) -> Seq<char> {
        match self {
            LaunchAction::DesktopEntry(e) => e.appid@,
            LaunchAction::DesktopAction(a) => a.appid@,
        }
    }

    /// Whether it runs in a terminal emulator.
    pub fn terminal(&self) -> (r: bool)
        ensures
            r == self.spec_terminal(),
    {
        match self {
            LaunchAction::DesktopEntry(e) => e.terminal,
            LaunchAction::DesktopAction(a) => a.terminal,
        }
    }
}

/// Why an `Exec` value could not be turned into a command line (the kinds
/// of `freedesktop_desktop_entry::ExecError`).
pub enum ExecFailure {
    WrongFormat(String),
    ExecFieldIsEmpty,
    ExecFieldNotFound,
}

impl ExecFailure {
    /// The text the error displays.
    pub fn message(&self) -> (r: String)
        ensures
            r@ == match self {
                ExecFailure::WrongFormat(m) => m@,
                ExecFailure::ExecFieldIsEmpty => "Exec field is empty"@,
                ExecFailure::ExecFieldNotFound => "Exec key was not found"@,
            },
    {
        match self {
            ExecFailure::WrongFormat(m) => m.clone(),
            ExecFailure::ExecFieldIsEmpty => String::from_str("Exec field is empty"),
            ExecFailure::ExecFieldNotFound => String::from_str("Exec key was not found"),
        }
    }
}

/// Why launching failed.
pub enum LaunchError {
    /// The `Exec` value could not be read.
    InvalidExec(ExecFailure),
    /// The command line is empty.
    EmptyCommand,
    /// A terminal is needed and none is installed.
    NoTerminal,
    /// Starting the process failed; the text of the system's error.
    Spawn(String),
}

impl LaunchError {
    /// The text the error displays.
    pub fn message(&self) -> (r: String)
        ensures
            r@ == match self {
                LaunchError::InvalidExec(e) => "could not parse Exec field: "@ + match e {
                    ExecFailure::WrongFormat(m) => m@,
                    ExecFailure::ExecFieldIsEmpty => "Exec field is empty"@,
                    ExecFailure::ExecFieldNotFound => "Exec key was not found"@,
                },
                LaunchError::EmptyCommand => "launch command is empty"@,
                LaunchError::NoTerminal => "no terminal emulator is available"@,
                LaunchError::Spawn(m) => "could not spawn application: "@ + m@,
            },
    {
        match self {
            LaunchError::InvalidExec(e) => {
                let m = e.message();
                concat("could not parse Exec field: ", m.as_str())
            },
            LaunchError::EmptyCommand => String::from_str("launch command is empty"),
            LaunchError::NoTerminal => String::from_str("no terminal emulator is available"),
            LaunchError::Spawn(m) => concat("could not spawn application: ", m.as_str()),
        }
    }
}

/// The words of `s` from position `i` on: the runs of characters between
/// ASCII whitespace (`str::split_ascii_whitespace`).
pub open spec fn ascii_words(s: Seq<char>, i: int) -> Seq<Seq<char>>
    decreases s.len() - i,
{
    if i < 0 || i > s.len() {
        seq![]
    } else {
        let a = skip_class(s, CharClass::AsciiSpace, i);
        if a >= s.len() {
            seq![]
        } else {
            let b = until_class(s, CharClass::AsciiSpace, a);
            proof {
                lemma_skip_class_bounds(s, CharClass::AsciiSpace, i);
                lemma_until_class_bounds(s, CharClass::AsciiSpace, a);
                lemma_skip_stops(s, CharClass::AsciiSpace, i);
                lemma_until_class_bounds(s, CharClass::AsciiSpace, a + 1);
            }
            seq![s.subrange(a, b)] + ascii_words(s, b)
        }
    }
}

/// What one word of an `Exec` value gives, with no files or URLs: a field
/// code (a word starting with `%`) gives the icon for `%i`, the name for
/// `%c`, the entry's file for `%k`, and nothing otherwise; any other word
/// gives itself.
pub open spec fn expand_word(
    word: Seq<char>,
    icon: Option<Seq<char>>,
    name: Option<Seq<char>>,
    file: Seq<char>,
) -> Seq<Seq<char>> {
    if word.len() > 0 && word[0] == '%' {
        if word == "%i"@ {
            match icon {
                Some(i) => seq![i],
                None => seq![],
            }
        } else if word == "%c"@ {
            match name {
                Some(n) => seq![n],
                None => seq![],
            }
        } else if word == "%k"@ {
            seq![file]
        } else {
            seq![]
        }
    } else {
        seq![word]
    }
}

/// The words from position `i` on, each expanded.
pub open spec fn expand_words(
    words: Seq<Seq<char>>,
    icon: Option<Seq<char>>,
    name: Option<Seq<char>>,
    file: Seq<char>,
    i: int,
) -> Seq<Seq<char>>
    decreases words.len() - i,
{
    if i < 0 || i >= words.len() {
        seq![]
    } else {
        expand_word(words[i], icon, name, file) + expand_words(words, icon, name, file, i + 1)
    }
}

/// How reading an `Exec` value ends.
pub enum ExecParse {
    /// The command line.
    Args(Seq<Seq<char>>),
    /// There is no `Exec` value.
    NotFound,
    /// The command line is empty.
    Empty,
    /// The value is malformed; the message.
    WrongFormat(Seq<char>),
}

/// How `freedesktop_desktop_entry` reads an `Exec` value for an entry with
/// the given `Icon`, default `Name` and file, with no files or URLs: one
/// pair of surrounding double quotes is removed (an opening one without a
/// closing one is malformed); the rest is split at ASCII whitespace and each
/// word expanded (see `expand_word`); an empty result is refused, and so is
/// a first argument holding `=`.
pub open spec fn parse_exec_spec(
    exec: Option<Seq<char>>,
    icon: Option<Seq<char>>,
    name: Option<Seq<char>>,
    file: Seq<char>,
) -> ExecParse {
    match exec {
        None => ExecParse::NotFound,
        Some(e) => {
            let unquoted: Option<Seq<char>> = if e.len() > 0 && e[0] == '"' {
                let w = e.drop_first();
                if w.len() > 0 && w.last() == '"' {
                    Some(w.drop_last())
                } else {
                    None
                }
            } else {
                Some(e)
            };
            match unquoted {
                None => ExecParse::WrongFormat("unmatched quote"@),
                Some(u) => {
                    let args = expand_words(ascii_words(u, 0), icon, name, file, 0);
                    if args.len() == 0 {
                        ExecParse::Empty
                    } else if args[0].contains('=') {
                        ExecParse::WrongFormat("equal sign detected"@)
                    } else {
                        ExecParse::Args(args)
                    }
                }
            }
        },
    }
}

/// The command line of an `Exec` value, when it reads as one.
pub open spec fn exec_arguments(
    exec: Option<Seq<char>>,
    icon: Option<Seq<char>>,
    name: Option<Seq<char>>,
    file: Seq<char>,
) -> Option<Seq<Seq<char>>> {
    match parse_exec_spec(exec, icon, name, file) {
        ExecParse::Args(a) => Some(a),
        _ => None,
    }
}

/// `failure` is the error that reading the `Exec` value ends in.
pub open spec fn reports(failure: ExecFailure, outcome: ExecParse) -> bool {
    match outcome {
        ExecParse::Args(_) => false,
        ExecParse::NotFound => failure is ExecFieldNotFound,
        ExecParse::Empty => failure is ExecFieldIsEmpty,
        ExecParse::WrongFormat(m) => failure matches ExecFailure::WrongFormat(t) && t@ == m,
    }
}

/// `DesktopEntry::parse_exec` of `freedesktop_desktop_entry`, on an entry
/// whose `[Desktop Entry]` holds these `Exec`, `Icon` and `Name` values and
/// that was read from `file`. Claimed: it reads the value as
/// `parse_exec_spec` says (the crate's `get_args`), and its errors are the
/// ones that reading ends in.
#[verifier::external_body]
fn parse_exec_line(exec: &Option<String>, icon: &Option<String>, name: &Option<String>, file: &String) -> (r: Result<Vec<String>, ExecFailure>)
    ensures
        match r {
            Ok(a) => parse_exec_spec(exec.deep_view(), icon.deep_view(), name.deep_view(), file@)
                == ExecParse::Args(a.deep_view()),
            Err(f) => reports(f, parse_exec_spec(exec.deep_view(), icon.deep_view(), name.deep_view(), file@)),
        },
{
    let mut group = fde::Group::default();
    for (key, value) in [("Exec", exec), ("Icon", icon), ("Name", name)] {
        group.0.extend(value.clone().map(|v| (key.to_owned(), (v, fde::LocaleMap::new()))));
    }
    let mut groups = fde::Groups::default();
    groups.0.insert("Desktop Entry".to_owned(), group);
    let entry = fde::DesktopEntry { appid: String::new(), groups, path: file.into(), ubuntu_gettext_domain: None };
    entry.parse_exec().map_err(|error| match error {
        fde::ExecError::WrongFormat(message) => ExecFailure::WrongFormat(message),
        fde::ExecError::ExecFieldIsEmpty => ExecFailure::ExecFieldIsEmpty,
        fde::ExecError::ExecFieldNotFound => ExecFailure::ExecFieldNotFound,
    })
}

/// How reading an `Exec` value of `entry` ends.
pub open spec fn entry_exec_parse(entry: DesktopEntry, exec: Option<Seq<char>>) -> ExecParse {
    parse_exec_spec(exec, entry.spec_entry("Icon"@), entry.spec_entry("Name"@), entry.path@)
}

/// The command line of an `Exec` value of `entry`.
pub open spec fn entry_exec_arguments(entry: DesktopEntry, exec: Option<Seq<char>>) -> Option<Seq<Seq<char>>> {
    exec_arguments(exec, entry.spec_entry("Icon"@), entry.spec_entry("Name"@), entry.path@)
}

impl DesktopEntryLaunch {
    /// Launching `entry`: its id, the command line of its `Exec`, its `Path`
    /// as working directory, and its `Terminal` flag.
    pub fn from_entry(entry: &DesktopEntry) -> (r: Result<Self, LaunchError>)
        ensures
            (r is Ok) == (entry_exec_arguments(*entry, entry.spec_entry("Exec"@)) is Some),
            r matches Ok(l) ==> {
                &&& l.appid@ == entry.appid@
                &&& Some(l.args.deep_view()) == entry_exec_arguments(*entry, entry.spec_entry("Exec"@))
                &&& l.args@.len() > 0
                &&& l.working_directory.deep_view() == entry.spec_entry("Path"@)
                &&& l.terminal == entry.spec_flag("Terminal"@)
            },
            r matches Err(e) ==> (e matches LaunchError::InvalidExec(f) && reports(
                f,
                entry_exec_parse(*entry, entry.spec_entry("Exec"@)),
            )),
    {
        let appid = entry.id().clone();
        let exec = entry.exec();
        let icon = entry.icon();
        let name = entry.desktop_entry("Name");
        match parse_exec_line(&exec, &icon, &name, &entry.path) {
            Ok(args) => Ok(DesktopEntryLaunch {
                appid,
                args,
                working_directory: entry.working_directory(),
                terminal: entry.terminal(),
            }),
            Err(e) => Err(LaunchError::InvalidExec(e)),
        }
    }
}

impl DesktopActionLaunch {
    /// Launching action `action_id` of `entry`: as for the entry, with the
    /// command line of the action's `Exec`.
    pub fn from_entry(entry: &DesktopEntry, action_id: &str) -> (r: Result<Self, LaunchError>)
        ensures
            (r is Ok) == (entry_exec_arguments(*entry, entry.spec_value(action_group(action_id@), "Exec"@)) is Some),
            r matches Ok(l) ==> {
                &&& l.appid@ == entry.appid@
                &&& l.action_id@ == action_id@
                &&& Some(l.args.deep_view()) == entry_exec_arguments(*entry, entry.spec_value(action_group(action_id@), "Exec"@))
                &&& l.args@.len() > 0
                &&& l.working_directory.deep_view() == entry.spec_entry("Path"@)
                &&& l.terminal == entry.spec_flag("Terminal"@)
            },
            r matches Err(e) ==> (e matches LaunchError::InvalidExec(f) && reports(
                f,
                entry_exec_parse(*entry, entry.spec_value(action_group(action_id@), "Exec"@)),
            )),
    {
        let appid = entry.id().clone();
        let exec = entry.action_exec(action_id);
        let icon = entry.icon();
        let name = entry.desktop_entry("Name");
        match parse_exec_line(&exec, &icon, &name, &entry.path) {
            Ok(args) => Ok(DesktopActionLaunch {
                appid,
                action_id: String::from_str(action_id),
                args,
                working_directory: entry.working_directory(),
                terminal: entry.terminal(),
            }),
            Err(e) => Err(LaunchError::InvalidExec(e)),
        }
    }
}

/// A terminal emulator to wrap a command in: its executable and the
/// arguments that go before the command.
pub struct TerminalCommand {
    pub executable: String,
    pub prefix: Vec<String>,
}

/// A process to start.
pub struct SpawnCommand {
    pub program: String,
    pub args: Vec<String>,
    pub working_directory: Option<String>,
}

/// The launcher's executor: it runs launch actions as new processes.
#[derive(Clone, Copy)]
pub struct SystemExecutor;

/// The arguments a terminal emulator called `name` wants before the command.
pub open spec fn spec_terminal_prefix(name: Seq<char>) -> Seq<Seq<char>> {
    if name == "kitty"@ || name == "gnome-terminal"@ {
        seq!["--"@]
    } else {
        seq!["-e"@]
    }
}

/// The arguments a terminal emulator called `name` wants before the command.
pub fn terminal_prefix(name: &str) -> (r: Vec<String>)
    ensures
        r.deep_view() == spec_terminal_prefix(name@),
{
    let n = String::from_str(name);
    let mut r: Vec<String> = Vec::new();
    if n == String::from_str("kitty") || n == String::from_str("gnome-terminal") {
        push_text(&mut r, String::from_str("--"));
    } else {
        push_text(&mut r, String::from_str("-e"));
    }
    r
}

/// The process that runs `action`: the command line itself, or, for an
/// action that wants a terminal, `terminal` with its prefix and then the
/// whole command line.
pub open spec fn spawn_plan(
    action: LaunchAction,
    terminal: Option<(Seq<char>, Seq<Seq<char>>)>,
) -> Result<(Seq<char>, Seq<Seq<char>>, Option<Seq<char>>), ()> {
    let args = action.spec_args();
    if args.len() == 0 {
        Err(())
    } else if action.spec_terminal() {
        match terminal {
            Some((exe, prefix)) => Ok((exe, prefix + args, action.spec_working_directory())),
            None => Err(()),
        }
    } else {
        Ok((args[0], args.drop_first(), action.spec_working_directory()))
    }
}

/// A command line that is not empty is refused only when it wants a
/// terminal and none was found; launches made from entries always have one.
pub proof fn lemma_plan_refused_only_without_terminal(
    action: LaunchAction,
    terminal: Option<(Seq<char>, Seq<Seq<char>>)>,
)
    requires
        action.spec_args().len() > 0,
    ensures
        spawn_plan(action, terminal) is Err <==> (action.spec_terminal() && terminal is None),
{
}

/// A planned process runs the launch's command line in the launch's working
/// directory (the entry's `Path`): either the command line itself, its first
/// word being the program, or the terminal emulator with its prefix followed
/// by the whole command line.
pub proof fn lemma_plan_runs_the_command_line_in_its_directory(
    action: LaunchAction,
    terminal: Option<(Seq<char>, Seq<Seq<char>>)>,
)
    ensures
        spawn_plan(action, terminal) matches Ok(p) ==> {
            let (args, directory, wants_terminal) = match action {
                LaunchAction::DesktopEntry(e) => (e.args.deep_view(), e.working_directory.deep_view(), e.terminal),
                LaunchAction::DesktopAction(a) => (a.args.deep_view(), a.working_directory.deep_view(), a.terminal),
            };
            &&& p.2 == directory
            &&& args.len() > 0
            &&& if wants_terminal {
                terminal matches Some(t) && p.0 == t.0 && p.1 == t.1 + args
            } else {
                seq![p.0] + p.1 == args
            }
        },
{
    if let Ok(p) = spawn_plan(action, terminal) {
        if !action.spec_terminal() {
            assert(seq![p.0] + p.1 =~= action.spec_args());
        }
    }
}

impl SystemExecutor {
    /// The process to start for `action`, given the terminal emulator that
    /// was found (used only when the action wants one). An empty command line
    /// is refused first, then a missing terminal.
    pub fn command(&self, action: &LaunchAction, terminal: Option<TerminalCommand>) -> (r: Result<SpawnCommand, LaunchError>)
        ensures
            action.spec_args().len() == 0 ==> r matches Err(LaunchError::EmptyCommand),
            action.spec_args().len() > 0 && action.spec_terminal() && terminal is None ==> r matches Err(
                LaunchError::NoTerminal,
            ),
            r matches Ok(c) ==> spawn_plan(
                *action,
                match terminal {
                    Some(t) => Some((t.executable@, t.prefix.deep_view())),
                    None => None,
                },
            ) == Ok::<(Seq<char>, Seq<Seq<char>>, Option<Seq<char>>), ()>((c.program@, c.args.deep_view(), c.working_directory.deep_view())),
            r is Ok <==> spawn_plan(
                *action,
                match terminal {
                    Some(t) => Some((t.executable@, t.prefix.deep_view())),
                    None => None,
                },
            ) is Ok,
    {
        let (args, working_directory, wants_terminal) = match action {
            LaunchAction::DesktopEntry(e) => (&e.args, &e.working_directory, e.terminal),
            LaunchAction::DesktopAction(a) => (&a.args, &a.working_directory, a.terminal),
        };
        if args.len() == 0 {
            return Err(LaunchError::EmptyCommand);
        }
        let working_directory = working_directory.clone();
        if wants_terminal {
            match terminal {
                None => Err(LaunchError::NoTerminal),
                Some(t) => {
                    let mut all = t.prefix;
                    let ghost prefix = all.deep_view();
                    let mut i: usize = 0;
                    while i < args.len()
                        invariant
                            i <= args@.len(),
                            all.deep_view() == prefix + args.deep_view().take(i as int),
                        decreases args.len() - i,
                    {
                        assert(args.deep_view().take(i + 1) == args.deep_view().take(i as int).push(args@[i as int]@));
                        push_text(&mut all, args[i].clone());
                        i = i + 1;
                    }
                    assert(args.deep_view().take(args@.len() as int) == args.deep_view());
                    Ok(SpawnCommand { program: t.executable, args: all, working_directory })
                },
            }
        } else {
            let program = args[0].clone();
            let mut rest: Vec<String> = Vec::new();
            let mut i: usize = 1;
            while i < args.len()
                invariant
                    1 <= i <= args@.len(),
                    rest.deep_view() == args.deep_view().subrange(1, i as int),
                decreases args.len() - i,
            {
                assert(args.deep_view().subrange(1, i + 1) == args.deep_view().subrange(1, i as int).push(args@[i as int]@));
                push_text(&mut rest, args[i].clone());
                i = i + 1;
            }
            assert(args.deep_view().subrange(1, args@.len() as int) == args.deep_view().drop_first());
            Ok(SpawnCommand { program, args: rest, working_directory })
        }
    }
}

/// The terminal emulators tried, in order: `$TERMINAL` when set, then
/// `x-terminal-emulator`, then a fixed list of common ones.
pub open spec fn terminal_candidates(env_terminal: Option<Seq<char>>) -> Seq<Seq<char>> {
    let known = seq![
        "x-terminal-emulator"@,
        "ghostty"@,
        "kitty"@,
        "alacritty"@,
        "konsole"@,
        "gnome-terminal"@,
        "xfce4-terminal"@,
    ];
    match env_terminal {
        Some(t) => seq![t] + known,
        None => known,
    }
}

/// The terminal emulators tried, in order.
pub fn terminal_candidates_of(env_terminal: &Option<String>) -> (r: Vec<String>)
    ensures
        r.deep_view() == terminal_candidates(env_terminal.deep_view()),
{
    let mut r: Vec<String> = Vec::new();
    match env_terminal {
        Some(t) => push_text(&mut r, t.clone()),
        None => {},
    }
    push_text(&mut r, String::from_str("x-terminal-emulator"));
    push_text(&mut r, String::from_str("ghostty"));
    push_text(&mut r, String::from_str("kitty"));
    push_text(&mut r, String::from_str("alacritty"));
    push_text(&mut r, String::from_str("konsole"));
    push_text(&mut r, String::from_str("gnome-terminal"));
    push_text(&mut r, String::from_str("xfce4-terminal"));
    assert(r.deep_view() =~= terminal_candidates(env_terminal.deep_view()));
    r
}

/// Where an executable called `candidate` is looked for: the path itself
/// when it is absolute or has more than one component, otherwise under each
/// directory of `$PATH` in order (nowhere when `$PATH` is unset).
pub open spec fn executable_locations(candidate: Seq<char>, path_dirs: Option<Seq<Seq<char>>>) -> Seq<Seq<char>> {
    let cs = path_components(candidate);
    if (candidate.len() > 0 && candidate[0] == '/') || cs.len() > 1 {
        seq![candidate]
    } else {
        match path_dirs {
            Some(ds) => ds.map_values(|d: Seq<char>| join_path(d, candidate)),
            None => seq![],
        }
    }
}

/// `found` is the first of `paths` that `check` accepted, every earlier one
/// having been turned down.
pub open spec fn first_accepted<F: Fn(&String) -> bool>(check: F, paths: Seq<Seq<char>>, found: Seq<char>) -> bool {
    exists|i: int|
        0 <= i < paths.len() && paths[i] == found && #[trigger] reported(check, paths[i], true) && forall|j: int|
            0 <= j < i ==> #[trigger] reported(check, paths[j], false)
}

/// The first location of the executable `candidate` that `is_file` accepts.
pub fn find_executable<F: Fn(&String) -> bool>(candidate: &str, path_dirs: &Option<Vec<String>>, is_file: &F) -> (r: Option<String>)
    requires
        forall|p: String| call_requires(*is_file, (&p,)),
    ensures
        r matches Some(p) ==> first_accepted(*is_file, executable_locations(candidate@, path_dirs.deep_view()), p@),
        r is None ==> missed_all(*is_file, executable_locations(candidate@, path_dirs.deep_view())),
{
    let ghost locs = executable_locations(candidate@, path_dirs.deep_view());
    let cs = components(candidate);
    let chars = crate::text::to_chars(candidate);
    if (chars.len() > 0 && chars[0] == '/') || cs.len() > 1 {
        let c = String::from_str(candidate);
        assert(locs == seq![c@]);
        if is_file(&c) {
            assert(reported(*is_file, locs[0], true));
            return Some(c);
        }
        assert(reported(*is_file, locs[0], false));
        return None;
    }
    match path_dirs {
        None => {
            assert(locs.len() == 0);
            None
        },
        Some(dirs) => {
            let mut i: usize = 0;
            while i < dirs.len()
                invariant
                    i <= dirs@.len(),
                    forall|p: String| call_requires(*is_file, (&p,)),
                    locs == dirs.deep_view().map_values(|d: Seq<char>| join_path(d, candidate@)),
                    locs == executable_locations(candidate@, path_dirs.deep_view()),
                    forall|k: int| 0 <= k < i ==> #[trigger] reported(*is_file, locs[k], false),
                decreases dirs.len() - i,
            {
                let path = join(dirs[i].as_str(), candidate);
                assert(path@ == locs[i as int]);
                if is_file(&path) {
                    assert(reported(*is_file, locs[i as int], true));
                    return Some(path);
                }
                assert(reported(*is_file, locs[i as int], false));
                i = i + 1;
            }
            None
        },
    }
}

/// A terminal emulator candidate is passed over: it has no usable name, or
/// it was looked for everywhere and not found.
pub open spec fn passed_over<F: Fn(&String) -> bool>(check: F, candidate: Seq<char>, path_dirs: Option<Seq<Seq<char>>>) -> bool {
    file_name(candidate) is None || missed_all(check, executable_locations(candidate, path_dirs))
}

/// `t` is what candidate `candidate` gives: its first accepted location and
/// the prefix its name calls for.
pub open spec fn gives<F: Fn(&String) -> bool>(check: F, candidate: Seq<char>, path_dirs: Option<Seq<Seq<char>>>, t: TerminalCommand) -> bool {
    &&& file_name(candidate) matches Some(n) && t.prefix.deep_view() == spec_terminal_prefix(n)
    &&& first_accepted(check, executable_locations(candidate, path_dirs), t.executable@)
}

/// The first terminal emulator that is installed: `$TERMINAL` (passed in as
/// `env_terminal`), `x-terminal-emulator`, then common emulators, each looked
/// up in `path_dirs` (the directories of `$PATH`).
pub fn resolve_terminal<F: Fn(&String) -> bool>(env_terminal: Option<String>, path_dirs: &Option<Vec<String>>, is_file: &F) -> (r: Option<TerminalCommand>)
    requires
        forall|p: String| call_requires(*is_file, (&p,)),
    ensures
        r matches Some(t) ==> exists|k: int|
            0 <= k < terminal_candidates(env_terminal.deep_view()).len() && #[trigger] gives(
                *is_file,
                terminal_candidates(env_terminal.deep_view())[k],
                path_dirs.deep_view(),
                t,
            ) && forall|j: int|
                0 <= j < k ==> #[trigger] passed_over(
                    *is_file,
                    terminal_candidates(env_terminal.deep_view())[j],
                    path_dirs.deep_view(),
                ),
        r is None ==> forall|j: int|
            0 <= j < terminal_candidates(env_terminal.deep_view()).len() ==> #[trigger] passed_over(
                *is_file,
                terminal_candidates(env_terminal.deep_view())[j],
                path_dirs.deep_view(),
            ),
{
    let ghost expected = terminal_candidates(env_terminal.deep_view());
    let candidates = terminal_candidates_of(&env_terminal);
    let ghost cands = candidates.deep_view();
    assert(cands == expected);
    let mut i: usize = 0;
    while i < candidates.len()
        invariant
            i <= candidates@.len(),
            cands == candidates.deep_view(),
            cands == expected,
            expected == terminal_candidates(env_terminal.deep_view()),
            forall|p: String| call_requires(*is_file, (&p,)),
            forall|j: int| 0 <= j < i ==> #[trigger] passed_over(*is_file, cands[j], path_dirs.deep_view()),
        decreases candidates.len() - i,
    {
        let candidate = &candidates[i];
        assert(cands[i as int] == candidate@);
        match find_executable(candidate.as_str(), path_dirs, is_file) {
            None => {},
            Some(executable) => {
                match file_name_of(candidate.as_str()) {
                    None => {},
                    Some(name) => {
                        let prefix = terminal_prefix(name.as_str());
                        let t = TerminalCommand { executable, prefix };
                        let r = Some(t);
                        proof {
                            let tc = terminal_candidates(env_terminal.deep_view());
                            assert(gives(*is_file, tc[i as int], path_dirs.deep_view(), r->0));
                        }
                        return r;
                    },
                }
            },
        }
        i = i + 1;
    }
    None
}

} // verus!
