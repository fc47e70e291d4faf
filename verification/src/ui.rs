//! The launcher's interaction state: the query, the ranked matches, the
//! highlighted row, the actions view, and what each message does to them.
//! Rendering, searching with scores and running processes are done by the
//! caller, which is told what to do through an [`Effect`].
use vstd::prelude::*;
use crate::applications::{
    actions_for_entry, actions_view, entry_actions, DesktopAction, DesktopEntryScanner,
};
use crate::entry::{action_group, DesktopEntry};
use crate::history::{with_launch, History};
use crate::launch::{
    entry_exec_arguments, entry_exec_parse, reports, DesktopActionLaunch, DesktopEntryLaunch,
    ExecFailure, LaunchAction, LaunchError,
};

verus! {

/// Which list the launcher shows.
#[derive(Clone, Copy, PartialEq, Eq, Structural)]
pub enum ViewMode {
    Applications,
    Actions,
}

/// The background of a result row.
#[derive(Clone, Copy, PartialEq, Eq, Structural)]
pub enum Surface {
    Plain,
    Highlighted,
    Failed,
}

/// The background of a result row: a row whose launch failed shows the error
/// surface; otherwise a selected or hovered row is highlighted.
pub fn result_surface(selected: bool, hovered: bool, failed: bool) -> (r: Surface)
    ensures
        r == (if failed {
            Surface::Failed
        } else if selected || hovered {
            Surface::Highlighted
        } else {
            Surface::Plain
        }),
{
    if failed {
        Surface::Failed
    } else if selected || hovered {
        Surface::Highlighted
    } else {
        Surface::Plain
    }
}

/// The keys the launcher reacts to.
#[derive(Clone, Copy, PartialEq, Eq, Structural)]
pub enum Key {
    ArrowUp,
    ArrowDown,
    Enter,
    Tab,
    Escape,
    Other,
}

/// What the user or the window did.
pub enum Message {
    QueryChanged(String),
    MoveUp,
    MoveDown,
    Select(usize),
    SelectAction(usize),
    OpenActions,
    Dismiss,
    /// The window lost focus.
    WindowUnfocused,
    /// Any other window event.
    WindowOther,
    KeyPressed(Key),
}

/// What the caller is to do after a message.
pub enum Effect {
    Nothing,
    /// Close the launcher.
    Exit,
    /// Search again for the current query, hand the ranked entry positions
    /// to [`Launcher::refresh`], and scroll the results to the top.
    RefreshMatches,
    /// Scroll the results so that this row shows.
    ScrollToRow(usize),
    /// Run this, then report the outcome to [`Launcher::launch_finished`].
    Launch(LaunchAction),
    /// Save the launch history, then close the launcher.
    PersistHistoryAndExit,
}

/// The text shown when the chosen entry is gone.
pub open spec fn unavailable_text() -> Seq<char> {
    "Selected application is no longer available"@
}

/// The text a launch error displays.
pub open spec fn error_text(e: LaunchError) -> Seq<char> {
    match e {
        LaunchError::InvalidExec(f) => "could not parse Exec field: "@ + match f {
            ExecFailure::WrongFormat(m) => m@,
            ExecFailure::ExecFieldIsEmpty => "Exec field is empty"@,
            ExecFailure::ExecFieldNotFound => "Exec key was not found"@,
        },
        LaunchError::EmptyCommand => "launch command is empty"@,
        LaunchError::NoTerminal => "no terminal emulator is available"@,
        LaunchError::Spawn(m) => "could not spawn application: "@ + m@,
    }
}

/// `a` launches the main command of `e`.
pub open spec fn launches_entry(a: LaunchAction, e: DesktopEntry) -> bool {
    &&& a is DesktopEntry
    &&& a.spec_appid() == e.appid@
    &&& Some(a.spec_args()) == entry_exec_arguments(e, e.spec_entry("Exec"@))
    &&& a.spec_working_directory() == e.spec_entry("Path"@)
    &&& a.spec_terminal() == e.spec_flag("Terminal"@)
}

/// `a` launches the action `id` of `e`.
pub open spec fn launches_action(a: LaunchAction, e: DesktopEntry, id: Seq<char>) -> bool {
    &&& a matches LaunchAction::DesktopAction(l) && l.action_id@ == id
    &&& a.spec_appid() == e.appid@
    &&& Some(a.spec_args()) == entry_exec_arguments(e, e.spec_value(action_group(id), "Exec"@))
    &&& a.spec_working_directory() == e.spec_entry("Path"@)
    &&& a.spec_terminal() == e.spec_flag("Terminal"@)
}

/// The launcher's state.
pub struct Launcher {
    scanner: DesktopEntryScanner,
    locales: Vec<String>,
    query: String,
    matches: Vec<usize>,
    selected: usize,
    selection: Option<usize>,
    selection_error: Option<String>,
    mode: ViewMode,
    actions: Vec<DesktopAction>,
    action_selected: usize,
    history: History,
    pending: Option<String>,
}

/// The launcher's state as values.
pub struct LauncherState {
    pub query: Seq<char>,
    pub matches: Seq<usize>,
    pub selected: usize,
    pub selection: Option<usize>,
    pub error: Option<Seq<char>>,
    pub mode: ViewMode,
    pub actions: Seq<(Seq<char>, Seq<char>)>,
    pub action_selected: usize,
    pub history: Map<Seq<char>, Seq<i64>>,
    /// Where the history is saved.
    pub history_path: Option<Seq<char>>,
    pub pending: Option<Seq<char>>,
}

/// The highlighted row is a row of the results (row 0 when there are none),
/// and the highlighted action is one of the actions (0 when there are none).
pub open spec fn highlight_in_range(s: LauncherState) -> bool {
    &&& s.matches.len() == 0 ==> s.selected == 0
    &&& s.matches.len() > 0 ==> s.selected < s.matches.len()
    &&& s.actions.len() == 0 ==> s.action_selected == 0
    &&& s.actions.len() > 0 ==> s.action_selected < s.actions.len()
}

/// The highlighted row after moving up one: it stops at the first row.
pub open spec fn row_above(selected: usize) -> usize {
    if selected > 0 {
        (selected - 1) as usize
    } else {
        0
    }
}

/// The highlighted row after moving down one among `len` rows: it stops at
/// the last row.
pub open spec fn row_below(selected: usize, len: nat) -> usize {
    if selected + 1 < len {
        (selected + 1) as usize
    } else {
        (len - 1) as usize
    }
}

/// The highlighted row after new matches: kept when it is still a row,
/// otherwise the last row (row 0 when there are none).
pub open spec fn clamp_row(selected: usize, len: nat) -> usize {
    if len == 0 {
        0
    } else if selected < len {
        selected
    } else {
        (len - 1) as usize
    }
}

/// What choosing entry `index` does: it becomes the selection; a missing
/// entry or an unreadable command is reported, otherwise its main command is
/// to be launched.
pub open spec fn after_select(old: LauncherState, new: LauncherState, effect: Effect, entries: Seq<DesktopEntry>, index: usize) -> bool {
    if index >= entries.len() {
        &&& new == LauncherState { selection: Some(index), error: Some(unavailable_text()), ..old }
        &&& effect is Nothing
    } else {
        let e = entries[index as int];
        if entry_exec_arguments(e, e.spec_entry("Exec"@)) is Some {
            &&& new == LauncherState { selection: Some(index), error: None, pending: Some(e.appid@), ..old }
            &&& effect matches Effect::Launch(a) && launches_entry(a, e)
        } else {
            &&& exists|f: ExecFailure|
                reports(f, entry_exec_parse(e, e.spec_entry("Exec"@)))
                && new == LauncherState { selection: Some(index), error: Some(#[trigger] error_text(LaunchError::InvalidExec(f))), ..old }
            &&& effect is Nothing
        }
    }
}

/// What choosing action `index` of the highlighted entry does: nothing
/// without a highlighted entry or such an action; a missing entry or an
/// unreadable command is reported; otherwise the action is to be launched.
pub open spec fn after_select_action(old: LauncherState, new: LauncherState, effect: Effect, entries: Seq<DesktopEntry>, index: usize) -> bool {
    if !(old.selected < old.matches.len()) || index >= old.actions.len() {
        new == old && effect is Nothing
    } else {
        let parent = old.matches[old.selected as int];
        if parent >= entries.len() {
            &&& new == LauncherState { error: Some(unavailable_text()), ..old }
            &&& effect is Nothing
        } else {
            let e = entries[parent as int];
            let id = old.actions[index as int].0;
            if entry_exec_arguments(e, e.spec_value(action_group(id), "Exec"@)) is Some {
                &&& new == LauncherState { error: None, pending: Some(e.appid@), ..old }
                &&& effect matches Effect::Launch(a) && launches_action(a, e, id)
            } else {
                &&& exists|f: ExecFailure|
                    reports(f, entry_exec_parse(e, e.spec_value(action_group(id), "Exec"@)))
                    && new == LauncherState { error: Some(#[trigger] error_text(LaunchError::InvalidExec(f))), ..old }
                &&& effect is Nothing
            }
        }
    }
}

/// What opening the actions of the highlighted entry does: when it has
/// actions, they are listed with the first highlighted; otherwise nothing.
pub open spec fn after_open_actions(old: LauncherState, new: LauncherState, entries: Seq<DesktopEntry>, locales: Seq<Seq<char>>) -> bool {
    if old.selected < old.matches.len() && old.matches[old.selected as int] < entries.len()
        && entry_actions(entries[old.matches[old.selected as int] as int], locales).len() > 0 {
        new == LauncherState {
            actions: entry_actions(entries[old.matches[old.selected as int] as int], locales),
            action_selected: 0,
            error: None,
            mode: ViewMode::Actions,
            ..old
        }
    } else {
        new == old
    }
}

/// Moving the highlight up (`down == false`) or down one row or action.
pub open spec fn after_move(old: LauncherState, new: LauncherState, effect: Effect, down: bool) -> bool {
    match old.mode {
        ViewMode::Applications => if old.matches.len() == 0 {
            new == old && effect is Nothing
        } else {
            let row = if down {
                row_below(old.selected, old.matches.len())
            } else {
                row_above(old.selected)
            };
            &&& new == LauncherState { selected: row, ..old }
            &&& if row == old.selected {
                effect is Nothing
            } else {
                effect matches Effect::ScrollToRow(r) && r == row
            }
        },
        ViewMode::Actions => {
            &&& effect is Nothing
            &&& if down {
                if old.actions.len() == 0 {
                    new == old
                } else {
                    new == LauncherState { action_selected: row_below(old.action_selected, old.actions.len()), ..old }
                }
            } else {
                new == LauncherState { action_selected: row_above(old.action_selected), ..old }
            }
        },
    }
}

/// Moving down highlights the next row, in either list, when there is one;
/// nothing else changes.
pub proof fn lemma_down_moves_to_the_next_row(s0: LauncherState, s1: LauncherState, e: Effect)
    requires
        after_move(s0, s1, e, true),
        s0.matches.len() <= usize::MAX,
        s0.actions.len() <= usize::MAX,
    ensures
        s0.mode == ViewMode::Applications && s0.selected + 1 < s0.matches.len() ==> s1 == (LauncherState {
            selected: (s0.selected + 1) as usize,
            ..s0
        }) && (e matches Effect::ScrollToRow(r) && r == s0.selected + 1),
        s0.mode == ViewMode::Actions && s0.action_selected + 1 < s0.actions.len() ==> s1 == (LauncherState {
            action_selected: (s0.action_selected + 1) as usize,
            ..s0
        }) && e is Nothing,
{
}

/// Moving up highlights the previous row, in either list, when there is
/// one; nothing else changes.
pub proof fn lemma_up_moves_to_the_previous_row(s0: LauncherState, s1: LauncherState, e: Effect)
    requires
        after_move(s0, s1, e, false),
    ensures
        s0.mode == ViewMode::Applications && 0 < s0.selected < s0.matches.len() ==> s1 == (LauncherState {
            selected: (s0.selected - 1) as usize,
            ..s0
        }) && (e matches Effect::ScrollToRow(r) && r == s0.selected - 1),
        s0.mode == ViewMode::Actions && 0 < s0.action_selected < s0.actions.len() ==> s1 == (LauncherState {
            action_selected: (s0.action_selected - 1) as usize,
            ..s0
        }) && e is Nothing,
{
}

/// In the actions list, moving down and back up returns to the same action
/// when there is one below it.
pub proof fn lemma_actions_down_then_up(s0: LauncherState, s1: LauncherState, s2: LauncherState, e1: Effect, e2: Effect)
    requires
        s0.mode == ViewMode::Actions,
        s0.action_selected + 1 < s0.actions.len(),
        s0.actions.len() <= usize::MAX,
        after_move(s0, s1, e1, true),
        after_move(s1, s2, e2, false),
    ensures
        s1.action_selected == s0.action_selected + 1,
        s2 == s0,
{
}

/// Moving the highlight down one row and back up one row returns to the
/// same state, when there is a row below the highlighted one.
pub proof fn lemma_down_then_up(s0: LauncherState, s1: LauncherState, s2: LauncherState, e1: Effect, e2: Effect)
    requires
        s0.mode == ViewMode::Applications,
        s0.selected + 1 < s0.matches.len(),
        s0.matches.len() <= usize::MAX,
        after_move(s0, s1, e1, true),
        after_move(s1, s2, e2, false),
    ensures
        s2 == s0,
{
}

/// Moving the highlight up one row and back down one row returns to the
/// same state, when there is a row above the highlighted one.
pub proof fn lemma_up_then_down(s0: LauncherState, s1: LauncherState, s2: LauncherState, e1: Effect, e2: Effect)
    requires
        s0.mode == ViewMode::Applications,
        highlight_in_range(s0),
        s0.selected > 0,
        after_move(s0, s1, e1, false),
        after_move(s1, s2, e2, true),
    ensures
        s2 == s0,
{
}

impl Launcher {
    #[verifier::type_invariant]
    spec fn well_formed(self) -> bool {
        &&& if self.matches@.len() == 0 {
            self.selected == 0
        } else {
            self.selected < self.matches@.len()
        }
        &&& self.actions@.len() == 0 ==> self.action_selected == 0
        &&& self.actions@.len() > 0 ==> self.action_selected < self.actions@.len()
    }

    /// The state as values.
    pub closed spec fn state(self) -> LauncherState {
        LauncherState {
            query: self.query@,
            matches: self.matches@,
            selected: self.selected,
            selection: self.selection,
            error: self.selection_error.deep_view(),
            mode: self.mode,
            actions: actions_view(self.actions@),
            action_selected: self.action_selected,
            history: self.history@,
            history_path: self.history.spec_path(),
            pending: self.pending.deep_view(),
        }
    }

    /// The entries offered.
    pub closed spec fn spec_entries(self) -> Seq<DesktopEntry> {
        self.scanner@
    }

    /// The preferred locales.
    pub closed spec fn spec_locales(self) -> Seq<Seq<char>> {
        self.locales.deep_view()
    }

    /// A launcher over `scanner` with no query, no matches yet, and the
    /// applications list shown.
    pub fn new(scanner: DesktopEntryScanner, history: History, locales: Vec<String>) -> (r: Self)
        ensures
            r.spec_entries() == scanner@,
            r.spec_locales() == locales.deep_view(),
            r.state().query == Seq::<char>::empty(),
            r.state().matches == Seq::<usize>::empty(),
            r.state().selected == 0,
            r.state().selection is None,
            r.state().error is None,
            r.state().mode == ViewMode::Applications,
            r.state().actions == Seq::<(Seq<char>, Seq<char>)>::empty(),
            r.state().action_selected == 0,
            r.state().history == history@,
            r.state().history_path == history.spec_path(),
            r.state().pending is None,
    {
        let r = Launcher {
            scanner,
            locales,
            query: String::new(),
            matches: Vec::new(),
            selected: 0,
            selection: None,
            selection_error: None,
            mode: ViewMode::Applications,
            actions: Vec::new(),
            action_selected: 0,
            history,
            pending: None,
        };
        assert(actions_view(r.actions@) =~= Seq::<(Seq<char>, Seq<char>)>::empty());
        r
    }

    /// The entries offered.
    pub fn scanner(&self) -> (r: &DesktopEntryScanner)
        ensures
            r@ == self.spec_entries(),
    {
        &self.scanner
    }

    /// The launch history.
    pub fn history(&self) -> (r: &History)
        ensures
            r@ == self.state().history,
            r.spec_path() == self.state().history_path,
    {
        &self.history
    }

    /// The preferred locales.
    pub fn locales(&self) -> (r: &Vec<String>)
        ensures
            r.deep_view() == self.spec_locales(),
    {
        &self.locales
    }

    /// The query.
    pub fn query(&self) -> (r: &String)
        ensures
            r@ == self.state().query,
    {
        &self.query
    }

    /// The matching entries' positions, best first.
    pub fn matches(&self) -> (r: &Vec<usize>)
        ensures
            r@ == self.state().matches,
    {
        &self.matches
    }

    /// The highlighted row of the results.
    pub fn selected_row(&self) -> (r: usize)
        ensures
            r == self.state().selected,
    {
        self.selected
    }

    /// The entry position last chosen, if any.
    pub fn selection(&self) -> (r: Option<usize>)
        ensures
            r == self.state().selection,
    {
        self.selection
    }

    /// Why the last choice could not be launched, if it could not.
    pub fn selection_error(&self) -> (r: &Option<String>)
        ensures
            r.deep_view() == self.state().error,
    {
        &self.selection_error
    }

    /// Which list is shown.
    pub fn mode(&self) -> (r: ViewMode)
        ensures
            r == self.state().mode,
    {
        self.mode
    }

    /// The actions shown in the actions list.
    pub fn actions(&self) -> (r: &Vec<DesktopAction>)
        ensures
            actions_view(r@) == self.state().actions,
    {
        &self.actions
    }

    /// The highlighted action.
    pub fn action_selected(&self) -> (r: usize)
        ensures
            r == self.state().action_selected,
    {
        self.action_selected
    }

    /// The entry last chosen, if it is still offered.
    pub fn selected(&self) -> (r: Option<&DesktopEntry>)
        ensures
            r matches Some(e) ==> self.state().selection matches Some(i) && i < self.spec_entries().len()
                && *e == self.spec_entries()[i as int],
            r is None ==> !(self.state().selection matches Some(i) && i < self.spec_entries().len()),
    {
        match self.selection {
            Some(index) => {
                let entries = self.scanner.entries();
                if index < entries.len() {
                    Some(&entries[index])
                } else {
                    None
                }
            },
            None => None,
        }
    }
}

impl Launcher {
    /// Takes the ranked entry positions found for the current query: the
    /// highlighted row stays when it still exists, otherwise it goes to the
    /// last row; the error is cleared.
    pub fn refresh(&mut self, matches: Vec<usize>)
        ensures
            final(self).state() == (LauncherState {
                matches: matches@,
                selected: clamp_row(old(self).state().selected, matches@.len()),
                error: None,
                ..old(self).state()
            }),
            final(self).spec_entries() == old(self).spec_entries(),
            final(self).spec_locales() == old(self).spec_locales(),
            highlight_in_range(final(self).state()),
    {
        proof {
            use_type_invariant(&*self);
        }
        let previous = self.selected;
        let len = matches.len();
        self.selected = 0;
        self.matches = matches;
        self.selected = if len == 0 {
            0
        } else if previous < len {
            previous
        } else {
            len - 1
        };
        self.selection_error = None;
    }

    fn move_rows(&mut self, down: bool) -> (effect: Effect)
        requires
            old(self).state().mode == ViewMode::Applications,
        ensures
            after_move(old(self).state(), final(self).state(), effect, down),
            final(self).spec_entries() == old(self).spec_entries(),
            final(self).spec_locales() == old(self).spec_locales(),
    {
        proof {
            use_type_invariant(&*self);
        }
        if self.matches.len() == 0 {
            return Effect::Nothing;
        }
        let previous = self.selected;
        self.selected = if down {
            if previous + 1 < self.matches.len() {
                previous + 1
            } else {
                self.matches.len() - 1
            }
        } else {
            if previous > 0 {
                previous - 1
            } else {
                0
            }
        };
        if self.selected == previous {
            Effect::Nothing
        } else {
            Effect::ScrollToRow(self.selected)
        }
    }

    fn move_action(&mut self, down: bool) -> (effect: Effect)
        requires
            old(self).state().mode == ViewMode::Actions,
        ensures
            after_move(old(self).state(), final(self).state(), effect, down),
            final(self).spec_entries() == old(self).spec_entries(),
            final(self).spec_locales() == old(self).spec_locales(),
    {
        proof {
            use_type_invariant(&*self);
        }
        if down {
            if self.actions.len() > 0 {
                self.action_selected = if self.action_selected + 1 < self.actions.len() {
                    self.action_selected + 1
                } else {
                    self.actions.len() - 1
                };
            }
        } else {
            self.action_selected = if self.action_selected > 0 {
                self.action_selected - 1
            } else {
                0
            };
        }
        Effect::Nothing
    }

    fn select(&mut self, index: usize) -> (effect: Effect)
        ensures
            after_select(old(self).state(), final(self).state(), effect, old(self).spec_entries(), index),
            final(self).spec_entries() == old(self).spec_entries(),
            final(self).spec_locales() == old(self).spec_locales(),
    {
        proof {
            use_type_invariant(&*self);
        }
        self.selection = Some(index);
        self.selection_error = None;
        let entries = self.scanner.entries();
        if index >= entries.len() {
            self.selection_error = Some(String::from_str("Selected application is no longer available"));
            return Effect::Nothing;
        }
        let entry = &entries[index];
        match DesktopEntryLaunch::from_entry(entry) {
            Ok(launch) => {
                self.pending = Some(entry.id().clone());
                Effect::Launch(LaunchAction::DesktopEntry(launch))
            },
            Err(error) => {
                self.selection_error = Some(error.message());
                proof {
                    let f = error->InvalidExec_0;
                    assert(error == LaunchError::InvalidExec(f));
                    assert(self.selection_error.deep_view() == Some(error_text(LaunchError::InvalidExec(f))));
                }
                Effect::Nothing
            },
        }
    }

    fn open_actions(&mut self)
        ensures
            after_open_actions(old(self).state(), final(self).state(), old(self).spec_entries(), old(self).spec_locales()),
            final(self).spec_entries() == old(self).spec_entries(),
            final(self).spec_locales() == old(self).spec_locales(),
    {
        proof {
            use_type_invariant(&*self);
        }
        if self.selected >= self.matches.len() {
            return;
        }
        let index = self.matches[self.selected];
        let entries = self.scanner.entries();
        if index >= entries.len() {
            return;
        }
        let actions = actions_for_entry(&entries[index], &self.locales);
        if actions.len() == 0 {
            return;
        }
        self.action_selected = 0;
        self.actions = actions;
        self.selection_error = None;
        self.mode = ViewMode::Actions;
    }

    fn select_action(&mut self, index: usize) -> (effect: Effect)
        ensures
            after_select_action(old(self).state(), final(self).state(), effect, old(self).spec_entries(), index),
            final(self).spec_entries() == old(self).spec_entries(),
            final(self).spec_locales() == old(self).spec_locales(),
    {
        proof {
            use_type_invariant(&*self);
        }
        if self.selected >= self.matches.len() || index >= self.actions.len() {
            return Effect::Nothing;
        }
        let parent = self.matches[self.selected];
        let entries = self.scanner.entries();
        if parent >= entries.len() {
            self.selection_error = Some(String::from_str("Selected application is no longer available"));
            return Effect::Nothing;
        }
        self.selection_error = None;
        let entry = &entries[parent];
        match DesktopActionLaunch::from_entry(entry, self.actions[index].id.as_str()) {
            Ok(launch) => {
                self.pending = Some(entry.id().clone());
                Effect::Launch(LaunchAction::DesktopAction(launch))
            },
            Err(error) => {
                self.selection_error = Some(error.message());
                proof {
                    let f = error->InvalidExec_0;
                    assert(error == LaunchError::InvalidExec(f));
                    assert(self.selection_error.deep_view() == Some(error_text(LaunchError::InvalidExec(f))));
                }
                Effect::Nothing
            },
        }
    }
}

impl Launcher {
    /// Applies one message and says what the caller is to do next.
    pub fn update(&mut self, message: Message) -> (effect: Effect)
        ensures
            final(self).spec_entries() == old(self).spec_entries(),
            final(self).spec_locales() == old(self).spec_locales(),
            highlight_in_range(final(self).state()),
            match message {
                Message::QueryChanged(q) => final(self).state() == (LauncherState { query: q@, ..old(self).state() })
                    && effect is RefreshMatches,
                Message::MoveUp => after_move(old(self).state(), final(self).state(), effect, false),
                Message::MoveDown => after_move(old(self).state(), final(self).state(), effect, true),
                Message::Select(i) => if old(self).state().mode == ViewMode::Applications {
                    after_select(old(self).state(), final(self).state(), effect, old(self).spec_entries(), i)
                } else {
                    final(self).state() == old(self).state() && effect is Nothing
                },
                Message::SelectAction(i) => if old(self).state().mode == ViewMode::Actions {
                    after_select_action(old(self).state(), final(self).state(), effect, old(self).spec_entries(), i)
                } else {
                    final(self).state() == old(self).state() && effect is Nothing
                },
                Message::OpenActions => after_open_actions(
                    old(self).state(),
                    final(self).state(),
                    old(self).spec_entries(),
                    old(self).spec_locales(),
                ) && effect is Nothing,
                Message::Dismiss => final(self).state() == old(self).state() && effect is Exit,
                Message::WindowUnfocused => final(self).state() == old(self).state() && effect is Exit,
                Message::WindowOther => final(self).state() == old(self).state() && effect is Nothing,
                Message::KeyPressed(key) => match key {
                    Key::ArrowUp => after_move(old(self).state(), final(self).state(), effect, false),
                    Key::ArrowDown => after_move(old(self).state(), final(self).state(), effect, true),
                    Key::Enter => match old(self).state().mode {
                        ViewMode::Applications => if old(self).state().selected < old(self).state().matches.len() {
                            after_select(
                                old(self).state(),
                                final(self).state(),
                                effect,
                                old(self).spec_entries(),
                                old(self).state().matches[old(self).state().selected as int],
                            )
                        } else {
                            final(self).state() == old(self).state() && effect is Nothing
                        },
                        ViewMode::Actions => after_select_action(
                            old(self).state(),
                            final(self).state(),
                            effect,
                            old(self).spec_entries(),
                            old(self).state().action_selected,
                        ),
                    },
                    Key::Tab => if old(self).state().mode == ViewMode::Applications {
                        after_open_actions(
                            old(self).state(),
                            final(self).state(),
                            old(self).spec_entries(),
                            old(self).spec_locales(),
                        ) && effect is Nothing
                    } else {
                        final(self).state() == old(self).state() && effect is Nothing
                    },
                    Key::Escape => if old(self).state().mode == ViewMode::Actions {
                        final(self).state() == (LauncherState {
                            mode: ViewMode::Applications,
                            error: None,
                            ..old(self).state()
                        }) && effect is Nothing
                    } else {
                        final(self).state() == old(self).state() && effect is Exit
                    },
                    Key::Other => final(self).state() == old(self).state() && effect is Nothing,
                },
            },
    {
        proof {
            use_type_invariant(&*self);
        }
        let effect = match message {
            Message::QueryChanged(query) => {
                self.query = query;
                Effect::RefreshMatches
            },
            Message::MoveUp => self.move_highlight(false),
            Message::MoveDown => self.move_highlight(true),
            Message::Select(index) => {
                if self.mode != ViewMode::Applications {
                    Effect::Nothing
                } else {
                    self.select(index)
                }
            },
            Message::SelectAction(index) => {
                if self.mode == ViewMode::Actions {
                    self.select_action(index)
                } else {
                    Effect::Nothing
                }
            },
            Message::OpenActions => {
                self.open_actions();
                Effect::Nothing
            },
            Message::Dismiss => Effect::Exit,
            Message::WindowUnfocused => Effect::Exit,
            Message::WindowOther => Effect::Nothing,
            Message::KeyPressed(key) => match key {
                Key::ArrowUp => self.move_highlight(false),
                Key::ArrowDown => self.move_highlight(true),
                Key::Enter => match self.mode {
                    ViewMode::Applications => {
                        if self.selected < self.matches.len() {
                            let index = self.matches[self.selected];
                            self.select(index)
                        } else {
                            Effect::Nothing
                        }
                    },
                    ViewMode::Actions => {
                        let index = self.action_selected;
                        self.select_action(index)
                    },
                },
                Key::Tab => {
                    if self.mode == ViewMode::Applications {
                        self.open_actions();
                    }
                    Effect::Nothing
                },
                Key::Escape => {
                    if self.mode == ViewMode::Actions {
                        self.mode = ViewMode::Applications;
                        self.selection_error = None;
                        Effect::Nothing
                    } else {
                        Effect::Exit
                    }
                },
                Key::Other => Effect::Nothing,
            },
        };
        proof {
            use_type_invariant(&*self);
        }
        effect
    }

    fn move_highlight(&mut self, down: bool) -> (effect: Effect)
        ensures
            after_move(old(self).state(), final(self).state(), effect, down),
            final(self).spec_entries() == old(self).spec_entries(),
            final(self).spec_locales() == old(self).spec_locales(),
    {
        match self.mode {
            ViewMode::Applications => self.move_rows(down),
            ViewMode::Actions => self.move_action(down),
        }
    }

    /// Takes the outcome of the launch last asked for: on success the launch
    /// is recorded in the history, which is then to be saved before closing;
    /// on failure the error is shown. Without a launch in flight nothing
    /// changes.
    pub fn launch_finished(&mut self, result: Result<(), LaunchError>) -> (effect: Effect)
        ensures
            final(self).spec_entries() == old(self).spec_entries(),
            final(self).spec_locales() == old(self).spec_locales(),
            highlight_in_range(final(self).state()),
            match old(self).state().pending {
                None => final(self).state() == old(self).state() && effect is Nothing,
                Some(appid) => match result {
                    Ok(()) => (exists|t: i64|
                        final(self).state() == (LauncherState {
                            history: #[trigger] with_launch(old(self).state().history, appid, t),
                            pending: None,
                            ..old(self).state()
                        })) && effect is PersistHistoryAndExit,
                    Err(e) => final(self).state() == (LauncherState {
                        error: Some(error_text(e)),
                        pending: None,
                        ..old(self).state()
                    }) && effect is Nothing,
                },
            },
    {
        proof {
            use_type_invariant(&*self);
        }
        let mut pending: Option<String> = None;
        std::mem::swap(&mut pending, &mut self.pending);
        let appid = match pending {
            Some(appid) => appid,
            None => return Effect::Nothing,
        };
        match result {
            Ok(()) => {
                let mut history = History::new(None);
                std::mem::swap(&mut history, &mut self.history);
                let ghost before = history@;
                history.record_launch(appid.as_str());
                let ghost after = history@;
                self.history = history;
                proof {
                    let t = choose|t: i64| after == with_launch(before, appid@, t);
                    assert(self.history@ == after);
                    assert(self.history.spec_path() == old(self).history.spec_path());
                    assert(old(self).state().pending == Some(appid@));
                    assert(self.state() == (LauncherState {
                        history: with_launch(old(self).state().history, old(self).state().pending->0, t),
                        pending: None,
                        ..old(self).state()
                    }));
                }
                Effect::PersistHistoryAndExit
            },
            Err(error) => {
                self.selection_error = Some(error.message());
                Effect::Nothing
            },
        }
    }
}

} // verus!
