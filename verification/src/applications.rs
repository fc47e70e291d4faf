//! Which desktop entries the launcher offers, their actions, and the plain
//! text search over them.
use vstd::prelude::*;
pub use crate::entry::DesktopEntry;
use crate::entry::{action_group, desktop_entry_group};
use crate::paths::{
    components, is_prefix, join, join_path, join_pieces, join_with, path_components,
    starts_with_components,
};
use crate::text::{
    CharClass, contains, contains_text, eq_ignore_ascii_case, equal_ignoring_ascii_case,
    find_char, from_chars, index_of, occurs_at, push_text, skip_class, skip_in, split_on,
    to_chars, to_lowercase, trim, trim_class, trim_in, trimmed, unicode_lowercase, until_class,
    until_in,
};

verus! {

/// An action of a desktop entry (`[Desktop Action <id>]`) with its name.
pub struct DesktopAction {
    pub id: String,
    pub name: String,
}

impl View for DesktopAction {
    type V = (Seq<char>, Seq<char>);

    open spec fn view(&self) -> (Seq<char>, Seq<char>) {
        (self.id@, self.name@)
    }
}

/// The action `id` of `entry` as the launcher lists it: it needs a name and
/// an `Exec`, neither of them blank.
pub open spec fn listed_action(entry: DesktopEntry, id: Seq<char>, locales: Seq<Seq<char>>) -> Option<(Seq<char>, Seq<char>)> {
    match (entry.spec_localized(action_group(id), "Name"@, locales), entry.spec_value(action_group(id), "Exec"@)) {
        (Some(name), Some(exec)) => if trimmed(name).len() == 0 || trimmed(exec).len() == 0 {
            None
        } else {
            Some((id, name))
        },
        _ => None,
    }
}

/// The listed actions among `ids`, in order.
pub open spec fn listed_actions(entry: DesktopEntry, ids: Seq<Seq<char>>, locales: Seq<Seq<char>>) -> Seq<(Seq<char>, Seq<char>)>
    decreases ids.len(),
{
    if ids.len() == 0 {
        seq![]
    } else {
        let before = listed_actions(entry, ids.drop_last(), locales);
        match listed_action(entry, ids.last(), locales) {
            Some(a) => before.push(a),
            None => before,
        }
    }
}

/// All listed actions of `entry`, in the order of its `Actions` key.
pub open spec fn entry_actions(entry: DesktopEntry, locales: Seq<Seq<char>>) -> Seq<(Seq<char>, Seq<char>)> {
    match entry.spec_list("Actions"@) {
        Some(ids) => listed_actions(entry, ids, locales),
        None => seq![],
    }
}

pub open spec fn actions_view(actions: Seq<DesktopAction>) -> Seq<(Seq<char>, Seq<char>)> {
    actions.map_values(|a: DesktopAction| a@)
}

/// The actions of `entry` that have a name and a command, in the order the
/// entry declares them.
pub fn actions_for_entry(entry: &DesktopEntry, locales: &Vec<String>) -> (r: Vec<DesktopAction>)
    ensures
        actions_view(r@) == entry_actions(*entry, locales.deep_view()),
{
    let mut r: Vec<DesktopAction> = Vec::new();
    let ids = match entry.actions() {
        Some(ids) => ids,
        None => {
            assert(actions_view(r@) =~= seq![]);
            return r;
        },
    };
    let ghost idv = ids.deep_view();
    let mut i: usize = 0;
    while i < ids.len()
        invariant
            i <= ids@.len(),
            idv == ids.deep_view(),
            actions_view(r@) == listed_actions(*entry, idv.take(i as int), locales.deep_view()),
        decreases ids.len() - i,
    {
        let id = &ids[i];
        assert(idv.take(i + 1).drop_last() == idv.take(i as int));
        assert(idv.take(i + 1).last() == id@);
        let name = entry.action_name(id.as_str(), locales);
        let exec = entry.action_exec(id.as_str());
        match (name, exec) {
            (Some(name), Some(exec)) => {
                let tn = trim(name.as_str());
                let te = trim(exec.as_str());
                if !tn.as_str().is_empty() && !te.as_str().is_empty() {
                    let ghost before = r@;
                    let action = DesktopAction { id: id.clone(), name };
                    r.push(action);
                    assert(actions_view(r@) =~= actions_view(before).push(action@));
                }
            },
            _ => {},
        }
        i = i + 1;
    }
    assert(idv.take(ids@.len() as int) == idv);
    r
}

/// The key under which two entry files count as the same entry: the file's
/// path below `directory`, components joined by `-`; none when the file is
/// not below `directory`.
pub open spec fn spec_desktop_id(directory: Seq<char>, path: Seq<char>) -> Option<Seq<char>> {
    let dc = path_components(directory);
    let pc = path_components(path);
    if is_prefix(dc, pc) {
        Some(join_pieces(pc.skip(dc.len() as int), '-'))
    } else {
        None
    }
}

/// The de-duplication key of the entry file `path` found under `directory`.
pub fn desktop_id(directory: &str, path: &str) -> (r: Option<String>)
    ensures
        r.deep_view() == spec_desktop_id(directory@, path@),
{
    let dc = components(directory);
    let pc = components(path);
    if starts_with_components(&dc, &pc) {
        Some(join_with(&pc, dc.len(), '-'))
    } else {
        None
    }
}

/// The program named by a command line: the text inside a leading pair of
/// quotes (trimmed), or else the first whitespace-separated word with quote
/// characters trimmed from both ends.
pub open spec fn executable_name(command: Seq<char>) -> Seq<char> {
    let t = trimmed(command);
    let rest = t.drop_first();
    let quoted = t.len() > 0 && (t[0] == '"' || t[0] == '\'');
    if quoted && index_of(rest, t[0], 0) < rest.len() {
        trimmed(rest.take(index_of(rest, t[0], 0)))
    } else {
        let a = skip_class(t, CharClass::AsciiSpace, 0);
        let b = until_class(t, CharClass::AsciiSpace, a);
        trim_class(t.subrange(a, b), CharClass::Quote)
    }
}

/// The files that are checked to find the program of `command`: none when
/// it names no program, the name itself when it holds a `/`, and otherwise
/// the name in each of `path_dirs`, in order.
pub open spec fn executable_candidates(command: Seq<char>, path_dirs: Seq<Seq<char>>) -> Seq<Seq<char>> {
    let exe = executable_name(command);
    if exe.len() == 0 {
        seq![]
    } else if contains_text(exe, seq!['/']) {
        seq![exe]
    } else {
        path_dirs.map_values(|d: Seq<char>| join_path(d, exe))
    }
}

/// Some call of `check` on a string holding `path` returned `answer`.
pub open spec fn reported<F: Fn(&String) -> bool>(check: F, path: Seq<char>, answer: bool) -> bool {
    exists|p: String| p@ == path && #[trigger] call_ensures(check, (&p,), answer)
}

/// `check` answered `true` for one of `paths`.
pub open spec fn found_among<F: Fn(&String) -> bool>(check: F, paths: Seq<Seq<char>>) -> bool {
    exists|i: int| 0 <= i < paths.len() && #[trigger] reported(check, paths[i], true)
}

/// `check` answered `false` for each of `paths`.
pub open spec fn missed_all<F: Fn(&String) -> bool>(check: F, paths: Seq<Seq<char>>) -> bool {
    forall|i: int| 0 <= i < paths.len() ==> #[trigger] reported(check, paths[i], false)
}

/// The program named by `command`.
pub fn executable_name_of(command: &str) -> (r: String)
    ensures
        r@ == executable_name(command@),
{
    let c = to_chars(command);
    let t = trim_in(&c, CharClass::Space);
    if t.len() > 0 && (t[0] == '"' || t[0] == '\'') {
        let mut rest: Vec<char> = Vec::new();
        let mut k: usize = 1;
        while k < t.len()
            invariant
                1 <= k <= t@.len(),
                rest@ == t@.subrange(1, k as int),
            decreases t.len() - k,
        {
            rest.push(t[k]);
            k = k + 1;
            assert(rest@ == t@.subrange(1, k as int));
        }
        assert(rest@ == t@.drop_first());
        let e = find_char(&rest, t[0], 0);
        if e < rest.len() {
            let mut inner: Vec<char> = Vec::new();
            let mut j: usize = 0;
            while j < e
                invariant
                    j <= e <= rest@.len(),
                    inner@ == rest@.take(j as int),
                decreases e - j,
            {
                inner.push(rest[j]);
                j = j + 1;
                assert(inner@ == rest@.take(j as int));
            }
            let trimmed_inner = trim_in(&inner, CharClass::Space);
            return from_chars(&trimmed_inner);
        }
    }
    let a = skip_in(&t, CharClass::AsciiSpace, 0);
    let b = until_in(&t, CharClass::AsciiSpace, a);
    let mut word: Vec<char> = Vec::new();
    let mut j: usize = a;
    while j < b
        invariant
            a <= j <= b <= t@.len(),
            word@ == t@.subrange(a as int, j as int),
        decreases b - j,
    {
        word.push(t[j]);
        j = j + 1;
        assert(word@ == t@.subrange(a as int, j as int));
    }
    let bare = trim_in(&word, CharClass::Quote);
    from_chars(&bare)
}

/// Whether `command` names a program that `is_executable_file` accepts:
/// the named file itself when the name holds a `/`, otherwise the name
/// looked up in `path_dirs` in order. A blank command names nothing.
pub fn is_executable<F: Fn(&String) -> bool>(command: &str, path_dirs: &Vec<String>, is_executable_file: &F) -> (r: bool)
    requires
        forall|p: String| call_requires(*is_executable_file, (&p,)),
    ensures
        r ==> found_among(*is_executable_file, executable_candidates(command@, path_dirs.deep_view())),
        !r ==> missed_all(*is_executable_file, executable_candidates(command@, path_dirs.deep_view())),
{
    let exe = executable_name_of(command);
    let ghost cands = executable_candidates(command@, path_dirs.deep_view());
    if exe.as_str().is_empty() {
        assert(cands.len() == 0);
        return false;
    }
    let exe_chars = to_chars(exe.as_str());
    let slash = to_chars("/");
    proof {
        reveal_strlit("/");
        assert("/"@ =~= seq!['/']);
    }
    if contains(&exe_chars, &slash) {
        let found = is_executable_file(&exe);
        assert(cands == seq![exe@]);
        if found {
            assert(reported(*is_executable_file, cands[0], true));
        } else {
            assert(reported(*is_executable_file, cands[0], false));
        }
        return found;
    }
    let mut i: usize = 0;
    while i < path_dirs.len()
        invariant
            i <= path_dirs@.len(),
            forall|p: String| call_requires(*is_executable_file, (&p,)),
            cands == path_dirs.deep_view().map_values(|d: Seq<char>| join_path(d, exe@)),
            cands == executable_candidates(command@, path_dirs.deep_view()),
            forall|k: int| 0 <= k < i ==> #[trigger] reported(*is_executable_file, cands[k], false),
        decreases path_dirs.len() - i,
    {
        let candidate = join(path_dirs[i].as_str(), exe.as_str());
        assert(candidate@ == cands[i as int]);
        if is_executable_file(&candidate) {
            assert(reported(*is_executable_file, cands[i as int], true));
            return true;
        }
        assert(reported(*is_executable_file, cands[i as int], false));
        i = i + 1;
    }
    false
}

/// Some non-empty name of `list` is, up to ASCII case, one of `desktops`.
pub open spec fn listed_in(list: Seq<Seq<char>>, desktops: Seq<Seq<char>>) -> bool {
    exists|i: int, j: int|
        0 <= i < list.len() && 0 <= j < desktops.len() && list[i].len() > 0
            && #[trigger] eq_ignore_ascii_case(desktops[j], list[i])
}

/// `OnlyShowIn` and `NotShowIn` let the entry show on the current desktops
/// (with no current desktop known, both are ignored).
pub open spec fn desktop_allows(entry: DesktopEntry, desktops: Seq<Seq<char>>) -> bool {
    desktops.len() == 0 || ((entry.spec_list("OnlyShowIn"@) matches Some(l) ==> listed_in(l, desktops))
        && (entry.spec_list("NotShowIn"@) matches Some(l) ==> !listed_in(l, desktops)))
}

/// What `should_show_entry` answering `answer` tells: showing means the
/// desktops allow it and its `TryExec` program (if any) was found; hiding
/// means they do not, or the `TryExec` program was looked for and missed.
pub open spec fn shows<F: Fn(&String) -> bool>(
    check: F,
    entry: DesktopEntry,
    desktops: Seq<Seq<char>>,
    path_dirs: Seq<Seq<char>>,
    answer: bool,
) -> bool {
    &&& answer ==> desktop_allows(entry, desktops) && match entry.spec_entry("TryExec"@) {
        Some(c) => found_among(check, executable_candidates(c, path_dirs)),
        None => true,
    }
    &&& !answer ==> !desktop_allows(entry, desktops) || match entry.spec_entry("TryExec"@) {
        Some(c) => missed_all(check, executable_candidates(c, path_dirs)),
        None => false,
    }
}

/// Whether some non-empty name of `list` is one of `desktops` up to ASCII case.
pub fn any_listed(list: &Vec<String>, desktops: &Vec<String>) -> (r: bool)
    ensures
        r == listed_in(list.deep_view(), desktops.deep_view()),
{
    let mut i: usize = 0;
    while i < list.len()
        invariant
            i <= list@.len(),
            forall|a: int, b: int|
                0 <= a < i && 0 <= b < desktops@.len() && list.deep_view()[a].len() > 0
                    ==> !#[trigger] eq_ignore_ascii_case(desktops.deep_view()[b], list.deep_view()[a]),
        decreases list.len() - i,
    {
        assert(list.deep_view()[i as int] == list[i as int]@);
        if !list[i].as_str().is_empty() {
            let name = to_chars(list[i].as_str());
            let mut j: usize = 0;
            while j < desktops.len()
                invariant
                    i < list@.len(),
                    j <= desktops@.len(),
                    name@ == list.deep_view()[i as int],
                    list.deep_view()[i as int].len() > 0,
                    forall|b: int|
                        0 <= b < j ==> !#[trigger] eq_ignore_ascii_case(desktops.deep_view()[b], name@),
                decreases desktops.len() - j,
            {
                let current = to_chars(desktops[j].as_str());
                if equal_ignoring_ascii_case(&current, &name) {
                    assert(list.deep_view()[i as int].len() > 0);
                    assert(eq_ignore_ascii_case(desktops.deep_view()[j as int], list.deep_view()[i as int]));
                    return true;
                }
                j = j + 1;
            }
        }
        i = i + 1;
    }
    false
}

/// Whether an entry may be offered on the current `desktops`, and, when it
/// names a `TryExec` program, whether that program is installed.
pub fn should_show_entry<F: Fn(&String) -> bool>(
    entry: &DesktopEntry,
    desktops: &Vec<String>,
    path_dirs: &Vec<String>,
    is_executable_file: &F,
) -> (r: bool)
    requires
        forall|p: String| call_requires(*is_executable_file, (&p,)),
    ensures
        shows(*is_executable_file, *entry, desktops.deep_view(), path_dirs.deep_view(), r),
{
    if desktops.len() > 0 {
        if let Some(only_show_in) = entry.only_show_in() {
            if !any_listed(&only_show_in, desktops) {
                return false;
            }
        }
        if let Some(not_show_in) = entry.not_show_in() {
            if any_listed(&not_show_in, desktops) {
                return false;
            }
        }
    }
    match entry.try_exec() {
        Some(command) => is_executable(command.as_str(), path_dirs, is_executable_file),
        None => true,
    }
}

/// A desktop entry file found while scanning: the applications directory
/// it was found under, its path, and its contents when it could be read.
pub struct Candidate {
    pub directory: String,
    pub path: String,
    pub entry: Option<DesktopEntry>,
}

/// The de-duplication key of a candidate.
pub open spec fn candidate_id(c: Candidate) -> Option<Seq<char>> {
    spec_desktop_id(c.directory@, c.path@)
}

/// A candidate that was read and has a key: it claims its key.
pub open spec fn claims(c: Candidate) -> bool {
    c.entry is Some && candidate_id(c) is Some
}

/// Candidate `i` is the first to claim its key.
pub open spec fn first_claim(cs: Seq<Candidate>, i: int) -> bool {
    &&& claims(cs[i])
    &&& forall|j: int| 0 <= j < i ==> !(claims(cs[j]) && #[trigger] candidate_id(cs[j]) == candidate_id(cs[i]))
}

/// No two files that count share a de-duplication key: of the files with
/// one key, only the first readable one claims it.
pub proof fn lemma_first_claims_distinct(cs: Seq<Candidate>, i: int, j: int)
    requires
        0 <= i < j < cs.len(),
        first_claim(cs, i),
        first_claim(cs, j),
    ensures
        candidate_id(cs[i]) != candidate_id(cs[j]),
{
    assert(claims(cs[i]));
    assert(!(claims(cs[i]) && candidate_id(cs[i]) == candidate_id(cs[j])));
}

/// A file that was read and has a desktop id hides every later file with the
/// same id, whatever its own keys say (a hidden, `NoDisplay` or
/// non-application file too): whether the later file would be offered
/// changes nothing in what is offered.
pub proof fn lemma_shadowed_file_is_never_offered(
    cs: Seq<Candidate>,
    shown1: Seq<bool>,
    shown2: Seq<bool>,
    j: int,
    i: int,
    n: int,
)
    requires
        0 <= j < i < cs.len(),
        cs[j].entry is Some,
        candidate_id(cs[j]) is Some,
        candidate_id(cs[j]) == candidate_id(cs[i]),
        shown1.len() == cs.len(),
        shown2.len() == cs.len(),
        forall|k: int| 0 <= k < cs.len() && k != i ==> shown1[k] == shown2[k],
        n <= cs.len(),
    ensures
        chosen(cs, shown1, n) == chosen(cs, shown2, n),
    decreases n,
{
    if n > 0 {
        lemma_shadowed_file_is_never_offered(cs, shown1, shown2, j, i, n - 1);
        if n - 1 == i {
            assert(!first_claim(cs, i)) by {
                assert(claims(cs[j]) && candidate_id(cs[j]) == candidate_id(cs[i]));
            }
        }
    }
}

/// An application entry that is neither hidden nor marked `NoDisplay`.
pub open spec fn listed_application(e: DesktopEntry) -> bool {
    e.spec_entry("Type"@) == Some("Application"@) && !e.spec_flag("Hidden"@) && !e.spec_flag("NoDisplay"@)
}

/// What offering (`answer`) or skipping an entry that claimed its key tells.
pub open spec fn offered<F: Fn(&String) -> bool>(
    check: F,
    entry: DesktopEntry,
    desktops: Seq<Seq<char>>,
    path_dirs: Seq<Seq<char>>,
    answer: bool,
) -> bool {
    &&& answer ==> listed_application(entry) && shows(check, entry, desktops, path_dirs, true)
    &&& !answer ==> !listed_application(entry) || shows(check, entry, desktops, path_dirs, false)
}

/// The entries of the first `n` candidates that claimed their key first and
/// were offered (`shown`), in order.
pub open spec fn chosen(cs: Seq<Candidate>, shown: Seq<bool>, n: int) -> Seq<DesktopEntry>
    decreases n,
{
    if n <= 0 {
        seq![]
    } else {
        let before = chosen(cs, shown, n - 1);
        if first_claim(cs, n - 1) && shown[n - 1] {
            before.push(cs[n - 1].entry->0)
        } else {
            before
        }
    }
}

/// The entries the launcher offers.
pub struct DesktopEntryScanner {
    entries: Vec<DesktopEntry>,
}

impl View for DesktopEntryScanner {
    type V = Seq<DesktopEntry>;

    closed spec fn view(&self) -> Seq<DesktopEntry> {
        self.entries@
    }
}

/// Whether `id` is among `seen`.
fn seen_contains(seen: &Vec<String>, id: &String) -> (r: bool)
    ensures
        r == seen.deep_view().contains(id@),
{
    let mut k: usize = 0;
    while k < seen.len()
        invariant
            k <= seen@.len(),
            forall|j: int| 0 <= j < k ==> seen.deep_view()[j] != id@,
        decreases seen.len() - k,
    {
        if seen[k] == *id {
            assert(seen.deep_view()[k as int] == id@);
            return true;
        }
        k = k + 1;
    }
    false
}

/// An entry that may be offered: an application, neither hidden nor
/// `NoDisplay`, shown on these desktops, with its `TryExec` program installed.
pub fn is_offered<F: Fn(&String) -> bool>(
    entry: &DesktopEntry,
    desktops: &Vec<String>,
    path_dirs: &Vec<String>,
    is_executable_file: &F,
) -> (r: bool)
    requires
        forall|p: String| call_requires(*is_executable_file, (&p,)),
    ensures
        offered(*is_executable_file, *entry, desktops.deep_view(), path_dirs.deep_view(), r),
{
    let application = match entry.type_() {
        Some(t) => t == String::from_str("Application"),
        None => false,
    };
    if !application || entry.hidden() || entry.no_display() {
        return false;
    }
    should_show_entry(entry, desktops, path_dirs, is_executable_file)
}

impl DesktopEntryScanner {
    /// The scanner over the entries found, in the order found: of the files
    /// that share a key only the first readable one counts, and it is kept
    /// when it may be offered (see `is_offered`).
    pub fn from_candidates<F: Fn(&String) -> bool>(
        candidates: Vec<Candidate>,
        desktops: &Vec<String>,
        path_dirs: &Vec<String>,
        is_executable_file: &F,
    ) -> (r: Self)
        requires
            forall|p: String| call_requires(*is_executable_file, (&p,)),
        ensures
            exists|shown: Seq<bool>|
                {
                    &&& shown.len() == candidates@.len()
                    &&& forall|i: int|
                        0 <= i < candidates@.len() && first_claim(candidates@, i) ==> offered(
                            *is_executable_file,
                            candidates@[i].entry->0,
                            desktops.deep_view(),
                            path_dirs.deep_view(),
                            #[trigger] shown[i],
                        )
                    &&& r@ == chosen(candidates@, shown, candidates@.len() as int)
                },
    {
        let ghost cs = candidates@;
        let mut seen: Vec<String> = Vec::new();
        let mut entries: Vec<DesktopEntry> = Vec::new();
        let ghost mut shown: Seq<bool> = seq![];
        proof {
            broadcast use vstd::std_specs::vec::axiom_spec_into_iter;
        }
        for c in it: candidates.into_iter()
            invariant
                it.seq() == cs,
                forall|p: String| call_requires(*is_executable_file, (&p,)),
                shown.len() == it.index(),
                forall|s: Seq<char>|
                    #[trigger] seen.deep_view().contains(s) <==> claimed_before(cs, it.index() as int, s),
                forall|i: int|
                    0 <= i < it.index() && first_claim(cs, i) ==> offered(
                        *is_executable_file,
                        cs[i].entry->0,
                        desktops.deep_view(),
                        path_dirs.deep_view(),
                        #[trigger] shown[i],
                    ),
                entries@ == chosen(cs, shown, it.index() as int),
        {
            let ghost i = it.index() as int;
            assert(cs[i] == c);
            let id = desktop_id(c.directory.as_str(), c.path.as_str());
            let mut keep = false;
            match id {
                None => {
                    assert(!claims(cs[i]));
                    proof {
                        lemma_claimed_step(cs, i);
                    }
                },
                Some(id) => {
                    if seen_contains(&seen, &id) {
                        proof {
                            let j = choose|j: int| 0 <= j < i && claims(cs[j]) && candidate_id(cs[j]) == Some(id@);
                            assert(!first_claim(cs, i));
                            assert forall|s: Seq<char>| claimed_before(cs, i + 1, s) implies claimed_before(cs, i, s) by {
                                let k = choose|k: int| 0 <= k < i + 1 && claims(cs[k]) && candidate_id(cs[k]) == Some(s);
                                if k == i {
                                    assert(s == id@);
                                }
                            }
                            assert forall|s: Seq<char>| claimed_before(cs, i, s) implies claimed_before(cs, i + 1, s) by {
                                let k = choose|k: int| 0 <= k < i && claims(cs[k]) && candidate_id(cs[k]) == Some(s);
                                assert(0 <= k < i + 1);
                            }
                        }
                    } else {
                        match c.entry {
                            None => {
                                assert(!claims(cs[i]));
                                proof {
                                    lemma_claimed_step(cs, i);
                                }
                            },
                            Some(entry) => {
                                assert(first_claim(cs, i)) by {
                                    assert forall|j: int| 0 <= j < i implies !(claims(cs[j]) && #[trigger] candidate_id(cs[j]) == candidate_id(cs[i])) by {
                                        if claims(cs[j]) && candidate_id(cs[j]) == candidate_id(cs[i]) {
                                            assert(claimed_before(cs, i, id@));
                                        }
                                    }
                                }
                                let ghost before = seen.deep_view();
                                push_text(&mut seen, id);
                                proof {
                                    assert forall|s: Seq<char>| #[trigger] seen.deep_view().contains(s) <==> claimed_before(cs, i + 1, s) by {
                                        if seen.deep_view().contains(s) {
                                            let k = choose|k: int| 0 <= k < seen.deep_view().len() && seen.deep_view()[k] == s;
                                            if k < before.len() {
                                                assert(before.contains(s));
                                                let m = choose|m: int| 0 <= m < i && claims(cs[m]) && candidate_id(cs[m]) == Some(s);
                                                assert(0 <= m < i + 1);
                                            } else {
                                                assert(s == id@);
                                                assert(claims(cs[i]) && candidate_id(cs[i]) == Some(s));
                                            }
                                        }
                                        if claimed_before(cs, i + 1, s) {
                                            let m = choose|m: int| 0 <= m < i + 1 && claims(cs[m]) && candidate_id(cs[m]) == Some(s);
                                            if m < i {
                                                assert(claimed_before(cs, i, s));
                                                assert(before.contains(s));
                                                let k = choose|k: int| 0 <= k < before.len() && before[k] == s;
                                                assert(seen.deep_view()[k] == s);
                                            } else {
                                                assert(seen.deep_view()[before.len() as int] == s);
                                            }
                                        }
                                    }
                                }
                                keep = is_offered(&entry, desktops, path_dirs, is_executable_file);
                                if keep {
                                    entries.push(entry);
                                }
                            },
                        }
                    }
                },
            }
            proof {
                let old_shown = shown;
                shown = shown.push(keep);
                lemma_chosen_prefix(cs, old_shown, shown, i);
                assert(chosen(cs, shown, i + 1) == (if first_claim(cs, i) && shown[i] {
                    chosen(cs, shown, i).push(cs[i].entry->0)
                } else {
                    chosen(cs, shown, i)
                }));
            }
        }
        let r = DesktopEntryScanner { entries };
        assert(r@ == chosen(cs, shown, cs.len() as int));
        r
    }

    /// The number of entries.
    pub fn len(&self) -> (r: usize)
        ensures
            r == self@.len(),
    {
        self.entries.len()
    }

    /// Whether there are no entries.
    pub fn is_empty(&self) -> (r: bool)
        ensures
            r == (self@.len() == 0),
    {
        self.entries.len() == 0
    }

    /// The entries whose name, comment or a keyword (unlocalized, lower-cased)
    /// holds the trimmed, lower-cased query; all of them for a blank query.
    pub fn search(&self, query: &str) -> (r: Vec<&DesktopEntry>)
        ensures
            r@.map_values(|e: &DesktopEntry| *e) == search_hits(self@, unicode_lowercase(trimmed(query@))),
            trimmed(query@).len() == 0 ==> r@.map_values(|e: &DesktopEntry| *e) == self@,
    {
        let trimmed_query = trim(query);
        let lowered = to_lowercase(trimmed_query.as_str());
        let q = to_chars(lowered.as_str());
        let mut r: Vec<&DesktopEntry> = Vec::new();
        let mut i: usize = 0;
        while i < self.entries.len()
            invariant
                i <= self.entries@.len(),
                q@ == unicode_lowercase(trimmed(query@)),
                r@.map_values(|e: &DesktopEntry| *e) == search_hits(self.entries@.take(i as int), q@),
            decreases self.entries.len() - i,
        {
            let e = &self.entries[i];
            assert(self.entries@.take(i + 1).drop_last() == self.entries@.take(i as int));
            let ghost before = r@;
            if is_search_hit(e, &q) {
                r.push(e);
                assert(r@.map_values(|e: &DesktopEntry| *e) =~= before.map_values(|e: &DesktopEntry| *e).push(*e));
            }
            i = i + 1;
        }
        assert(self.entries@.take(self.entries@.len() as int) == self.entries@);
        proof {
            if trimmed(query@).len() == 0 {
                lemma_blank_search(self.entries@, q@);
            }
        }
        r
    }

    /// The entries, in order.
    pub fn entries(&self) -> (r: &Vec<DesktopEntry>)
        ensures
            r@ == self@,
    {
        &self.entries
    }
}

/// The query occurs in the lower-cased text.
pub open spec fn mentions(text: Option<Seq<char>>, query: Seq<char>) -> bool {
    text matches Some(t) && contains_text(unicode_lowercase(t), query)
}

/// A plain search hit: an empty query, or the (lower-cased) query in the
/// lower-cased unlocalized name, comment or one of the keywords.
pub open spec fn search_hit(e: DesktopEntry, query: Seq<char>) -> bool {
    ||| query.len() == 0
    ||| mentions(e.spec_localized(desktop_entry_group(), "Name"@, seq![]), query)
    ||| mentions(e.spec_localized(desktop_entry_group(), "Comment"@, seq![]), query)
    ||| (e.spec_localized(desktop_entry_group(), "Keywords"@, seq![]) matches Some(k) && exists|i: int|
        0 <= i < split_on(k, ';').len() && #[trigger] mentions(Some(split_on(k, ';')[i]), query))
}

/// The entries that are search hits, in order.
pub open spec fn search_hits(es: Seq<DesktopEntry>, query: Seq<char>) -> Seq<DesktopEntry>
    decreases es.len(),
{
    if es.len() == 0 {
        seq![]
    } else if search_hit(es.last(), query) {
        search_hits(es.drop_last(), query).push(es.last())
    } else {
        search_hits(es.drop_last(), query)
    }
}

/// An entry that is a search hit is among the hits.
proof fn lemma_hit_is_kept(es: Seq<DesktopEntry>, query: Seq<char>, k: int)
    requires
        0 <= k < es.len(),
        search_hit(es[k], query),
    ensures
        search_hits(es, query).contains(es[k]),
    decreases es.len(),
{
    if k == es.len() - 1 {
        assert(search_hits(es, query).last() == es[k]);
    } else {
        lemma_hit_is_kept(es.drop_last(), query, k);
        assert(es.drop_last()[k] == es[k]);
        let before = search_hits(es.drop_last(), query);
        let m = choose|m: int| 0 <= m < before.len() && before[m] == es[k];
        if search_hit(es.last(), query) {
            assert(search_hits(es, query)[m] == es[k]);
        }
    }
}

/// `query` occurs in `text` once lower-cased, starting at `pos`.
pub open spec fn occurs_lowered(text: Seq<char>, query: Seq<char>, pos: int) -> bool {
    0 <= pos && pos + query.len() <= unicode_lowercase(text).len()
        && unicode_lowercase(text).subrange(pos, pos + query.len()) == query
}

/// An entry whose lower-cased name, comment or one of whose keywords holds
/// the query anywhere, not only at its start, is found by the search.
pub proof fn lemma_query_inside_a_text_is_found(es: Seq<DesktopEntry>, query: Seq<char>, k: int, key: Seq<char>, text: Seq<char>, pos: int)
    requires
        0 <= k < es.len(),
        key == "Name"@ || key == "Comment"@,
        es[k].spec_localized(desktop_entry_group(), key, seq![]) == Some(text),
        occurs_lowered(text, query, pos),
    ensures
        search_hits(es, query).contains(es[k]),
{
    assert(occurs_at(unicode_lowercase(text), query, pos));
    lemma_hit_is_kept(es, query, k);
}

/// An entry one of whose keywords, lower-cased, holds the query anywhere is
/// found by the search.
pub proof fn lemma_query_inside_a_keyword_is_found(
    es: Seq<DesktopEntry>,
    query: Seq<char>,
    k: int,
    keywords: Seq<char>,
    w: int,
    pos: int,
)
    requires
        0 <= k < es.len(),
        es[k].spec_localized(desktop_entry_group(), "Keywords"@, seq![]) == Some(keywords),
        0 <= w < split_on(keywords, ';').len(),
        occurs_lowered(split_on(keywords, ';')[w], query, pos),
    ensures
        search_hits(es, query).contains(es[k]),
{
    assert(occurs_at(unicode_lowercase(split_on(keywords, ';')[w]), query, pos));
    assert(mentions(Some(split_on(keywords, ';')[w]), query));
    let e = es[k];
    let lk = e.spec_localized(desktop_entry_group(), "Keywords"@, seq![]);
    assert(lk is Some);
    assert(lk->0 == keywords);
    assert(exists|i: int|
        0 <= i < split_on(lk->0, ';').len() && #[trigger] mentions(Some(split_on(lk->0, ';')[i]), query));
    assert(search_hit(e, query));
    lemma_hit_is_kept(es, query, k);
}

/// An empty query is a hit for every entry.
proof fn lemma_blank_search(es: Seq<DesktopEntry>, query: Seq<char>)
    requires
        query.len() == 0,
    ensures
        search_hits(es, query) == es,
    decreases es.len(),
{
    if es.len() > 0 {
        lemma_blank_search(es.drop_last(), query);
        assert(es.drop_last().push(es.last()) == es);
    }
}

/// Whether the lower-cased `text` holds `query`.
fn text_mentions(text: &Option<String>, query: &Vec<char>) -> (r: bool)
    ensures
        r == mentions(text.deep_view(), query@),
{
    match text {
        Some(t) => {
            let lower = to_lowercase(t.as_str());
            let chars = to_chars(lower.as_str());
            contains(&chars, query)
        },
        None => false,
    }
}

/// Whether `e` is a search hit for the lower-cased `query`.
fn is_search_hit(e: &DesktopEntry, query: &Vec<char>) -> (r: bool)
    ensures
        r == search_hit(*e, query@),
{
    if query.len() == 0 {
        return true;
    }
    let none: Vec<String> = Vec::new();
    assert(none.deep_view() =~= seq![]);
    if text_mentions(&e.name(&none), query) {
        return true;
    }
    if text_mentions(&e.comment(&none), query) {
        return true;
    }
    match e.keywords(&none) {
        Some(keywords) => {
            let mut i: usize = 0;
            while i < keywords.len()
                invariant
                    i <= keywords@.len(),
                    query@.len() > 0,
                    !mentions(e.spec_localized(desktop_entry_group(), "Name"@, seq![]), query@),
                    !mentions(e.spec_localized(desktop_entry_group(), "Comment"@, seq![]), query@),
                    Some(keywords.deep_view()) == (match e.spec_localized(desktop_entry_group(), "Keywords"@, seq![]) {
                        Some(v) => Some(split_on(v, ';')),
                        None => None,
                    }),
                    forall|k: int| 0 <= k < i ==> !#[trigger] mentions(Some(keywords.deep_view()[k]), query@),
                decreases keywords.len() - i,
            {
                let keyword = Some(keywords[i].clone());
                assert(keyword.deep_view() == Some(keywords.deep_view()[i as int]));
                if text_mentions(&keyword, query) {
                    return true;
                }
                i = i + 1;
            }
            false
        },
        None => false,
    }
}

/// Some candidate before `n` claimed the key `s`.
pub open spec fn claimed_before(cs: Seq<Candidate>, n: int, s: Seq<char>) -> bool {
    exists|j: int| 0 <= j < n && claims(cs[j]) && candidate_id(cs[j]) == Some(s)
}

proof fn lemma_claimed_step(cs: Seq<Candidate>, i: int)
    requires
        0 <= i < cs.len(),
        !claims(cs[i]),
    ensures
        forall|s: Seq<char>| claimed_before(cs, i + 1, s) <==> claimed_before(cs, i, s),
{
    assert forall|s: Seq<char>| claimed_before(cs, i + 1, s) implies claimed_before(cs, i, s) by {
        let k = choose|k: int| 0 <= k < i + 1 && claims(cs[k]) && candidate_id(cs[k]) == Some(s);
        assert(k != i);
    }
    assert forall|s: Seq<char>| claimed_before(cs, i, s) implies claimed_before(cs, i + 1, s) by {
        let k = choose|k: int| 0 <= k < i && claims(cs[k]) && candidate_id(cs[k]) == Some(s);
        assert(0 <= k < i + 1);
    }
}

/// `chosen` looks only at the first `n` decisions.
proof fn lemma_chosen_prefix(cs: Seq<Candidate>, a: Seq<bool>, b: Seq<bool>, n: int)
    requires
        n <= a.len(),
        n <= b.len(),
        forall|k: int| 0 <= k < n ==> a[k] == b[k],
    ensures
        chosen(cs, a, n) == chosen(cs, b, n),
    decreases n,
{
    if n > 0 {
        lemma_chosen_prefix(cs, a, b, n - 1);
    }
}

} // verus!
