//! A desktop entry file, held as plain values: its groups of keys, each key
//! with a default value and values per locale.
use vstd::prelude::*;
use crate::text::{
    from_char_range, index_of, find_char, split, split_on, to_chars,
};

verus! {

/// A value given for one locale (`Name[de]=...`).
#[derive(Clone)]
pub struct LocalizedValue {
    pub locale: String,
    pub value: String,
}

/// One key of a group with its default value and its localized values.
#[derive(Clone)]
pub struct Field {
    pub key: String,
    pub value: String,
    pub localized: Vec<LocalizedValue>,
}

/// A `[Group Name]` section of the file.
#[derive(Clone)]
pub struct Group {
    pub name: String,
    pub fields: Vec<Field>,
}

/// A parsed desktop entry: its application id, the file it was read from
/// and its groups. Where a name or key occurs twice, the first one counts.
/// Where the file names a gettext domain (`X-Ubuntu-Gettext-Domain`), the
/// defaults of `Name`, `Comment`, `Keywords` and of each action's `Name` are
/// held as the system's message catalogs translate them, so that a lookup
/// that finds no value for the locale falls back to the translation.
#[derive(Clone)]
pub struct DesktopEntry {
    pub appid: String,
    pub path: String,
    pub groups: Vec<Group>,
}

/// The first index at or after `i` of the group called `name`, or the length.
pub open spec fn group_index(groups: Seq<Group>, name: Seq<char>, i: int) -> int
    decreases groups.len() - i,
{
    if 0 <= i < groups.len() && groups[i].name@ != name {
        group_index(groups, name, i + 1)
    } else {
        i
    }
}

/// The first index at or after `i` of the field with key `key`, or the length.
pub open spec fn field_index(fields: Seq<Field>, key: Seq<char>, i: int) -> int
    decreases fields.len() - i,
{
    if 0 <= i < fields.len() && fields[i].key@ != key {
        field_index(fields, key, i + 1)
    } else {
        i
    }
}

/// The first index at or after `i` of the value for `locale`, or the length.
pub open spec fn locale_index(values: Seq<LocalizedValue>, locale: Seq<char>, i: int) -> int
    decreases values.len() - i,
{
    if 0 <= i < values.len() && values[i].locale@ != locale {
        locale_index(values, locale, i + 1)
    } else {
        i
    }
}

/// The value given for exactly `locale`, if any.
pub open spec fn locale_value(values: Seq<LocalizedValue>, locale: Seq<char>) -> Option<Seq<char>> {
    let k = locale_index(values, locale, 0);
    if k < values.len() {
        Some(values[k].value@)
    } else {
        None
    }
}

/// The value of a field for the preferred `locales`, trying them in order
/// from index `i`: each locale as written, then its language part before the
/// first `_`; the default value when none of them has a value.
pub open spec fn localized_from(field: Field, locales: Seq<Seq<char>>, i: int) -> Seq<char>
    decreases locales.len() - i,
{
    if i < 0 || i >= locales.len() {
        field.value@
    } else {
        let locale = locales[i];
        match locale_value(field.localized@, locale) {
            Some(v) => v,
            None => {
                let u = index_of(locale, '_', 0);
                if u < locale.len() && locale_value(field.localized@, locale.take(u)) is Some {
                    locale_value(field.localized@, locale.take(u))->0
                } else {
                    localized_from(field, locales, i + 1)
                }
            },
        }
    }
}

/// `values[k]` is the first value given for `locale`.
pub open spec fn first_value_for(values: Seq<LocalizedValue>, locale: Seq<char>, k: int) -> bool {
    &&& 0 <= k < values.len()
    &&& values[k].locale@ == locale
    &&& forall|j: int| 0 <= j < k ==> (#[trigger] values[j]).locale@ != locale
}

proof fn lemma_locale_index_at(values: Seq<LocalizedValue>, locale: Seq<char>, i: int, k: int)
    requires
        0 <= i <= k <= values.len(),
        forall|j: int| i <= j < k ==> (#[trigger] values[j]).locale@ != locale,
        k < values.len() ==> values[k].locale@ == locale,
    ensures
        locale_index(values, locale, i) == k,
    decreases k - i,
{
    if i < k {
        lemma_locale_index_at(values, locale, i + 1, k);
    }
}

proof fn lemma_index_of_at(s: Seq<char>, c: char, i: int, k: int)
    requires
        0 <= i <= k <= s.len(),
        forall|j: int| i <= j < k ==> s[j] != c,
        k < s.len() ==> s[k] == c,
    ensures
        index_of(s, c, i) == k,
    decreases k - i,
{
    if i < k {
        lemma_index_of_at(s, c, i + 1, k);
    }
}

/// A value given for exactly the first preferred locale is the one shown,
/// before any value for its language alone.
pub proof fn lemma_exact_locale_wins(field: Field, locales: Seq<Seq<char>>, k: int)
    requires
        locales.len() > 0,
        first_value_for(field.localized@, locales[0], k),
    ensures
        localized_from(field, locales, 0) == field.localized@[k].value@,
{
    lemma_locale_index_at(field.localized@, locales[0], 0, k);
}

/// With no value for the first preferred locale `lang_rest` (such as
/// `pt_BR`), the value for its language `lang` (`pt`) is shown, when there is
/// one.
pub proof fn lemma_language_is_the_fallback(field: Field, locales: Seq<Seq<char>>, lang: Seq<char>, rest: Seq<char>, k: int)
    requires
        locales.len() > 0,
        locales[0] == lang + seq!['_'] + rest,
        forall|j: int| 0 <= j < lang.len() ==> lang[j] != '_',
        forall|j: int| 0 <= j < field.localized@.len() ==> (#[trigger] field.localized@[j]).locale@ != locales[0],
        first_value_for(field.localized@, lang, k),
    ensures
        localized_from(field, locales, 0) == field.localized@[k].value@,
{
    let values = field.localized@;
    let locale = locales[0];
    lemma_locale_index_at(values, locale, 0, values.len() as int);
    assert forall|j: int| 0 <= j < lang.len() implies locale[j] != '_' by {
        assert(locale[j] == lang[j]);
    }
    assert(locale[lang.len() as int] == '_');
    lemma_index_of_at(locale, '_', 0, lang.len() as int);
    assert(locale.take(lang.len() as int) =~= lang);
    lemma_locale_index_at(values, lang, 0, k);
}

/// A field with no localized values shows its default value, whatever the
/// preferred locales.
pub proof fn lemma_default_without_translations(field: Field, locales: Seq<Seq<char>>, i: int)
    requires
        field.localized@.len() == 0,
        0 <= i,
    ensures
        localized_from(field, locales, i) == field.value@,
    decreases locales.len() - i,
{
    if i < locales.len() {
        lemma_default_without_translations(field, locales, i + 1);
    }
}

/// The group named `[Desktop Entry]`.
pub open spec fn desktop_entry_group() -> Seq<char> {
    "Desktop Entry"@
}

/// The group name of the action `action`: `[Desktop Action <action>]`.
pub open spec fn action_group(action: Seq<char>) -> Seq<char> {
    "Desktop Action "@ + action
}

impl DesktopEntry {
    /// The field `key` of group `group`, if both are present.
    pub open spec fn spec_field(self, group: Seq<char>, key: Seq<char>) -> Option<Field> {
        let g = group_index(self.groups@, group, 0);
        if g < self.groups@.len() {
            let fields = self.groups@[g].fields@;
            let f = field_index(fields, key, 0);
            if f < fields.len() {
                Some(fields[f])
            } else {
                None
            }
        } else {
            None
        }
    }

    /// The default value of `key` in `group`.
    pub open spec fn spec_value(self, group: Seq<char>, key: Seq<char>) -> Option<Seq<char>> {
        match self.spec_field(group, key) {
            Some(f) => Some(f.value@),
            None => None,
        }
    }

    /// The value of `key` in `group` for the preferred `locales`.
    pub open spec fn spec_localized(self, group: Seq<char>, key: Seq<char>, locales: Seq<Seq<char>>) -> Option<Seq<char>> {
        match self.spec_field(group, key) {
            Some(f) => Some(localized_from(f, locales, 0)),
            None => None,
        }
    }

    /// `DesktopEntry::desktop_entry`: a key of `[Desktop Entry]`.
    pub open spec fn spec_entry(self, key: Seq<char>) -> Option<Seq<char>> {
        self.spec_value(desktop_entry_group(), key)
    }

    /// A boolean key: present and exactly `true`.
    pub open spec fn spec_flag(self, key: Seq<char>) -> bool {
        self.spec_entry(key) == Some("true"@)
    }

    /// A list key split at `;`.
    pub open spec fn spec_list(self, key: Seq<char>) -> Option<Seq<Seq<char>>> {
        match self.spec_entry(key) {
            Some(v) => Some(split_on(v, ';')),
            None => None,
        }
    }

    fn field(&self, group: &String, key: &String) -> (r: Option<&Field>)
        ensures
            r matches Some(f) ==> self.spec_field(group@, key@) == Some(*f),
            r is None ==> self.spec_field(group@, key@) is None,
    {
        let mut g: usize = 0;
        while g < self.groups.len() && self.groups[g].name != *group
            invariant
                g <= self.groups@.len(),
                group_index(self.groups@, group@, 0) == group_index(self.groups@, group@, g as int),
            decreases self.groups.len() - g,
        {
            g = g + 1;
        }
        if g == self.groups.len() {
            return None;
        }
        let fields = &self.groups[g].fields;
        let mut f: usize = 0;
        while f < fields.len() && fields[f].key != *key
            invariant
                f <= fields@.len(),
                field_index(fields@, key@, 0) == field_index(fields@, key@, f as int),
            decreases fields.len() - f,
        {
            f = f + 1;
        }
        if f == fields.len() {
            None
        } else {
            Some(&fields[f])
        }
    }

    /// The default value of `key` in `group`.
    pub fn value(&self, group: &String, key: &String) -> (r: Option<String>)
        ensures
            r.deep_view() == self.spec_value(group@, key@),
    {
        match self.field(group, key) {
            Some(f) => Some(f.value.clone()),
            None => None,
        }
    }

    /// The value of `key` in `group` for the preferred `locales`.
    pub fn localized(&self, group: &String, key: &String, locales: &Vec<String>) -> (r: Option<String>)
        ensures
            r.deep_view() == self.spec_localized(group@, key@, locales.deep_view()),
    {
        match self.field(group, key) {
            Some(f) => Some(localized_value(f, locales)),
            None => None,
        }
    }

    /// `DesktopEntry::id`: the application id.
    pub fn id(&self) -> (r: &String)
        ensures
            r == &self.appid,
    {
        &self.appid
    }

    /// A key of the `[Desktop Entry]` group.
    pub fn desktop_entry(&self, key: &str) -> (r: Option<String>)
        ensures
            r.deep_view() == self.spec_entry(key@),
    {
        self.value(&String::from_str("Desktop Entry"), &String::from_str(key))
    }

    /// A localized key of the `[Desktop Entry]` group.
    pub fn desktop_entry_localized(&self, key: &str, locales: &Vec<String>) -> (r: Option<String>)
        ensures
            r.deep_view() == self.spec_localized(desktop_entry_group(), key@, locales.deep_view()),
    {
        self.localized(&String::from_str("Desktop Entry"), &String::from_str(key), locales)
    }

    /// A boolean key of `[Desktop Entry]`: `true` only when it reads `true`.
    pub fn flag(&self, key: &str) -> (r: bool)
        ensures
            r == self.spec_flag(key@),
    {
        match self.desktop_entry(key) {
            Some(v) => v == String::from_str("true"),
            None => false,
        }
    }

    /// A `;`-separated list key of `[Desktop Entry]`.
    pub fn list(&self, key: &str) -> (r: Option<Vec<String>>)
        ensures
            r.deep_view() == self.spec_list(key@),
    {
        match self.desktop_entry(key) {
            Some(v) => Some(split(v.as_str(), ';')),
            None => None,
        }
    }

    /// The localized `Name`.
    pub fn name(&self, locales: &Vec<String>) -> (r: Option<String>)
        ensures
            r.deep_view() == self.spec_localized(desktop_entry_group(), "Name"@, locales.deep_view()),
    {
        self.desktop_entry_localized("Name", locales)
    }

    /// The localized `Comment`.
    pub fn comment(&self, locales: &Vec<String>) -> (r: Option<String>)
        ensures
            r.deep_view() == self.spec_localized(desktop_entry_group(), "Comment"@, locales.deep_view()),
    {
        self.desktop_entry_localized("Comment", locales)
    }

    /// The localized `Keywords`, split at `;`.
    pub fn keywords(&self, locales: &Vec<String>) -> (r: Option<Vec<String>>)
        ensures
            r.deep_view() == (match self.spec_localized(desktop_entry_group(), "Keywords"@, locales.deep_view()) {
                Some(v) => Some(split_on(v, ';')),
                None => None,
            }),
    {
        match self.desktop_entry_localized("Keywords", locales) {
            Some(v) => Some(split(v.as_str(), ';')),
            None => None,
        }
    }

    /// The `Icon` key.
    pub fn icon(&self) -> (r: Option<String>)
        ensures
            r.deep_view() == self.spec_entry("Icon"@),
    {
        self.desktop_entry("Icon")
    }

    /// The `Exec` key.
    pub fn exec(&self) -> (r: Option<String>)
        ensures
            r.deep_view() == self.spec_entry("Exec"@),
    {
        self.desktop_entry("Exec")
    }

    /// The `TryExec` key.
    pub fn try_exec(&self) -> (r: Option<String>)
        ensures
            r.deep_view() == self.spec_entry("TryExec"@),
    {
        self.desktop_entry("TryExec")
    }

    /// The `Type` key.
    pub fn type_(&self) -> (r: Option<String>)
        ensures
            r.deep_view() == self.spec_entry("Type"@),
    {
        self.desktop_entry("Type")
    }

    /// The `Path` key: the working directory to launch in.
    pub fn working_directory(&self) -> (r: Option<String>)
        ensures
            r.deep_view() == self.spec_entry("Path"@),
    {
        self.desktop_entry("Path")
    }

    /// `NoDisplay=true`.
    pub fn no_display(&self) -> (r: bool)
        ensures
            r == self.spec_flag("NoDisplay"@),
    {
        self.flag("NoDisplay")
    }

    /// `Hidden=true`.
    pub fn hidden(&self) -> (r: bool)
        ensures
            r == self.spec_flag("Hidden"@),
    {
        self.flag("Hidden")
    }

    /// `Terminal=true`.
    pub fn terminal(&self) -> (r: bool)
        ensures
            r == self.spec_flag("Terminal"@),
    {
        self.flag("Terminal")
    }

    /// The `OnlyShowIn` list.
    pub fn only_show_in(&self) -> (r: Option<Vec<String>>)
        ensures
            r.deep_view() == self.spec_list("OnlyShowIn"@),
    {
        self.list("OnlyShowIn")
    }

    /// The `NotShowIn` list.
    pub fn not_show_in(&self) -> (r: Option<Vec<String>>)
        ensures
            r.deep_view() == self.spec_list("NotShowIn"@),
    {
        self.list("NotShowIn")
    }

    /// The `Actions` list.
    pub fn actions(&self) -> (r: Option<Vec<String>>)
        ensures
            r.deep_view() == self.spec_list("Actions"@),
    {
        self.list("Actions")
    }

    /// The localized `Name` of an action.
    pub fn action_name(&self, action: &str, locales: &Vec<String>) -> (r: Option<String>)
        ensures
            r.deep_view() == self.spec_localized(action_group(action@), "Name"@, locales.deep_view()),
    {
        let group = crate::text::concat("Desktop Action ", action);
        self.localized(&group, &String::from_str("Name"), locales)
    }

    /// The `Exec` of an action.
    pub fn action_exec(&self, action: &str) -> (r: Option<String>)
        ensures
            r.deep_view() == self.spec_value(action_group(action@), "Exec"@),
    {
        let group = crate::text::concat("Desktop Action ", action);
        self.value(&group, &String::from_str("Exec"))
    }
}

/// The value of `locale` in `values`, if any.
fn find_locale(values: &Vec<LocalizedValue>, locale: &String) -> (r: Option<String>)
    ensures
        r.deep_view() == locale_value(values@, locale@),
{
    let mut k: usize = 0;
    while k < values.len() && values[k].locale != *locale
        invariant
            k <= values@.len(),
            locale_index(values@, locale@, 0) == locale_index(values@, locale@, k as int),
        decreases values.len() - k,
    {
        k = k + 1;
    }
    if k == values.len() {
        None
    } else {
        Some(values[k].value.clone())
    }
}

/// The value of a field for the preferred locales.
fn localized_value(field: &Field, locales: &Vec<String>) -> (r: String)
    ensures
        r@ == localized_from(*field, locales.deep_view(), 0),
{
    let mut i: usize = 0;
    while i < locales.len()
        invariant
            i <= locales@.len(),
            localized_from(*field, locales.deep_view(), 0) == localized_from(*field, locales.deep_view(), i as int),
        decreases locales.len() - i,
    {
        let locale = &locales[i];
        assert(locales.deep_view()[i as int] == locale@);
        if let Some(v) = find_locale(&field.localized, locale) {
            return v;
        }
        let chars = to_chars(locale.as_str());
        let u = find_char(&chars, '_', 0);
        if u < chars.len() {
            let language = from_char_range(&chars, 0, u);
            assert(language@ == locale@.take(u as int));
            if let Some(v) = find_locale(&field.localized, &language) {
                return v;
            }
        }
        i = i + 1;
    }
    field.value.clone()
}

} // verus!
