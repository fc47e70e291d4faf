//! Finding the image file of an application's icon: the icon names tried,
//! the directories searched under each data root (`pixmaps`, then every
//! theme of `icons` and its `apps` directories, in path order), and the
//! icons that Flatpak keeps inside an application's deployment.
use vstd::prelude::*;
use crate::applications::reported;
use crate::entry::DesktopEntry;
use crate::paths::{
    components, extension, extension_of, join, join_path, last_index_of, path_components,
    path_order, render, render_components, rfind_component, sorted_paths,
};
use crate::sorted::sort_by;
use crate::text::{concat, push_text, split, split_on, to_chars};

verus! {

/// The extensions of the image files an icon may be.
pub open spec fn supported_extension(e: Seq<char>) -> bool {
    e == "png"@ || e == "svg"@ || e == "jpg"@ || e == "jpeg"@ || e == "svgz"@
}

/// Whether the path names an image file by its extension.
pub fn has_supported_extension(path: &str) -> (r: bool)
    ensures
        r == (extension(path@) matches Some(e) && supported_extension(e)),
{
    match extension_of(path) {
        None => false,
        Some(e) => e == String::from_str("png") || e == String::from_str("svg") || e
            == String::from_str("jpg") || e == String::from_str("jpeg") || e == String::from_str(
            "svgz",
        ),
    }
}

/// How an icon file is drawn.
#[derive(Clone, Copy, PartialEq, Eq, Structural)]
pub enum IconFormat {
    /// A PNG or JPEG image.
    Raster,
    /// An SVG image.
    Svg,
}

/// How the file at `path` is drawn, by its extension: `svg` as vector,
/// `png`, `jpg` and `jpeg` as raster images, and nothing else.
pub open spec fn icon_format_spec(path: Seq<char>) -> Option<IconFormat> {
    match extension(path) {
        Some(e) => if e == "svg"@ {
            Some(IconFormat::Svg)
        } else if e == "png"@ || e == "jpg"@ || e == "jpeg"@ {
            Some(IconFormat::Raster)
        } else {
            None
        },
        None => None,
    }
}

/// How the icon at `path`, if any, is drawn.
pub fn icon_format(path: Option<&str>) -> (r: Option<IconFormat>)
    ensures
        r == match path {
            Some(p) => icon_format_spec(p@),
            None => None,
        },
{
    let path = match path {
        Some(p) => p,
        None => return None,
    };
    match extension_of(path) {
        None => None,
        Some(e) => if e == String::from_str("svg") {
            Some(IconFormat::Svg)
        } else if e == String::from_str("png") || e == String::from_str("jpg") || e
            == String::from_str("jpeg") {
            Some(IconFormat::Raster)
        } else {
            None
        },
    }
}

/// `name` without a trailing `.desktop`.
pub open spec fn without_desktop_suffix(name: Seq<char>) -> Seq<char> {
    let suffix = ".desktop"@;
    if name.len() >= suffix.len() && name.skip(name.len() - suffix.len()) == suffix {
        name.take(name.len() - suffix.len())
    } else {
        name
    }
}

/// The Flatpak application an entry file belongs to: the component right
/// below its nearest `applications` ancestor, without `.desktop`.
pub open spec fn flatpak_appid_spec(path: Seq<char>) -> Option<Seq<char>> {
    let cs = path_components(path);
    match last_index_of(cs, "applications"@, cs.len() as int) {
        Some(j) => if j + 1 < cs.len() {
            Some(without_desktop_suffix(cs[j + 1]))
        } else {
            None
        },
        None => None,
    }
}

/// The Flatpak application an entry file belongs to (the directory of its
/// deployment; it can differ from the entry's own id for nested entries).
pub fn flatpak_appid(path: &str) -> (r: Option<String>)
    ensures
        r.deep_view() == flatpak_appid_spec(path@),
{
    let cs = components(path);
    let applications = String::from_str("applications");
    let j = match rfind_component(&cs, &applications) {
        Some(j) => j,
        None => return None,
    };
    let count = cs.len();
    assert(j < count);
    if j + 1 >= count {
        return None;
    }
    let name = to_chars(cs[j + 1].as_str());
    let suffix = to_chars(".desktop");
    proof {
        reveal_strlit(".desktop");
    }
    let n = name.len();
    let m = suffix.len();
    if n >= m {
        let mut same = true;
        let mut i: usize = 0;
        while i < m
            invariant
                n == name@.len(),
                m == suffix@.len(),
                m <= n,
                i <= m,
                same == (forall|k: int| 0 <= k < i ==> name@[n - m + k] == suffix@[k]),
            decreases m - i,
        {
            if name[n - m + i] != suffix[i] {
                same = false;
            }
            i = i + 1;
        }
        if same {
            assert(name@.skip(n - m) =~= suffix@);
        } else {
            assert(name@.skip(n - m) != suffix@) by {
                let k = choose|k: int| 0 <= k < m && name@[n - m + k] != suffix@[k];
                assert(name@.skip(n - m)[k] == name@[n - m + k]);
            }
        }
        if same {
            return Some(crate::text::from_char_range(&name, 0, n - m));
        }
    }
    Some(cs[j + 1].clone())
}

/// The pieces that are not empty, in order.
pub open spec fn non_empty(ps: Seq<Seq<char>>) -> Seq<Seq<char>>
    decreases ps.len(),
{
    if ps.len() == 0 {
        ps
    } else if ps.last().len() > 0 {
        non_empty(ps.drop_last()).push(ps.last())
    } else {
        non_empty(ps.drop_last())
    }
}

/// Where data files are looked for: `$XDG_DATA_HOME` (or `~/.local/share`
/// when it is unset and `$HOME` is set), then each directory of
/// `$XDG_DATA_DIRS` (by default `/usr/local/share:/usr/share`).
pub open spec fn data_roots_spec(
    data_home: Option<Seq<char>>,
    home: Option<Seq<char>>,
    data_dirs: Option<Seq<char>>,
) -> Seq<Seq<char>> {
    let head: Seq<Seq<char>> = match data_home {
        Some(d) => seq![d],
        None => match home {
            Some(h) => seq![join_path(h, ".local/share"@)],
            None => seq![],
        },
    };
    let dirs = match data_dirs {
        Some(d) => d,
        None => "/usr/local/share:/usr/share"@,
    };
    head + non_empty(split_on(dirs, ':'))
}

/// The data roots for the values of `$XDG_DATA_HOME`, `$HOME` and
/// `$XDG_DATA_DIRS`.
pub fn data_roots(data_home: Option<String>, home: Option<String>, data_dirs: Option<String>) -> (r: Vec<String>)
    ensures
        r.deep_view() == data_roots_spec(data_home.deep_view(), home.deep_view(), data_dirs.deep_view()),
{
    let mut roots: Vec<String> = Vec::new();
    match data_home {
        Some(d) => push_text(&mut roots, d),
        None => match home {
            Some(h) => push_text(&mut roots, join(h.as_str(), ".local/share")),
            None => {},
        },
    }
    let ghost head = roots.deep_view();
    let dirs = match data_dirs {
        Some(d) => d,
        None => String::from_str("/usr/local/share:/usr/share"),
    };
    let pieces = split(dirs.as_str(), ':');
    let ghost ps = pieces.deep_view();
    let mut i: usize = 0;
    assert(ps.take(0) =~= seq![]);
    while i < pieces.len()
        invariant
            i <= pieces@.len(),
            ps == pieces.deep_view(),
            roots.deep_view() == head + non_empty(ps.take(i as int)),
        decreases pieces.len() - i,
    {
        assert(ps.take(i + 1).drop_last() == ps.take(i as int));
        assert(ps.take(i + 1).last() == pieces[i as int]@);
        if !pieces[i].as_str().is_empty() {
            push_text(&mut roots, pieces[i].clone());
        }
        i = i + 1;
    }
    assert(ps.take(pieces@.len() as int) == ps);
    roots
}

/// What a directory holds: the paths of its subdirectories and the names of
/// its files.
pub struct Listing {
    pub directories: Vec<String>,
    pub files: Vec<String>,
}

/// A listing as texts.
pub struct ListingView {
    pub directories: Seq<Seq<char>>,
    pub files: Seq<Seq<char>>,
}

impl View for Listing {
    type V = ListingView;

    open spec fn view(&self) -> ListingView {
        ListingView { directories: self.directories.deep_view(), files: self.files.deep_view() }
    }
}

/// The listings read so far, in the order they were read.
pub type Cache = Seq<(Seq<char>, ListingView)>;

/// The first listing read for `dir`, if any.
pub open spec fn lookup(cache: Cache, dir: Seq<char>) -> Option<ListingView>
    decreases cache.len(),
{
    if cache.len() == 0 {
        None
    } else if lookup(cache.drop_last(), dir) is Some {
        lookup(cache.drop_last(), dir)
    } else if cache.last().0 == dir {
        Some(cache.last().1)
    } else {
        None
    }
}

/// `later` holds the listings of `earlier`, then perhaps more.
pub open spec fn extends(later: Cache, earlier: Cache) -> bool {
    earlier.len() <= later.len() && later.take(earlier.len() as int) == earlier
}

/// The subdirectories of `dir` as listed (none when it was not).
pub open spec fn dirs_of(cache: Cache, dir: Seq<char>) -> Seq<Seq<char>> {
    match lookup(cache, dir) {
        Some(l) => l.directories,
        None => seq![],
    }
}

/// The first of `names` from position `i` on that is a file of `dir`.
pub open spec fn first_name_in(files: Seq<Seq<char>>, names: Seq<Seq<char>>, i: int) -> Option<Seq<char>>
    decreases names.len() - i,
{
    if i < 0 || i >= names.len() {
        None
    } else if files.contains(names[i]) {
        Some(names[i])
    } else {
        first_name_in(files, names, i + 1)
    }
}

/// The path of the first of `names` that is a file of `dir`.
pub open spec fn found_in(cache: Cache, dir: Seq<char>, names: Seq<Seq<char>>) -> Option<Seq<char>> {
    match lookup(cache, dir) {
        Some(l) => match first_name_in(l.files, names, 0) {
            Some(n) => Some(join_path(dir, n)),
            None => None,
        },
        None => None,
    }
}

/// `a`, or else `b`.
pub open spec fn or_else(a: Option<Seq<char>>, b: Option<Seq<char>>) -> Option<Seq<char>> {
    match a {
        Some(p) => Some(p),
        None => b,
    }
}

/// A listing stays what it was once read.
pub proof fn lemma_lookup_extends(earlier: Cache, later: Cache, dir: Seq<char>)
    requires
        extends(later, earlier),
        lookup(earlier, dir) is Some,
    ensures
        lookup(later, dir) == lookup(earlier, dir),
    decreases later.len(),
{
    if later.len() > earlier.len() {
        assert(later.drop_last().take(earlier.len() as int) == earlier);
        lemma_lookup_extends(earlier, later.drop_last(), dir);
    } else {
        assert(later == earlier);
    }
}

proof fn lemma_extends_transitive(a: Cache, b: Cache, c: Cache)
    requires
        extends(b, a),
        extends(c, b),
    ensures
        extends(c, a),
{
    assert(c.take(a.len() as int) == c.take(b.len() as int).take(a.len() as int));
}

/// The first listing for `dir` in `cache` is at position `k`, when `k` is the
/// first position holding `dir`.
proof fn lemma_lookup_first(cache: Cache, dir: Seq<char>, k: int)
    requires
        0 <= k < cache.len(),
        cache[k].0 == dir,
        forall|i: int| 0 <= i < k ==> cache[i].0 != dir,
    ensures
        lookup(cache, dir) == Some(cache[k].1),
    decreases cache.len(),
{
    if k < cache.len() - 1 {
        lemma_lookup_first(cache.drop_last(), dir, k);
    } else {
        lemma_lookup_none(cache.drop_last(), dir);
    }
}

proof fn lemma_lookup_none(cache: Cache, dir: Seq<char>)
    requires
        forall|i: int| 0 <= i < cache.len() ==> cache[i].0 != dir,
    ensures
        lookup(cache, dir) is None,
    decreases cache.len(),
{
    if cache.len() > 0 {
        lemma_lookup_none(cache.drop_last(), dir);
    }
}

/// `read` gave a listing `l` for directory `dir`.
pub open spec fn read_gave<F: Fn(&String) -> Listing>(read: F, dir: Seq<char>, l: ListingView) -> bool {
    exists|p: String, x: Listing| p@ == dir && x@ == l && #[trigger] call_ensures(read, (&p,), x)
}

/// The names an icon is looked for under: the name itself and, unless it
/// already has an image extension, the name with each of `.png`, `.svg`,
/// `.jpg` and `.jpeg`.
pub open spec fn icon_names(icon: Seq<char>) -> Seq<Seq<char>> {
    if extension(icon) matches Some(e) && supported_extension(e) {
        seq![icon]
    } else {
        seq![icon, icon + ".png"@, icon + ".svg"@, icon + ".jpg"@, icon + ".jpeg"@]
    }
}

/// The icon found in the `apps` directory of each of `sizes`, from position
/// `j` on.
pub open spec fn find_in_sizes(cache: Cache, sizes: Seq<Seq<char>>, j: int, names: Seq<Seq<char>>) -> Option<Seq<char>>
    decreases sizes.len() - j,
{
    if j < 0 || j >= sizes.len() {
        None
    } else {
        or_else(
            found_in(cache, join_path(sizes[j], "apps"@), names),
            find_in_sizes(cache, sizes, j + 1, names),
        )
    }
}

/// The icon found in each of `themes` from position `i` on: in the theme
/// directory itself, then in its sizes in path order.
pub open spec fn find_in_themes(cache: Cache, themes: Seq<Seq<char>>, i: int, names: Seq<Seq<char>>) -> Option<Seq<char>>
    decreases themes.len() - i,
{
    if i < 0 || i >= themes.len() {
        None
    } else {
        or_else(
            found_in(cache, themes[i], names),
            or_else(
                find_in_sizes(cache, sort_by(dirs_of(cache, themes[i]), path_order()), 0, names),
                find_in_themes(cache, themes, i + 1, names),
            ),
        )
    }
}

/// The icon found under a data root: in `pixmaps`, then in the themes of
/// `icons` in path order.
pub open spec fn find_in_root(cache: Cache, root: Seq<char>, names: Seq<Seq<char>>) -> Option<Seq<char>> {
    or_else(
        found_in(cache, join_path(root, "pixmaps"@), names),
        find_in_themes(cache, sort_by(dirs_of(cache, join_path(root, "icons"@)), path_order()), 0, names),
    )
}

/// The icon found under each of `roots` from position `i` on.
pub open spec fn find_in_roots(cache: Cache, roots: Seq<Seq<char>>, i: int, names: Seq<Seq<char>>) -> Option<Seq<char>>
    decreases roots.len() - i,
{
    if i < 0 || i >= roots.len() {
        None
    } else {
        or_else(find_in_root(cache, roots[i], names), find_in_roots(cache, roots, i + 1, names))
    }
}

proof fn lemma_found_in_extends(earlier: Cache, later: Cache, dir: Seq<char>, names: Seq<Seq<char>>)
    requires
        extends(later, earlier),
        lookup(earlier, dir) is Some,
    ensures
        found_in(later, dir, names) == found_in(earlier, dir, names),
        dirs_of(later, dir) == dirs_of(earlier, dir),
{
    lemma_lookup_extends(earlier, later, dir);
}

/// The deployments of `branches` from position `k` on: the `files/share`
/// directory of each branch's `active` deployment, where the branch lists
/// `active` among its directories.
pub open spec fn branch_deployments(cache: Cache, branches: Seq<Seq<char>>, k: int) -> Seq<Seq<char>>
    decreases branches.len() - k,
{
    if k < 0 || k >= branches.len() {
        seq![]
    } else {
        let active = join_path(branches[k], "active"@);
        let here: Seq<Seq<char>> = if dirs_of(cache, branches[k]).contains(active) {
            seq![join_path(active, "files/share"@)]
        } else {
            seq![]
        };
        here + branch_deployments(cache, branches, k + 1)
    }
}

/// The deployments of the branches of each of `arches` from position `i` on.
pub open spec fn arch_deployments(cache: Cache, arches: Seq<Seq<char>>, i: int) -> Seq<Seq<char>>
    decreases arches.len() - i,
{
    if i < 0 || i >= arches.len() {
        seq![]
    } else {
        branch_deployments(cache, dirs_of(cache, arches[i]), 0) + arch_deployments(cache, arches, i + 1)
    }
}

/// Where Flatpak keeps the deployments of the application whose entry is at
/// `path`: for an entry under `<root>/flatpak/exports/...`, the directory
/// `<root>/flatpak/app/<appid>`.
pub open spec fn flatpak_files_root(path: Seq<char>) -> Option<Seq<char>> {
    let cs = path_components(path);
    match last_index_of(cs, "exports"@, cs.len() as int) {
        Some(j) => if j >= 1 && cs[j - 1] == "flatpak"@ {
            match flatpak_appid_spec(path) {
                Some(appid) => Some(
                    join_path(join_path(render_components(cs.take(j)), "app"@), appid),
                ),
                None => None,
            }
        } else {
            None
        },
        None => None,
    }
}

/// The icon found in the deployments of a Flatpak application, taken as
/// data roots in path order (component by component, as `Path` orders).
pub open spec fn flatpak_search(cache: Cache, path: Seq<char>, names: Seq<Seq<char>>) -> Option<Seq<char>> {
    match flatpak_files_root(path) {
        Some(root) => find_in_roots(
            cache,
            sort_by(arch_deployments(cache, dirs_of(cache, root), 0), path_order()),
            0,
            names,
        ),
        None => None,
    }
}

/// `p` is the path of one of `names` that the listing of some directory
/// shows as a file.
pub open spec fn listed_file(cache: Cache, p: Seq<char>, names: Seq<Seq<char>>) -> bool {
    exists|dir: Seq<char>, n: int|
        0 <= n < names.len() && #[trigger] lookup(cache, dir) is Some && lookup(cache, dir)->0.files.contains(
            names[n],
        ) && p == join_path(dir, #[trigger] names[n])
}

proof fn lemma_first_name_in(files: Seq<Seq<char>>, names: Seq<Seq<char>>, i: int)
    requires
        first_name_in(files, names, i) is Some,
    ensures
        exists|n: int| 0 <= n < names.len() && files.contains(names[n]) && first_name_in(files, names, i) == Some(names[n]),
    decreases names.len() - i,
{
    if 0 <= i < names.len() && !files.contains(names[i]) {
        lemma_first_name_in(files, names, i + 1);
    }
}

proof fn lemma_found_in_listed(cache: Cache, dir: Seq<char>, names: Seq<Seq<char>>)
    requires
        found_in(cache, dir, names) is Some,
    ensures
        listed_file(cache, found_in(cache, dir, names)->0, names),
{
    let l = lookup(cache, dir)->0;
    lemma_first_name_in(l.files, names, 0);
    let n = choose|n: int| 0 <= n < names.len() && l.files.contains(names[n]) && first_name_in(l.files, names, 0) == Some(names[n]);
    assert(lookup(cache, dir) is Some);
    assert(found_in(cache, dir, names)->0 == join_path(dir, names[n]));
}

proof fn lemma_sizes_listed(cache: Cache, sizes: Seq<Seq<char>>, j: int, names: Seq<Seq<char>>)
    requires
        find_in_sizes(cache, sizes, j, names) is Some,
    ensures
        listed_file(cache, find_in_sizes(cache, sizes, j, names)->0, names),
    decreases sizes.len() - j,
{
    let dir = join_path(sizes[j], "apps"@);
    if found_in(cache, dir, names) is Some {
        lemma_found_in_listed(cache, dir, names);
    } else {
        lemma_sizes_listed(cache, sizes, j + 1, names);
    }
}

proof fn lemma_themes_listed(cache: Cache, themes: Seq<Seq<char>>, i: int, names: Seq<Seq<char>>)
    requires
        find_in_themes(cache, themes, i, names) is Some,
    ensures
        listed_file(cache, find_in_themes(cache, themes, i, names)->0, names),
    decreases themes.len() - i,
{
    if found_in(cache, themes[i], names) is Some {
        lemma_found_in_listed(cache, themes[i], names);
    } else if find_in_sizes(cache, sort_by(dirs_of(cache, themes[i]), path_order()), 0, names) is Some {
        lemma_sizes_listed(cache, sort_by(dirs_of(cache, themes[i]), path_order()), 0, names);
    } else {
        lemma_themes_listed(cache, themes, i + 1, names);
    }
}

/// An icon found under data roots is a file that the listing of a searched
/// directory shows, under one of the icon's names.
pub proof fn lemma_found_icon_is_listed(cache: Cache, roots: Seq<Seq<char>>, i: int, names: Seq<Seq<char>>)
    requires
        find_in_roots(cache, roots, i, names) is Some,
    ensures
        listed_file(cache, find_in_roots(cache, roots, i, names)->0, names),
    decreases roots.len() - i,
{
    let root = roots[i];
    if find_in_root(cache, root, names) is Some {
        let pixmaps = join_path(root, "pixmaps"@);
        if found_in(cache, pixmaps, names) is Some {
            lemma_found_in_listed(cache, pixmaps, names);
        } else {
            lemma_themes_listed(cache, sort_by(dirs_of(cache, join_path(root, "icons"@)), path_order()), 0, names);
        }
    } else {
        lemma_found_icon_is_listed(cache, roots, i + 1, names);
    }
}

/// Nothing found.
fn found_none() -> (r: Option<String>)
    ensures
        r is None,
        r.deep_view() is None,
{
    None
}

/// Every listing of `later` past those of `earlier` is what `read` gave for
/// its directory.
pub open spec fn all_read<F: Fn(&String) -> Listing>(read: F, later: Cache, earlier: Cache) -> bool {
    forall|k: int| earlier.len() <= k < later.len() ==> #[trigger] read_gave(read, later[k].0, later[k].1)
}

/// No directory is listed twice.
pub open spec fn read_once(cache: Cache) -> bool {
    forall|i: int, j: int| 0 <= i < j < cache.len() ==> #[trigger] cache[i].0 != #[trigger] cache[j].0
}

/// `later` holds the listings of `earlier`, then listings read with `read`,
/// none of a directory listed before.
pub open spec fn grew<F: Fn(&String) -> Listing>(read: F, later: Cache, earlier: Cache) -> bool {
    &&& extends(later, earlier)
    &&& all_read(read, later, earlier)
    &&& read_once(earlier) ==> read_once(later)
}

proof fn lemma_grew_transitive<F: Fn(&String) -> Listing>(read: F, a: Cache, b: Cache, c: Cache)
    requires
        grew(read, b, a),
        grew(read, c, b),
    ensures
        grew(read, c, a),
{
    lemma_extends_transitive(a, b, c);
    assert forall|k: int| a.len() <= k < c.len() implies #[trigger] read_gave(read, c[k].0, c[k].1) by {
        if k < b.len() {
            assert(c[k] == c.take(b.len() as int)[k]);
            assert(read_gave(read, b[k].0, b[k].1));
        }
    }
}

/// Finds image files of icons, reading each directory at most once.
pub struct IconResolver {
    data_roots: Vec<String>,
    listings: Vec<(String, Listing)>,
}

impl IconResolver {
    /// The data roots searched, in order.
    pub closed spec fn roots(&self) -> Seq<Seq<char>> {
        self.data_roots.deep_view()
    }

    /// The listings read so far.
    pub closed spec fn cache(&self) -> Cache {
        self.listings@.map_values(|e: (String, Listing)| (e.0@, e.1@))
    }

    /// A resolver for the data roots given by the values of `$XDG_DATA_HOME`,
    /// `$HOME` and `$XDG_DATA_DIRS` (see `data_roots`).
    pub fn new(data_home: Option<String>, home: Option<String>, data_dirs: Option<String>) -> (r: Self)
        ensures
            r.roots() == data_roots_spec(data_home.deep_view(), home.deep_view(), data_dirs.deep_view()),
            r.cache() == Seq::<(Seq<char>, ListingView)>::empty(),
    {
        Self::from_data_roots(data_roots(data_home, home, data_dirs))
    }

    /// A resolver searching the given data roots, with nothing read yet.
    pub fn from_data_roots(data_roots: Vec<String>) -> (r: Self)
        ensures
            r.roots() == data_roots.deep_view(),
            r.cache() == Seq::<(Seq<char>, ListingView)>::empty(),
    {
        let r = IconResolver { data_roots, listings: Vec::new() };
        assert(r.cache() =~= Seq::<(Seq<char>, ListingView)>::empty());
        r
    }

    /// The position of the listing of `dir`, read with `read` the first time.
    fn listing_index<F: Fn(&String) -> Listing>(&mut self, dir: &String, read: &F) -> (k: usize)
        requires
            forall|p: String| call_requires(*read, (&p,)),
        ensures
            final(self).roots() == old(self).roots(),
            grew(*read, final(self).cache(), old(self).cache()),
            k < final(self).cache().len(),
            k < final(self).listings@.len(),
            lookup(final(self).cache(), dir@) == Some(final(self).cache()[k as int].1),
            final(self).cache() == old(self).cache() || (final(self).cache() == old(self).cache().push(
                final(self).cache().last(),
            ) && final(self).cache().last().0 == dir@ && read_gave(
                *read,
                dir@,
                final(self).cache().last().1,
            )),
    {
        let n = self.listings.len();
        let mut i: usize = 0;
        while i < n
            invariant
                n == self.listings@.len(),
                i <= n,
                forall|j: int| 0 <= j < i ==> self.cache()[j].0 != dir@,
            decreases n - i,
        {
            if self.listings[i].0 == *dir {
                proof {
                    lemma_lookup_first(self.cache(), dir@, i as int);
                }
                assert(self.cache() == old(self).cache());
                assert(self.cache().take(self.cache().len() as int) == self.cache());
                return i;
            }
            i = i + 1;
        }
        proof {
            lemma_lookup_none(self.cache(), dir@);
        }
        let listing = read(dir);
        let ghost before = self.cache();
        self.listings.push((dir.clone(), listing));
        assert(self.cache() =~= before.push((dir@, listing@)));
        assert(self.cache().drop_last() == before);
        assert(self.cache().take(before.len() as int) == before);
        n
    }

    /// The subdirectories of `dir`, as listed.
    fn directories<F: Fn(&String) -> Listing>(&mut self, dir: &String, read: &F) -> (r: Vec<String>)
        requires
            forall|p: String| call_requires(*read, (&p,)),
        ensures
            final(self).roots() == old(self).roots(),
            grew(*read, final(self).cache(), old(self).cache()),
            lookup(final(self).cache(), dir@) is Some,
            r.deep_view() == dirs_of(final(self).cache(), dir@),
    {
        let k = self.listing_index(dir, read);
        let ghost c = self.cache();
        assert(c[k as int].1.directories == self.listings@[k as int].1.directories.deep_view());
        let dirs = &self.listings[k].1.directories;
        let mut r: Vec<String> = Vec::new();
        let mut i: usize = 0;
        while i < dirs.len()
            invariant
                i <= dirs@.len(),
                r.deep_view() == dirs.deep_view().take(i as int),
            decreases dirs.len() - i,
        {
            assert(dirs.deep_view().take(i + 1) == dirs.deep_view().take(i as int).push(dirs@[i as int]@));
            push_text(&mut r, dirs[i].clone());
            i = i + 1;
        }
        assert(dirs.deep_view().take(dirs@.len() as int) == dirs.deep_view());
        r
    }

    /// The path of the first of `names` that is a file of `dir`, if any.
    fn find_in_directory<F: Fn(&String) -> Listing>(
        &mut self,
        dir: &String,
        names: &Vec<String>,
        read: &F,
    ) -> (r: Option<String>)
        requires
            forall|p: String| call_requires(*read, (&p,)),
        ensures
            final(self).roots() == old(self).roots(),
            grew(*read, final(self).cache(), old(self).cache()),
            lookup(final(self).cache(), dir@) is Some,
            r.deep_view() == found_in(final(self).cache(), dir@, names.deep_view()),
    {
        let k = self.listing_index(dir, read);
        let ghost c = self.cache();
        let files = &self.listings[k].1.files;
        assert(c[k as int].1.files == files.deep_view());
        let ghost ns = names.deep_view();
        let mut i: usize = 0;
        while i < names.len()
            invariant
                i <= names@.len(),
                ns == names.deep_view(),
                first_name_in(files.deep_view(), ns, 0) == first_name_in(files.deep_view(), ns, i as int),
                c == self.cache(),
                self.roots() == old(self).roots(),
                grew(*read, c, old(self).cache()),
                k < c.len(),
                lookup(c, dir@) == Some(c[k as int].1),
                c[k as int].1.files == files.deep_view(),
            decreases names.len() - i,
        {
            let mut j: usize = 0;
            while j < files.len()
                invariant
                    j <= files@.len(),
                    i < names@.len(),
                    forall|m: int| 0 <= m < j ==> files@[m]@ != names@[i as int]@,
                    ns == names.deep_view(),
                    first_name_in(files.deep_view(), ns, 0) == first_name_in(files.deep_view(), ns, i as int),
                    c == self.cache(),
                    self.roots() == old(self).roots(),
                    grew(*read, c, old(self).cache()),
                    k < c.len(),
                    lookup(c, dir@) == Some(c[k as int].1),
                    c[k as int].1.files == files.deep_view(),
                decreases files.len() - j,
            {
                if files[j] == names[i] {
                    assert(files.deep_view()[j as int] == ns[i as int]);
                    return Some(join(dir.as_str(), names[i].as_str()));
                }
                j = j + 1;
            }
            assert(!files.deep_view().contains(ns[i as int])) by {
                if files.deep_view().contains(ns[i as int]) {
                    let m = choose|m: int| 0 <= m < files.deep_view().len() && files.deep_view()[m] == ns[i as int];
                    assert(files@[m]@ == names@[i as int]@);
                }
            }
            i = i + 1;
        }
        None
    }

    /// The names an icon is looked for under.
    fn names_for(icon: &String) -> (r: Vec<String>)
        ensures
            r.deep_view() == icon_names(icon@),
    {
        let mut names: Vec<String> = Vec::new();
        push_text(&mut names, icon.clone());
        if !has_supported_extension(icon.as_str()) {
            push_text(&mut names, concat(icon.as_str(), ".png"));
            push_text(&mut names, concat(icon.as_str(), ".svg"));
            push_text(&mut names, concat(icon.as_str(), ".jpg"));
            push_text(&mut names, concat(icon.as_str(), ".jpeg"));
        }
        assert(names.deep_view() =~= icon_names(icon@));
        names
    }

    /// The icon found in the `apps` directory of each of `sizes`.
    fn find_in_sizes_of<F: Fn(&String) -> Listing>(
        &mut self,
        sizes: &Vec<String>,
        names: &Vec<String>,
        read: &F,
    ) -> (r: Option<String>)
        requires
            forall|p: String| call_requires(*read, (&p,)),
        ensures
            final(self).roots() == old(self).roots(),
            grew(*read, final(self).cache(), old(self).cache()),
            forall|c: Cache|
                extends(c, final(self).cache()) ==> #[trigger] find_in_sizes(
                    c,
                    sizes.deep_view(),
                    0,
                    names.deep_view(),
                ) == r.deep_view(),
    {
        let ghost ss = sizes.deep_view();
        let ghost ns = names.deep_view();
        let ghost start = self.cache();
        proof {
            assert(self.cache().take(self.cache().len() as int) == self.cache());
        }
        let mut j: usize = 0;
        while j < sizes.len()
            invariant
                forall|p: String| call_requires(*read, (&p,)),
                j <= sizes@.len(),
                ss == sizes.deep_view(),
                ns == names.deep_view(),
                self.roots() == old(self).roots(),
                start == old(self).cache(),
                grew(*read, self.cache(), start),
                forall|c: Cache|
                    extends(c, self.cache()) ==> #[trigger] find_in_sizes(c, ss, 0, ns)
                        == find_in_sizes(c, ss, j as int, ns),
            decreases sizes.len() - j,
        {
            let dir = join(sizes[j].as_str(), "apps");
            let ghost before = self.cache();
            let found = self.find_in_directory(&dir, names, read);
            proof {
                lemma_grew_transitive(*read, start, before, self.cache());
                assert forall|c: Cache| extends(c, self.cache()) implies #[trigger] find_in_sizes(c, ss, 0, ns)
                    == or_else(found.deep_view(), find_in_sizes(c, ss, j + 1, ns)) by {
                    lemma_extends_transitive(before, self.cache(), c);
                    lemma_found_in_extends(self.cache(), c, dir@, ns);
                    assert(find_in_sizes(c, ss, 0, ns) == find_in_sizes(c, ss, j as int, ns));
                }
            }
            if found.is_some() {
                return found;
            }
            j = j + 1;
        }
        found_none()
    }

    /// The icon found in each of `themes`: in the theme directory, then in
    /// its sizes in path order.
    fn find_in_themes_of<F: Fn(&String) -> Listing>(
        &mut self,
        themes: &Vec<String>,
        names: &Vec<String>,
        read: &F,
    ) -> (r: Option<String>)
        requires
            forall|p: String| call_requires(*read, (&p,)),
        ensures
            final(self).roots() == old(self).roots(),
            grew(*read, final(self).cache(), old(self).cache()),
            forall|c: Cache|
                extends(c, final(self).cache()) ==> #[trigger] find_in_themes(
                    c,
                    themes.deep_view(),
                    0,
                    names.deep_view(),
                ) == r.deep_view(),
    {
        let ghost ts = themes.deep_view();
        let ghost ns = names.deep_view();
        let ghost start = self.cache();
        proof {
            assert(self.cache().take(self.cache().len() as int) == self.cache());
        }
        let mut i: usize = 0;
        while i < themes.len()
            invariant
                forall|p: String| call_requires(*read, (&p,)),
                i <= themes@.len(),
                ts == themes.deep_view(),
                ns == names.deep_view(),
                self.roots() == old(self).roots(),
                start == old(self).cache(),
                grew(*read, self.cache(), start),
                forall|c: Cache|
                    extends(c, self.cache()) ==> #[trigger] find_in_themes(c, ts, 0, ns)
                        == find_in_themes(c, ts, i as int, ns),
            decreases themes.len() - i,
        {
            let theme = &themes[i];
            let ghost c0 = self.cache();
            let found = self.find_in_directory(theme, names, read);
            let ghost c1 = self.cache();
            if found.is_some() {
                proof {
                    lemma_grew_transitive(*read, start, c0, c1);
                    assert forall|c: Cache| extends(c, c1) implies #[trigger] find_in_themes(c, ts, 0, ns)
                        == found.deep_view() by {
                        lemma_extends_transitive(c0, c1, c);
                        lemma_found_in_extends(c1, c, theme@, ns);
                        assert(find_in_themes(c, ts, 0, ns) == find_in_themes(c, ts, i as int, ns));
                    }
                }
                return found;
            }
            let listed = self.directories(theme, read);
            let ghost c2 = self.cache();
            let sizes = sorted_paths(&listed);
            let found = self.find_in_sizes_of(&sizes, names, read);
            let ghost c3 = self.cache();
            proof {
                lemma_grew_transitive(*read, c1, c2, c3);
                lemma_grew_transitive(*read, c0, c1, c3);
                lemma_grew_transitive(*read, start, c0, c3);
                assert forall|c: Cache| extends(c, c3) implies #[trigger] find_in_themes(c, ts, 0, ns)
                    == or_else(found.deep_view(), find_in_themes(c, ts, i + 1, ns)) by {
                    lemma_extends_transitive(c0, c3, c);
                    lemma_extends_transitive(c1, c3, c);
                    lemma_extends_transitive(c2, c3, c);
                    lemma_found_in_extends(c1, c, theme@, ns);
                    lemma_found_in_extends(c2, c, theme@, ns);
                    assert(find_in_themes(c, ts, 0, ns) == find_in_themes(c, ts, i as int, ns));
                    assert(find_in_sizes(c, sizes.deep_view(), 0, ns) == found.deep_view());
                }
            }
            if found.is_some() {
                return found;
            }
            i = i + 1;
        }
        found_none()
    }

    /// The icon found under a data root: in `pixmaps`, then in the themes of
    /// `icons` in path order.
    fn find_in_root_of<F: Fn(&String) -> Listing>(
        &mut self,
        root: &String,
        names: &Vec<String>,
        read: &F,
    ) -> (r: Option<String>)
        requires
            forall|p: String| call_requires(*read, (&p,)),
        ensures
            final(self).roots() == old(self).roots(),
            grew(*read, final(self).cache(), old(self).cache()),
            forall|c: Cache|
                extends(c, final(self).cache()) ==> #[trigger] find_in_root(c, root@, names.deep_view())
                    == r.deep_view(),
    {
        let ghost ns = names.deep_view();
        let pixmaps = join(root.as_str(), "pixmaps");
        let ghost c0 = self.cache();
        let found = self.find_in_directory(&pixmaps, names, read);
        let ghost c1 = self.cache();
        if found.is_some() {
            proof {
                assert forall|c: Cache| extends(c, c1) implies #[trigger] find_in_root(c, root@, ns)
                    == found.deep_view() by {
                    lemma_found_in_extends(c1, c, pixmaps@, ns);
                }
            }
            return found;
        }
        let icons = join(root.as_str(), "icons");
        let listed = self.directories(&icons, read);
        let ghost c2 = self.cache();
        let themes = sorted_paths(&listed);
        let found = self.find_in_themes_of(&themes, names, read);
        let ghost c3 = self.cache();
        proof {
            lemma_grew_transitive(*read, c1, c2, c3);
            lemma_grew_transitive(*read, c0, c1, c3);
            assert forall|c: Cache| extends(c, c3) implies #[trigger] find_in_root(c, root@, ns)
                == found.deep_view() by {
                lemma_extends_transitive(c1, c3, c);
                lemma_extends_transitive(c2, c3, c);
                lemma_found_in_extends(c1, c, pixmaps@, ns);
                lemma_found_in_extends(c2, c, icons@, ns);
                assert(find_in_themes(c, themes.deep_view(), 0, ns) == found.deep_view());
            }
        }
        found
    }

    /// The icon called `icon` found under each of `roots` in order.
    fn find_icon_path<F: Fn(&String) -> Listing>(
        &mut self,
        icon: &String,
        roots: &Vec<String>,
        read: &F,
    ) -> (r: Option<String>)
        requires
            forall|p: String| call_requires(*read, (&p,)),
        ensures
            final(self).roots() == old(self).roots(),
            grew(*read, final(self).cache(), old(self).cache()),
            forall|c: Cache|
                extends(c, final(self).cache()) ==> #[trigger] find_in_roots(
                    c,
                    roots.deep_view(),
                    0,
                    icon_names(icon@),
                ) == r.deep_view(),
    {
        let names = Self::names_for(icon);
        let ghost rs = roots.deep_view();
        let ghost ns = names.deep_view();
        let ghost start = self.cache();
        proof {
            assert(self.cache().take(self.cache().len() as int) == self.cache());
        }
        let mut i: usize = 0;
        while i < roots.len()
            invariant
                forall|p: String| call_requires(*read, (&p,)),
                i <= roots@.len(),
                rs == roots.deep_view(),
                ns == names.deep_view(),
                ns == icon_names(icon@),
                self.roots() == old(self).roots(),
                start == old(self).cache(),
                grew(*read, self.cache(), start),
                forall|c: Cache|
                    extends(c, self.cache()) ==> #[trigger] find_in_roots(c, rs, 0, ns)
                        == find_in_roots(c, rs, i as int, ns),
            decreases roots.len() - i,
        {
            let ghost c0 = self.cache();
            let found = self.find_in_root_of(&roots[i], &names, read);
            let ghost c1 = self.cache();
            proof {
                lemma_grew_transitive(*read, start, c0, c1);
                assert forall|c: Cache| extends(c, c1) implies #[trigger] find_in_roots(c, rs, 0, ns)
                    == or_else(found.deep_view(), find_in_roots(c, rs, i + 1, ns)) by {
                    lemma_extends_transitive(c0, c1, c);
                    assert(find_in_roots(c, rs, 0, ns) == find_in_roots(c, rs, i as int, ns));
                    assert(find_in_root(c, roots@[i as int]@, ns) == found.deep_view());
                }
            }
            if found.is_some() {
                return found;
            }
            i = i + 1;
        }
        found_none()
    }

    /// Whether `dirs` holds `dir`.
    fn holds(dirs: &Vec<String>, dir: &String) -> (r: bool)
        ensures
            r == dirs.deep_view().contains(dir@),
    {
        let mut i: usize = 0;
        while i < dirs.len()
            invariant
                i <= dirs@.len(),
                forall|m: int| 0 <= m < i ==> dirs@[m]@ != dir@,
            decreases dirs.len() - i,
        {
            if dirs[i] == *dir {
                assert(dirs.deep_view()[i as int] == dir@);
                return true;
            }
            i = i + 1;
        }
        assert(!dirs.deep_view().contains(dir@)) by {
            if dirs.deep_view().contains(dir@) {
                let m = choose|m: int| 0 <= m < dirs.deep_view().len() && dirs.deep_view()[m] == dir@;
                assert(dirs@[m]@ == dir@);
            }
        }
        false
    }

    /// The deployments of `branches`.
    fn branch_deployments_of<F: Fn(&String) -> Listing>(&mut self, branches: &Vec<String>, read: &F) -> (r: Vec<String>)
        requires
            forall|p: String| call_requires(*read, (&p,)),
        ensures
            final(self).roots() == old(self).roots(),
            grew(*read, final(self).cache(), old(self).cache()),
            forall|c: Cache|
                extends(c, final(self).cache()) ==> #[trigger] branch_deployments(c, branches.deep_view(), 0)
                    == r.deep_view(),
    {
        let ghost bs = branches.deep_view();
        let ghost start = self.cache();
        proof {
            assert(self.cache().take(self.cache().len() as int) == self.cache());
        }
        let mut r: Vec<String> = Vec::new();
        let mut k: usize = 0;
        while k < branches.len()
            invariant
                forall|p: String| call_requires(*read, (&p,)),
                k <= branches@.len(),
                bs == branches.deep_view(),
                self.roots() == old(self).roots(),
                start == old(self).cache(),
                grew(*read, self.cache(), start),
                forall|c: Cache|
                    extends(c, self.cache()) ==> #[trigger] branch_deployments(c, bs, 0)
                        == r.deep_view() + branch_deployments(c, bs, k as int),
            decreases branches.len() - k,
        {
            let branch = &branches[k];
            let active = join(branch.as_str(), "active");
            let ghost c0 = self.cache();
            let ghost r0 = r.deep_view();
            let listed = self.directories(branch, read);
            let ghost c1 = self.cache();
            let is_active = Self::holds(&listed, &active);
            if is_active {
                push_text(&mut r, join(active.as_str(), "files/share"));
            }
            proof {
                lemma_grew_transitive(*read, start, c0, c1);
                assert forall|c: Cache| extends(c, c1) implies #[trigger] branch_deployments(c, bs, 0)
                    == r.deep_view() + branch_deployments(c, bs, k + 1) by {
                    lemma_extends_transitive(c0, c1, c);
                    lemma_found_in_extends(c1, c, branch@, seq![]);
                    assert(branch_deployments(c, bs, 0) == r0 + branch_deployments(c, bs, k as int));
                    if is_active {
                        assert(r.deep_view() == r0 + seq![join_path(active@, "files/share"@)]);
                    } else {
                        assert(r.deep_view() == r0 + Seq::<Seq<char>>::empty());
                    }
                }
            }
            k = k + 1;
        }
        proof {
            assert forall|c: Cache| extends(c, self.cache()) implies #[trigger] branch_deployments(c, bs, 0)
                == r.deep_view() by {
                assert(r.deep_view() + Seq::<Seq<char>>::empty() == r.deep_view());
            }
        }
        r
    }

    /// The deployments of the branches of each of `arches`.
    fn arch_deployments_of<F: Fn(&String) -> Listing>(&mut self, arches: &Vec<String>, read: &F) -> (r: Vec<String>)
        requires
            forall|p: String| call_requires(*read, (&p,)),
        ensures
            final(self).roots() == old(self).roots(),
            grew(*read, final(self).cache(), old(self).cache()),
            forall|c: Cache|
                extends(c, final(self).cache()) ==> #[trigger] arch_deployments(c, arches.deep_view(), 0)
                    == r.deep_view(),
    {
        let ghost xs = arches.deep_view();
        let ghost start = self.cache();
        proof {
            assert(self.cache().take(self.cache().len() as int) == self.cache());
        }
        let mut r: Vec<String> = Vec::new();
        let mut i: usize = 0;
        while i < arches.len()
            invariant
                forall|p: String| call_requires(*read, (&p,)),
                i <= arches@.len(),
                xs == arches.deep_view(),
                self.roots() == old(self).roots(),
                start == old(self).cache(),
                grew(*read, self.cache(), start),
                forall|c: Cache|
                    extends(c, self.cache()) ==> #[trigger] arch_deployments(c, xs, 0)
                        == r.deep_view() + arch_deployments(c, xs, i as int),
            decreases arches.len() - i,
        {
            let arch = &arches[i];
            let ghost c0 = self.cache();
            let ghost r0 = r.deep_view();
            let branches = self.directories(arch, read);
            let ghost c1 = self.cache();
            let found = self.branch_deployments_of(&branches, read);
            let ghost c2 = self.cache();
            let mut k: usize = 0;
            while k < found.len()
                invariant
                    k <= found@.len(),
                    r.deep_view() == r0 + found.deep_view().take(k as int),
                decreases found.len() - k,
            {
                assert(found.deep_view().take(k + 1) == found.deep_view().take(k as int).push(found@[k as int]@));
                push_text(&mut r, found[k].clone());
                k = k + 1;
            }
            assert(found.deep_view().take(found@.len() as int) == found.deep_view());
            proof {
                lemma_grew_transitive(*read, c0, c1, c2);
                lemma_grew_transitive(*read, start, c0, c2);
                assert forall|c: Cache| extends(c, c2) implies #[trigger] arch_deployments(c, xs, 0)
                    == r.deep_view() + arch_deployments(c, xs, i + 1) by {
                    lemma_extends_transitive(c0, c2, c);
                    lemma_extends_transitive(c1, c2, c);
                    lemma_found_in_extends(c1, c, arch@, seq![]);
                    assert(arch_deployments(c, xs, 0) == r0 + arch_deployments(c, xs, i as int));
                    assert(branch_deployments(c, branches.deep_view(), 0) == found.deep_view());
                }
            }
            i = i + 1;
        }
        proof {
            assert forall|c: Cache| extends(c, self.cache()) implies #[trigger] arch_deployments(c, xs, 0)
                == r.deep_view() by {
                assert(r.deep_view() + Seq::<Seq<char>>::empty() == r.deep_view());
            }
        }
        r
    }

    /// Where Flatpak keeps the deployments of the application whose entry is
    /// at `path`, if it is one.
    fn flatpak_files_root_of(path: &String) -> (r: Option<String>)
        ensures
            r.deep_view() == flatpak_files_root(path@),
    {
        let cs = components(path.as_str());
        let exports = String::from_str("exports");
        let j = match rfind_component(&cs, &exports) {
            Some(j) => j,
            None => return None,
        };
        proof {
            reveal_strlit("exports");
            reveal_strlit("flatpak");
        }
        if j == 0 || cs[j - 1] != String::from_str("flatpak") {
            return None;
        }
        let appid = match flatpak_appid(path.as_str()) {
            Some(a) => a,
            None => return None,
        };
        let base = render(&cs, j);
        let app = join(base.as_str(), "app");
        Some(join(app.as_str(), appid.as_str()))
    }

    /// The icon called `icon` found in the deployments of the Flatpak
    /// application whose entry is at `path`.
    fn find_flatpak_icon_path<F: Fn(&String) -> Listing>(
        &mut self,
        path: &String,
        icon: &String,
        read: &F,
    ) -> (r: Option<String>)
        requires
            forall|p: String| call_requires(*read, (&p,)),
        ensures
            final(self).roots() == old(self).roots(),
            grew(*read, final(self).cache(), old(self).cache()),
            forall|c: Cache|
                extends(c, final(self).cache()) ==> #[trigger] flatpak_search(c, path@, icon_names(icon@))
                    == r.deep_view(),
    {
        let ghost ns = icon_names(icon@);
        let root = match Self::flatpak_files_root_of(path) {
            Some(r) => r,
            None => {
                proof {
                    assert(self.cache().take(self.cache().len() as int) == self.cache());
                }
                return found_none();
            },
        };
        let ghost c0 = self.cache();
        let arches = self.directories(&root, read);
        let ghost c1 = self.cache();
        let deployments = self.arch_deployments_of(&arches, read);
        let ghost c2 = self.cache();
        let sorted = sorted_paths(&deployments);
        let found = self.find_icon_path(icon, &sorted, read);
        let ghost c3 = self.cache();
        proof {
            lemma_grew_transitive(*read, c1, c2, c3);
            lemma_grew_transitive(*read, c0, c1, c3);
            assert forall|c: Cache| extends(c, c3) implies #[trigger] flatpak_search(c, path@, ns)
                == found.deep_view() by {
                lemma_extends_transitive(c1, c3, c);
                lemma_extends_transitive(c2, c3, c);
                lemma_found_in_extends(c1, c, root@, ns);
                assert(arch_deployments(c, arches.deep_view(), 0) == deployments.deep_view());
                assert(find_in_roots(c, sorted.deep_view(), 0, ns) == found.deep_view());
            }
        }
        found
    }

    /// The image file of an entry's icon: an absolute icon path when
    /// `is_file` accepts it; otherwise the icon name looked up under the
    /// data roots and, failing that, in the entry's Flatpak deployments.
    /// Each directory is read with `read` the first time it is needed.
    pub fn resolve<F: Fn(&String) -> Listing, G: Fn(&String) -> bool>(
        &mut self,
        entry: &DesktopEntry,
        read: &F,
        is_file: &G,
    ) -> (r: Option<String>)
        requires
            forall|p: String| call_requires(*read, (&p,)),
            forall|p: String| call_requires(*is_file, (&p,)),
        ensures
            final(self).roots() == old(self).roots(),
            grew(*read, final(self).cache(), old(self).cache()),
            match entry.spec_entry("Icon"@) {
                None => r is None,
                Some(icon) => if icon.len() > 0 && icon[0] == '/' {
                    (r.deep_view() == Some(icon) && reported(*is_file, icon, true)) || (r is None
                        && reported(*is_file, icon, false))
                } else {
                    r.deep_view() == or_else(
                        find_in_roots(final(self).cache(), old(self).roots(), 0, icon_names(icon)),
                        flatpak_search(final(self).cache(), entry.path@, icon_names(icon)),
                    )
                },
            },
    {
        proof {
            assert(self.cache().take(self.cache().len() as int) == self.cache());
        }
        let icon = match entry.icon() {
            Some(i) => i,
            None => return None,
        };
        let chars = to_chars(icon.as_str());
        if chars.len() > 0 && chars[0] == '/' {
            let exists = is_file(&icon);
            if exists {
                return Some(icon);
            } else {
                return None;
            }
        }
        let roots = self.copy_roots();
        let ghost c0 = self.cache();
        let found = self.find_icon_path(&icon, &roots, read);
        let ghost c1 = self.cache();
        if found.is_some() {
            assert(self.cache().take(self.cache().len() as int) == self.cache());
            return found;
        }
        let found = self.find_flatpak_icon_path(&entry.path, &icon, read);
        proof {
            lemma_grew_transitive(*read, c0, c1, self.cache());
            assert(self.cache().take(self.cache().len() as int) == self.cache());
        }
        found
    }

    /// The data roots, copied.
    fn copy_roots(&self) -> (r: Vec<String>)
        ensures
            r.deep_view() == self.roots(),
    {
        let mut r: Vec<String> = Vec::new();
        let mut i: usize = 0;
        while i < self.data_roots.len()
            invariant
                i <= self.data_roots@.len(),
                r.deep_view() == self.data_roots.deep_view().take(i as int),
            decreases self.data_roots.len() - i,
        {
            assert(self.data_roots.deep_view().take(i + 1) == self.data_roots.deep_view().take(i as int).push(
                self.data_roots@[i as int]@,
            ));
            push_text(&mut r, self.data_roots[i].clone());
            i = i + 1;
        }
        assert(self.data_roots.deep_view().take(self.data_roots@.len() as int) == self.data_roots.deep_view());
        r
    }
}

} // verus!
