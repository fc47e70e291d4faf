//! Paths as text: their components, prefixes and joins, following the rules
//! of `std::path` for `/`-separated paths.
use vstd::prelude::*;
use crate::sorted::{
    insert_by, is_text_less, lemma_text_less_asymmetric, lemma_text_less_total,
    lemma_text_less_transitive, sort_by, text_less, weak_order,
};
use crate::text::{concat, from_chars, push_char, push_text, split, split_on, to_chars};

verus! {

/// A piece between separators that names something (not empty, not `.`).
pub open spec fn is_normal_piece(p: Seq<char>) -> bool {
    p.len() > 0 && p != seq!['.']
}

/// The named pieces, in order.
pub open spec fn normal_pieces(ps: Seq<Seq<char>>) -> Seq<Seq<char>>
    decreases ps.len(),
{
    if ps.len() == 0 {
        ps
    } else if is_normal_piece(ps.last()) {
        normal_pieces(ps.drop_last()).push(ps.last())
    } else {
        normal_pieces(ps.drop_last())
    }
}

/// The root component as text.
pub open spec fn root_component() -> Seq<char> {
    seq!['/']
}

/// `Path::components`, each component as its text: the root as `/`, a leading
/// `.` of a relative path as `.`, then every named piece (`..` included);
/// empty pieces and other `.` pieces are dropped.
pub open spec fn path_components(s: Seq<char>) -> Seq<Seq<char>> {
    let ps = split_on(s, '/');
    let rooted = s.len() > 0 && s[0] == '/';
    let head: Seq<Seq<char>> = if rooted {
        seq![root_component()]
    } else if ps.len() > 0 && ps[0] == seq!['.'] {
        seq![seq!['.']]
    } else {
        seq![]
    };
    head + normal_pieces(ps)
}

/// The components of a path.
pub fn components(p: &str) -> (r: Vec<String>)
    ensures
        r.deep_view() == path_components(p@),
{
    let chars = to_chars(p);
    let pieces = split(p, '/');
    let mut r: Vec<String> = Vec::new();
    let rooted = chars.len() > 0 && chars[0] == '/';
    proof {
        reveal_strlit("/");
        reveal_strlit(".");
        assert("/"@ =~= seq!['/']);
        assert("."@ =~= seq!['.']);
    }
    assert(r.deep_view() =~= seq![]);
    if rooted {
        push_text(&mut r, String::from_str("/"));
        assert(r.deep_view() =~= seq![root_component()]);
    } else if pieces.len() > 0 && pieces[0] == String::from_str(".") {
        push_text(&mut r, String::from_str("."));
        assert(r.deep_view() =~= seq![seq!['.']]);
    }
    let ghost head = r.deep_view();
    let ghost ps = pieces.deep_view();
    let mut i: usize = 0;
    while i < pieces.len()
        invariant
            i <= pieces@.len(),
            ps == pieces.deep_view(),
            r.deep_view() == head + normal_pieces(ps.take(i as int)),
        decreases pieces.len() - i,
    {
        assert(ps.take(i + 1).drop_last() == ps.take(i as int));
        assert(ps.take(i + 1).last() == pieces[i as int]@);
        let piece = &pieces[i];
        let is_dot = *piece == String::from_str(".");
        proof {
            reveal_strlit(".");
            assert("."@ =~= seq!['.']);
        }
        if !piece.as_str().is_empty() && !is_dot {
            push_text(&mut r, piece.clone());
        }
        i = i + 1;
    }
    assert(ps.take(pieces@.len() as int) == ps);
    r
}

/// The components joined with `sep` between each two.
pub open spec fn join_pieces(ps: Seq<Seq<char>>, sep: char) -> Seq<char>
    decreases ps.len(),
{
    if ps.len() == 0 {
        seq![]
    } else if ps.len() == 1 {
        ps[0]
    } else {
        join_pieces(ps.drop_last(), sep).push(sep) + ps.last()
    }
}

/// `pieces[from..]` joined with `sep`.
pub fn join_with(pieces: &Vec<String>, from: usize, sep: char) -> (r: String)
    requires
        from <= pieces@.len(),
    ensures
        r@ == join_pieces(pieces.deep_view().skip(from as int), sep),
{
    let ghost ps = pieces.deep_view().skip(from as int);
    let mut r = String::new();
    let mut i: usize = from;
    while i < pieces.len()
        invariant
            from <= i <= pieces@.len(),
            ps == pieces.deep_view().skip(from as int),
            r@ == join_pieces(ps.take(i - from), sep),
        decreases pieces.len() - i,
    {
        let ghost k = i - from;
        assert(ps.take(k + 1).drop_last() == ps.take(k));
        assert(ps.take(k + 1).last() == pieces[i as int]@);
        if i > from {
            let mut sep_text = String::new();
            push_char(&mut sep_text, sep);
            let joined = concat(r.as_str(), sep_text.as_str());
            r = concat(joined.as_str(), pieces[i].as_str());
        } else {
            r = pieces[i].clone();
            assert(ps.take(1) == seq![ps[0]]);
        }
        i = i + 1;
    }
    assert(ps.take(pieces@.len() - from) == ps);
    r
}

/// Whether `prefix` is a leading part of `s`.
pub open spec fn is_prefix(prefix: Seq<Seq<char>>, s: Seq<Seq<char>>) -> bool {
    prefix.len() <= s.len() && s.take(prefix.len() as int) == prefix
}

/// Whether the leading components of `s` are those of `prefix`.
pub fn starts_with_components(prefix: &Vec<String>, s: &Vec<String>) -> (r: bool)
    ensures
        r == is_prefix(prefix.deep_view(), s.deep_view()),
{
    if prefix.len() > s.len() {
        return false;
    }
    let mut i: usize = 0;
    while i < prefix.len()
        invariant
            i <= prefix@.len() <= s@.len(),
            forall|k: int| 0 <= k < i ==> prefix.deep_view()[k] == s.deep_view()[k],
        decreases prefix.len() - i,
    {
        if prefix[i] != s[i] {
            assert(prefix.deep_view()[i as int] != s.deep_view().take(prefix@.len() as int)[i as int]);
            return false;
        }
        i = i + 1;
    }
    assert(s.deep_view().take(prefix@.len() as int) == prefix.deep_view());
    true
}

/// `dir.join(name)` (`PathBuf::push`): an absolute `name` replaces `dir`;
/// otherwise a separator is put between them unless `dir` is empty or ends
/// with one.
pub open spec fn join_path(dir: Seq<char>, name: Seq<char>) -> Seq<char> {
    if name.len() > 0 && name[0] == '/' {
        name
    } else if dir.len() > 0 && dir.last() != '/' {
        dir.push('/') + name
    } else {
        dir + name
    }
}

/// `dir.join(name)`.
pub fn join(dir: &str, name: &str) -> (r: String)
    ensures
        r@ == join_path(dir@, name@),
{
    let d = to_chars(dir);
    let n = to_chars(name);
    if n.len() > 0 && n[0] == '/' {
        return crate::text::from_chars(&n);
    }
    if d.len() > 0 && d[d.len() - 1] != '/' {
        let mut with_sep = crate::text::from_chars(&d);
        push_char(&mut with_sep, '/');
        concat(with_sep.as_str(), name)
    } else {
        concat(dir, name)
    }
}

/// The last index below `end` holding `name`, if any.
pub open spec fn last_index_of(ps: Seq<Seq<char>>, name: Seq<char>, end: int) -> Option<int>
    decreases end,
{
    if end <= 0 || end > ps.len() {
        None
    } else if ps[end - 1] == name {
        Some(end - 1)
    } else {
        last_index_of(ps, name, end - 1)
    }
}

/// The last component equal to `name`, if any.
pub fn rfind_component(ps: &Vec<String>, name: &String) -> (r: Option<usize>)
    ensures
        r matches Some(j) ==> last_index_of(ps.deep_view(), name@, ps@.len() as int) == Some(j as int)
            && j < ps@.len(),
        r is None ==> last_index_of(ps.deep_view(), name@, ps@.len() as int) is None,
{
    let mut end = ps.len();
    while end > 0 && ps[end - 1] != *name
        invariant
            end <= ps@.len(),
            last_index_of(ps.deep_view(), name@, ps@.len() as int) == last_index_of(
                ps.deep_view(),
                name@,
                end as int,
            ),
        decreases end,
    {
        end = end - 1;
    }
    if end == 0 {
        None
    } else {
        Some(end - 1)
    }
}

/// The path made of the given components (the text `Path::as_os_str` gives
/// for them, up to repeated or trailing separators).
pub open spec fn render_components(ps: Seq<Seq<char>>) -> Seq<char> {
    if ps.len() > 0 && ps[0] == root_component() {
        seq!['/'] + join_pieces(ps.skip(1), '/')
    } else {
        join_pieces(ps, '/')
    }
}

/// The path made of `ps[..end]`.
pub fn render(ps: &Vec<String>, end: usize) -> (r: String)
    requires
        end <= ps@.len(),
    ensures
        r@ == render_components(ps.deep_view().take(end as int)),
{
    let mut head: Vec<String> = Vec::new();
    let mut i: usize = 0;
    while i < end
        invariant
            i <= end <= ps@.len(),
            head.deep_view() == ps.deep_view().take(i as int),
        decreases end - i,
    {
        assert(ps.deep_view().take(i + 1) == ps.deep_view().take(i as int).push(ps[i as int]@));
        push_text(&mut head, ps[i].clone());
        i = i + 1;
    }
    let slash = String::from_str("/");
    proof {
        reveal_strlit("/");
        assert("/"@ =~= seq!['/']);
    }
    if head.len() > 0 && head[0] == slash {
        let rest = join_with(&head, 1, '/');
        concat(slash.as_str(), rest.as_str())
    } else {
        let all = join_with(&head, 0, '/');
        assert(head.deep_view().skip(0) == head.deep_view());
        all
    }
}

/// `Path::file_name`: the last component when it names something (not the
/// root, `.` or `..`).
pub open spec fn file_name(path: Seq<char>) -> Option<Seq<char>> {
    let cs = path_components(path);
    if cs.len() > 0 && cs.last() != root_component() && cs.last() != seq!['.'] && cs.last() != seq!['.', '.'] {
        Some(cs.last())
    } else {
        None
    }
}

/// The last component of a path when it names something.
pub fn file_name_of(path: &str) -> (r: Option<String>)
    ensures
        r.deep_view() == file_name(path@),
{
    let cs = components(path);
    proof {
        reveal_strlit("/");
        reveal_strlit(".");
        reveal_strlit("..");
        assert("/"@ =~= seq!['/']);
        assert("."@ =~= seq!['.']);
        assert(".."@ =~= seq!['.', '.']);
    }
    if cs.len() == 0 {
        return None;
    }
    let last = &cs[cs.len() - 1];
    assert(cs.deep_view().last() == last@);
    if *last == String::from_str("/") || *last == String::from_str(".") || *last == String::from_str("..") {
        None
    } else {
        Some(last.clone())
    }
}

/// The last position below `end` holding `c`, or -1.
pub open spec fn last_char_index(s: Seq<char>, c: char, end: int) -> int
    decreases end,
{
    if end <= 0 || end > s.len() {
        -1
    } else if s[end - 1] == c {
        end - 1
    } else {
        last_char_index(s, c, end - 1)
    }
}

/// `Path::extension`: what follows the last `.` of the file name, unless
/// there is none or the name only starts with one.
pub open spec fn extension(path: Seq<char>) -> Option<Seq<char>> {
    match file_name(path) {
        None => None,
        Some(n) => {
            let k = last_char_index(n, '.', n.len() as int);
            if k <= 0 {
                None
            } else {
                Some(n.skip(k + 1))
            }
        },
    }
}

/// The extension of a path.
pub fn extension_of(path: &str) -> (r: Option<String>)
    ensures
        r.deep_view() == extension(path@),
{
    let name = match file_name_of(path) {
        Some(n) => n,
        None => return None,
    };
    let chars = to_chars(name.as_str());
    let mut end = chars.len();
    while end > 0 && chars[end - 1] != '.'
        invariant
            end <= chars@.len(),
            last_char_index(chars@, '.', chars@.len() as int) == last_char_index(chars@, '.', end as int),
        decreases end,
    {
        end = end - 1;
    }
    if end <= 1 {
        return None;
    }
    let mut ext: Vec<char> = Vec::new();
    let mut i = end;
    while i < chars.len()
        invariant
            end <= i <= chars@.len(),
            ext@ == chars@.subrange(end as int, i as int),
        decreases chars.len() - i,
    {
        ext.push(chars[i]);
        i = i + 1;
        assert(ext@ == chars@.subrange(end as int, i as int));
    }
    assert(ext@ == chars@.skip(end as int));
    Some(from_chars(&ext))
}

/// The kind of a component in the order of `std::path::Component`: the
/// root, then `.`, then `..`, then named components.
pub open spec fn component_rank(c: Seq<char>) -> int {
    if c == root_component() {
        1
    } else if c == seq!['.'] {
        2
    } else if c == seq!['.', '.'] {
        3
    } else {
        4
    }
}

/// One component comes before another: by kind, then named components by
/// their text.
pub open spec fn component_less(a: Seq<char>, b: Seq<char>) -> bool {
    if component_rank(a) != component_rank(b) {
        component_rank(a) < component_rank(b)
    } else {
        component_rank(a) == 4 && text_less(a, b)
    }
}

/// Component lists compared element by element, a proper prefix first.
pub open spec fn components_less(x: Seq<Seq<char>>, y: Seq<Seq<char>>) -> bool
    decreases x.len(),
{
    if x.len() == 0 {
        y.len() > 0
    } else if y.len() == 0 {
        false
    } else if x[0] != y[0] {
        component_less(x[0], y[0])
    } else {
        components_less(x.drop_first(), y.drop_first())
    }
}

/// `a` comes before `b` as paths (`Path`'s order): their components compared
/// element by element.
pub open spec fn path_less(a: Seq<char>, b: Seq<char>) -> bool {
    components_less(path_components(a), path_components(b))
}

/// The order of paths.
pub open spec fn path_order() -> spec_fn(Seq<char>, Seq<char>) -> bool {
    |a: Seq<char>, b: Seq<char>| path_less(a, b)
}

proof fn lemma_component_less(a: Seq<char>, b: Seq<char>, c: Seq<char>)
    ensures
        component_less(a, b) ==> !component_less(b, a),
        component_less(a, b) && component_less(b, c) ==> component_less(a, c),
        a != b ==> component_less(a, b) || component_less(b, a),
{
    if component_rank(a) == 4 && component_rank(b) == 4 {
        if text_less(a, b) {
            lemma_text_less_asymmetric(a, b);
        }
        if a != b {
            lemma_text_less_total(a, b);
        }
    }
    if component_rank(a) == 4 && component_rank(b) == 4 && component_rank(c) == 4 && text_less(a, b)
        && text_less(b, c) {
        lemma_text_less_transitive(a, b, c);
    }
}

proof fn lemma_components_less(x: Seq<Seq<char>>, y: Seq<Seq<char>>, z: Seq<Seq<char>>)
    ensures
        components_less(x, y) ==> !components_less(y, x),
        components_less(x, y) && components_less(y, z) ==> components_less(x, z),
        components_less(x, y) || components_less(y, x) || x == y,
    decreases x.len(),
{
    lemma_component_less(x[0], y[0], z[0]);
    if x.len() > 0 && y.len() > 0 && z.len() > 0 {
        lemma_components_less(x.drop_first(), y.drop_first(), z.drop_first());
    } else if x.len() > 0 && y.len() > 0 {
        lemma_components_less(x.drop_first(), y.drop_first(), y.drop_first());
    }
    if x.len() > 0 && y.len() > 0 && x[0] == y[0] && x.drop_first() == y.drop_first() {
        assert(x == seq![x[0]] + x.drop_first());
        assert(y == seq![y[0]] + y.drop_first());
    }
    if x.len() == 0 && y.len() == 0 {
        assert(x =~= y);
    }
}

/// The order of paths is an order.
pub proof fn lemma_path_order()
    ensures
        weak_order(path_order()),
{
    assert forall|a: Seq<char>, b: Seq<char>| #[trigger] path_order()(a, b) implies !path_order()(b, a) by {
        lemma_components_less(path_components(a), path_components(b), path_components(b));
    }
    assert forall|a: Seq<char>, b: Seq<char>, c: Seq<char>|
        #![trigger path_order()(a, b), path_order()(b, c)]
        !path_order()(a, b) && !path_order()(b, c) implies !path_order()(a, c) by {
        let (x, y, z) = (path_components(a), path_components(b), path_components(c));
        lemma_components_less(x, y, z);
        lemma_components_less(y, x, z);
    }
}

/// Whether component `a` comes before component `b`.
fn is_component_less(a: &String, b: &String) -> (r: bool)
    ensures
        r == component_less(a@, b@),
{
    proof {
        reveal_strlit("/");
        reveal_strlit(".");
        reveal_strlit("..");
        assert("/"@ =~= seq!['/']);
        assert("."@ =~= seq!['.']);
        assert(".."@ =~= seq!['.', '.']);
    }
    let ra = component_rank_of(a);
    let rb = component_rank_of(b);
    if ra != rb {
        ra < rb
    } else {
        ra == 4 && is_text_less(a.as_str(), b.as_str())
    }
}

fn component_rank_of(a: &String) -> (r: u8)
    ensures
        r == component_rank(a@),
{
    proof {
        reveal_strlit("/");
        reveal_strlit(".");
        reveal_strlit("..");
        assert("/"@ =~= seq!['/']);
        assert("."@ =~= seq!['.']);
        assert(".."@ =~= seq!['.', '.']);
    }
    if *a == String::from_str("/") {
        1
    } else if *a == String::from_str(".") {
        2
    } else if *a == String::from_str("..") {
        3
    } else {
        4
    }
}

/// Whether path `a` comes before path `b` (`Path`'s order).
pub fn is_path_less(a: &str, b: &str) -> (r: bool)
    ensures
        r == path_less(a@, b@),
{
    let x = components(a);
    let y = components(b);
    let ghost xs = x.deep_view();
    let ghost ys = y.deep_view();
    let mut i: usize = 0;
    assert(xs.skip(0) == xs);
    assert(ys.skip(0) == ys);
    while i < x.len() && i < y.len() && x[i] == y[i]
        invariant
            xs == x.deep_view(),
            ys == y.deep_view(),
            i <= xs.len(),
            i <= ys.len(),
            components_less(xs, ys) == components_less(xs.skip(i as int), ys.skip(i as int)),
        decreases x.len() - i,
    {
        proof {
            assert(xs.skip(i as int).drop_first() == xs.skip(i + 1));
            assert(ys.skip(i as int).drop_first() == ys.skip(i + 1));
            assert(xs.skip(i as int)[0] == ys.skip(i as int)[0]);
        }
        i = i + 1;
    }
    if i == x.len() {
        i < y.len()
    } else if i == y.len() {
        false
    } else {
        assert(xs.skip(i as int)[0] == x@[i as int]@);
        assert(ys.skip(i as int)[0] == y@[i as int]@);
        is_component_less(&x[i], &y[i])
    }
}

/// Puts `x` into `v` after the last path that `x` does not come before.
fn insert_path(v: &mut Vec<String>, x: String)
    ensures
        final(v).deep_view() == insert_by(old(v).deep_view(), x@, path_order()),
{
    let ghost s = v.deep_view();
    let mut p = v.len();
    assert(s.take(p as int) == s);
    assert(s.skip(p as int) =~= Seq::<Seq<char>>::empty());
    while p > 0 && is_path_less(x.as_str(), v[p - 1].as_str())
        invariant
            p <= v@.len(),
            v.deep_view() == s,
            insert_by(s, x@, path_order()) == insert_by(s.take(p as int), x@, path_order()) + s.skip(
                p as int,
            ),
        decreases p,
    {
        proof {
            let t = s.take(p as int);
            assert(t.drop_last() == s.take(p - 1));
            assert(t.last() == s[p - 1]);
            assert(s.skip(p - 1) == seq![s[p - 1]] + s.skip(p as int));
            assert(insert_by(t, x@, path_order()) == insert_by(s.take(p - 1), x@, path_order()).push(
                s[p - 1],
            ));
            assert(insert_by(s.take(p - 1), x@, path_order()).push(s[p - 1]) + s.skip(p as int)
                == insert_by(s.take(p - 1), x@, path_order()) + s.skip(p - 1));
        }
        p = p - 1;
    }
    proof {
        let t = s.take(p as int);
        if p > 0 {
            assert(t.last() == s[p - 1]);
        }
        assert(insert_by(t, x@, path_order()) == t.push(x@));
    }
    v.insert(p, x);
    assert(v.deep_view() == s.take(p as int).push(x@) + s.skip(p as int));
}

/// `v` sorted as paths (`Path`'s order), equal paths keeping their order.
pub fn sorted_paths(v: &Vec<String>) -> (r: Vec<String>)
    ensures
        r.deep_view() == sort_by(v.deep_view(), path_order()),
{
    let mut r: Vec<String> = Vec::new();
    let mut i: usize = 0;
    while i < v.len()
        invariant
            i <= v@.len(),
            r.deep_view() == sort_by(v.deep_view().take(i as int), path_order()),
        decreases v.len() - i,
    {
        proof {
            let t = v.deep_view().take(i + 1);
            assert(t.drop_last() == v.deep_view().take(i as int));
            assert(t.last() == v@[i as int]@);
        }
        insert_path(&mut r, v[i].clone());
        i = i + 1;
    }
    assert(v.deep_view().take(v@.len() as int) == v.deep_view());
    r
}

} // verus!
