//! Fuzzy search over the offered entries: each entry becomes a line of text
//! that the fuzzy matcher scores, and the confident matches are kept.
use vstd::prelude::*;
use crate::applications::DesktopEntryScanner;
use crate::entry::{desktop_entry_group, DesktopEntry};
use crate::text::{
    decimal, find_char, index_of, lemma_decimal_parses, parse_unsigned, parse_unsigned_spec,
    push_decimal, to_chars, from_chars,
};
use nucleo_matcher::pattern::{AtomKind, CaseMatching, Normalization, Pattern};
use nucleo_matcher::{Config, Matcher};

verus! {

/// The text an entry is matched by: its position, its name and its comment,
/// separated by tabs.
pub open spec fn haystack(index: nat, name: Seq<char>, comment: Seq<char>) -> Seq<char> {
    decimal(index).push('\t') + name.push('\t') + comment
}

/// The position a matched line starts with: the text before its first tab,
/// read as a decimal number; none without a tab or a number.
pub open spec fn line_index(line: Seq<char>) -> Option<nat> {
    let t = index_of(line, '\t', 0);
    if t < line.len() {
        parse_unsigned_spec(line.take(t), 10, usize::MAX as nat)
    } else {
        None
    }
}

/// A line made of a position, a name and a comment is read back as that
/// position, whatever the name and comment hold.
pub proof fn lemma_haystack_index(index: nat, name: Seq<char>, comment: Seq<char>)
    ensures
        line_index(haystack(index, name, comment)) == if index <= usize::MAX {
            Some(index)
        } else {
            None
        },
{
    let d = decimal(index);
    let line = haystack(index, name, comment);
    lemma_decimal_parses(index);
    assert(line[d.len() as int] == '\t');
    assert forall|k: int| 0 <= k < d.len() implies line[k] != '\t' by {
        assert(line[k] == d[k]);
    }
    lemma_index_of_first(line, '\t', 0, d.len() as int);
    assert(line.take(d.len() as int) == d);
}

proof fn lemma_index_of_first(s: Seq<char>, c: char, i: int, at: int)
    requires
        0 <= i <= at < s.len(),
        s[at] == c,
        forall|k: int| i <= k < at ==> s[k] != c,
    ensures
        index_of(s, c, i) == at,
    decreases at - i,
{
    if i < at {
        lemma_index_of_first(s, c, i + 1, at);
    }
}

/// The line an entry is matched by.
pub fn haystack_line(index: usize, name: &str, comment: &str) -> (r: String)
    ensures
        r@ == haystack(index as nat, name@, comment@),
{
    let mut v: Vec<char> = Vec::new();
    push_decimal(index, &mut v);
    v.push('\t');
    let n = to_chars(name);
    let mut i: usize = 0;
    let ghost start = v@;
    while i < n.len()
        invariant
            i <= n@.len(),
            v@ == start + n@.take(i as int),
        decreases n.len() - i,
    {
        v.push(n[i]);
        i = i + 1;
        assert(v@ == start + n@.take(i as int));
    }
    v.push('\t');
    let c = to_chars(comment);
    let ghost middle = v@;
    let mut j: usize = 0;
    while j < c.len()
        invariant
            j <= c@.len(),
            v@ == middle + c@.take(j as int),
        decreases c.len() - j,
    {
        v.push(c[j]);
        j = j + 1;
        assert(v@ == middle + c@.take(j as int));
    }
    assert(n@.take(n@.len() as int) == n@);
    assert(c@.take(c@.len() as int) == c@);
    assert(v@ =~= haystack(index as nat, name@, comment@));
    from_chars(&v)
}

/// The position a matched line starts with.
pub fn parse_line_index(line: &str) -> (r: Option<usize>)
    ensures
        r matches Some(i) ==> line_index(line@) == Some(i as nat),
        r is None ==> line_index(line@) is None,
{
    let v = to_chars(line);
    let t = find_char(&v, '\t', 0);
    if t == v.len() {
        return None;
    }
    let mut head: Vec<char> = Vec::new();
    let mut i: usize = 0;
    while i < t
        invariant
            i <= t <= v@.len(),
            head@ == v@.take(i as int),
        decreases t - i,
    {
        head.push(v[i]);
        i = i + 1;
        assert(head@ == v@.take(i as int));
    }
    match parse_unsigned(&head, 10, usize::MAX as u64) {
        Some(n) => {
            assert(n <= usize::MAX);
            Some(n as usize)
        },
        None => None,
    }
}

/// The lines `nucleo_matcher` matches for `query` (fuzzy atoms, case
/// ignored, smart normalization, default configuration), each with its score.
pub uninterp spec fn fuzzy_match_list(query: Seq<char>, lines: Seq<Seq<char>>) -> Seq<(Seq<char>, u32)>;

pub open spec fn scored_view(v: Seq<(String, u32)>) -> Seq<(Seq<char>, u32)> {
    v.map_values(|p: (String, u32)| (p.0@, p.1))
}

/// `Pattern::match_list` of `nucleo_matcher` for `query` over `lines`.
/// Claimed: the result is the named list; as the crate's source shows, each
/// matched line is one of `lines`, each of `lines` comes back at most once
/// (so distinct lines give distinct matches), and the scores do not
/// increase along it.
#[verifier::external_body]
fn match_lines(query: &str, lines: &Vec<String>) -> (r: Vec<(String, u32)>)
    ensures
        scored_view(r@) == fuzzy_match_list(query@, lines.deep_view()),
        forall|k: int| 0 <= k < r@.len() ==> exists|j: int| 0 <= j < lines@.len() && lines@[j]@ == #[trigger] r@[k].0@,
        forall|a: int, b: int| 0 <= a < b < r@.len() ==> r@[a].1 >= r@[b].1,
        (forall|a: int, b: int| 0 <= a < b < lines@.len() ==> lines@[a]@ != lines@[b]@) ==> (forall|
            a: int,
            b: int,
        | 0 <= a < b < r@.len() ==> r@[a].0@ != r@[b].0@),
{
    let pattern = Pattern::new(query, CaseMatching::Ignore, Normalization::Smart, AtomKind::Fuzzy);
    let mut matcher = Matcher::new(Config::DEFAULT);
    pattern.match_list(lines.iter(), &mut matcher).into_iter().map(|(line, score)| (line.clone(), score)).collect()
}

/// A match is kept when its score is at least four fifths of the best
/// (first) score.
pub open spec fn confident(score: u32, best: u32) -> bool {
    5 * (score as int) >= 4 * (best as int)
}

/// The confident matches among `ms[..n]` whose line starts with a position,
/// as (position, score), in order.
pub open spec fn confident_matches(ms: Seq<(Seq<char>, u32)>, n: int) -> Seq<(nat, u32)>
    decreases n,
{
    if n <= 0 || ms.len() == 0 {
        seq![]
    } else {
        let before = confident_matches(ms, n - 1);
        if confident(ms[n - 1].1, ms[0].1) && line_index(ms[n - 1].0) is Some {
            before.push((line_index(ms[n - 1].0)->0, ms[n - 1].1))
        } else {
            before
        }
    }
}

pub open spec fn positions_view(v: Seq<(usize, u32)>) -> Seq<(nat, u32)> {
    v.map_values(|p: (usize, u32)| (p.0 as nat, p.1))
}

/// The confident matches, as (position, score).
pub fn keep_confident(matches: &Vec<(String, u32)>) -> (r: Vec<(usize, u32)>)
    ensures
        positions_view(r@) == confident_matches(scored_view(matches@), matches@.len() as int),
{
    let ghost ms = scored_view(matches@);
    let mut r: Vec<(usize, u32)> = Vec::new();
    if matches.len() == 0 {
        assert(positions_view(r@) =~= seq![]);
        return r;
    }
    let best = matches[0].1;
    assert(ms[0].1 == best);
    let mut i: usize = 0;
    assert(positions_view(r@) =~= confident_matches(ms, 0));
    while i < matches.len()
        invariant
            i <= matches@.len(),
            matches@.len() > 0,
            ms == scored_view(matches@),
            ms[0].1 == best,
            positions_view(r@) == confident_matches(ms, i as int),
        decreases matches.len() - i,
    {
        let (line, score) = (&matches[i].0, matches[i].1);
        assert(ms[i as int] == (line@, score));
        let ghost before = r@;
        if 5 * (score as u64) >= 4 * (best as u64) {
            match parse_line_index(line.as_str()) {
                Some(index) => {
                    r.push((index, score));
                    assert(positions_view(r@) =~= positions_view(before).push((index as nat, score)));
                },
                None => {},
            }
        }
        i = i + 1;
    }
    r
}

/// The lines of the scanner's entries: position, localized name and comment
/// (empty when missing).
pub open spec fn entry_lines(entries: Seq<DesktopEntry>, locales: Seq<Seq<char>>) -> Seq<Seq<char>> {
    Seq::new(
        entries.len(),
        |i: int|
            haystack(
                i as nat,
                entries[i].spec_localized(desktop_entry_group(), "Name"@, locales).unwrap_or(seq![]),
                entries[i].spec_localized(desktop_entry_group(), "Comment"@, locales).unwrap_or(seq![]),
            ),
    )
}

/// The lines of the scanner's entries.
pub fn lines_of(scanner: &DesktopEntryScanner, locales: &Vec<String>) -> (r: Vec<String>)
    ensures
        r.deep_view() == entry_lines(scanner@, locales.deep_view()),
{
    let entries = scanner.entries();
    let mut r: Vec<String> = Vec::new();
    let mut i: usize = 0;
    while i < entries.len()
        invariant
            i <= entries@.len(),
            entries@ == scanner@,
            r.deep_view() == entry_lines(scanner@, locales.deep_view()).take(i as int),
        decreases entries.len() - i,
    {
        let e = &entries[i];
        let name = match e.name(locales) {
            Some(n) => n,
            None => String::new(),
        };
        let comment = match e.comment(locales) {
            Some(c) => c,
            None => String::new(),
        };
        let line = haystack_line(i, name.as_str(), comment.as_str());
        let ghost before = r.deep_view();
        crate::text::push_text(&mut r, line);
        assert(r.deep_view() =~= entry_lines(scanner@, locales.deep_view()).take(i + 1));
        i = i + 1;
    }
    assert(entry_lines(scanner@, locales.deep_view()).take(entries@.len() as int) == entry_lines(scanner@, locales.deep_view()));
    r
}

/// The confident fuzzy matches of `query` among the scanner's entries, as
/// (entry position, score), best first as the matcher ranks them. Every
/// position is one of an entry.
pub fn fuzzy_matches(scanner: &DesktopEntryScanner, query: &str, locales: &Vec<String>) -> (r: Vec<(usize, u32)>)
    ensures
        positions_view(r@) == confident_matches(
            fuzzy_match_list(query@, entry_lines(scanner@, locales.deep_view())),
            fuzzy_match_list(query@, entry_lines(scanner@, locales.deep_view())).len() as int,
        ),
        forall|k: int| 0 <= k < r@.len() ==> (#[trigger] r@[k]).0 < scanner@.len(),
        forall|a: int, b: int| 0 <= a < b < r@.len() ==> (#[trigger] r@[a]).0 != (#[trigger] r@[b]).0,
        forall|a: int, b: int| 0 <= a < b < r@.len() ==> (#[trigger] r@[a]).1 >= (#[trigger] r@[b]).1,
        forall|k: int| 0 <= k < r@.len() ==> confident((#[trigger] r@[k]).1, r@[0].1),
{
    let lines = lines_of(scanner, locales);
    let matches = match_lines(query, &lines);
    let r = keep_confident(&matches);
    proof {
        let ms = scored_view(matches@);
        assert forall|k: int| 0 <= k < ms.len() implies exists|j: int| 0 <= j < lines.deep_view().len() && lines.deep_view()[j] == #[trigger] ms[k].0 by {
            let j = choose|j: int| 0 <= j < lines@.len() && lines@[j]@ == matches@[k].0@;
            assert(lines.deep_view()[j] == ms[k].0);
        }
        lemma_confident_in_range(ms, ms.len() as int, lines.deep_view(), scanner@, locales.deep_view());
        assert forall|k: int| 0 <= k < r@.len() implies (#[trigger] r@[k]).0 < scanner@.len() by {
            assert(positions_view(r@)[k] == (r@[k].0 as nat, r@[k].1));
        }
        let ls = lines.deep_view();
        assert forall|k: int| 0 <= k < ls.len() implies line_index(#[trigger] ls[k]) == Some(k as nat) by {
            lemma_entry_line_index(scanner@, locales.deep_view(), k);
        }
        assert forall|a: int, b: int| 0 <= a < b < lines@.len() implies lines@[a]@ != lines@[b]@ by {
            assert(ls[a] == lines@[a]@ && ls[b] == lines@[b]@);
            assert(line_index(ls[a]) == Some(a as nat));
            assert(line_index(ls[b]) == Some(b as nat));
        }
        assert forall|a: int, b: int|
            0 <= a < ms.len() && 0 <= b < ms.len() && a != b && line_index(ms[a].0) is Some
                && line_index(ms[b].0) is Some implies #[trigger] line_index(ms[a].0) != #[trigger] line_index(ms[b].0) by {
            let ja = choose|j: int| 0 <= j < ls.len() && ls[j] == ms[a].0;
            let jb = choose|j: int| 0 <= j < ls.len() && ls[j] == ms[b].0;
            assert(line_index(ls[ja]) == Some(ja as nat));
            assert(line_index(ls[jb]) == Some(jb as nat));
            if a < b {
                assert(matches@[a].0@ != matches@[b].0@);
            } else {
                assert(matches@[b].0@ != matches@[a].0@);
            }
        }
        let n = ms.len() as int;
        lemma_confident_sources(ms, n);
        lemma_confident_distinct(ms, n);
        lemma_confident_descending(ms, n);
        lemma_confident_best(ms, n);
        let cm = confident_matches(ms, n);
        assert forall|k: int| 0 <= k < r@.len() implies positions_view(r@)[k] == (#[trigger] r@[k].0 as nat, r@[k].1) by {}
        assert forall|a: int, b: int| 0 <= a < b < r@.len() implies (#[trigger] r@[a]).0 != (#[trigger] r@[b]).0 by {
            assert(positions_view(r@)[a] == cm[a] && positions_view(r@)[b] == cm[b]);
        }
        assert forall|a: int, b: int| 0 <= a < b < r@.len() implies (#[trigger] r@[a]).1 >= (#[trigger] r@[b]).1 by {
            assert(positions_view(r@)[a] == cm[a] && positions_view(r@)[b] == cm[b]);
        }
        if r@.len() > 0 {
            assert(positions_view(r@).len() == r@.len());
            assert(cm.len() > 0);
            assert(ms.len() > 0);
            assert(exists|j: int| 0 <= j < ls.len() && ls[j] == ms[0].0);
            let j0 = choose|j: int| 0 <= j < ls.len() && ls[j] == ms[0].0;
            assert(line_index(ls[j0]) == Some(j0 as nat));
            assert(positions_view(r@)[0] == cm[0]);
            assert forall|k: int| 0 <= k < r@.len() implies confident((#[trigger] r@[k]).1, r@[0].1) by {
                assert(positions_view(r@)[k] == cm[k]);
            }
        }
    }
    r
}

/// The line of entry `k` reads back as `k`.
proof fn lemma_entry_line_index(entries: Seq<DesktopEntry>, locales: Seq<Seq<char>>, k: int)
    requires
        0 <= k < entry_lines(entries, locales).len(),
        entries.len() <= usize::MAX,
    ensures
        line_index(entry_lines(entries, locales)[k]) == Some(k as nat),
{
    let e = entries[k];
    lemma_haystack_index(
        k as nat,
        e.spec_localized(desktop_entry_group(), "Name"@, locales).unwrap_or(seq![]),
        e.spec_localized(desktop_entry_group(), "Comment"@, locales).unwrap_or(seq![]),
    );
}

/// Every kept match is read from one of the first `n` matches.
proof fn lemma_confident_sources(ms: Seq<(Seq<char>, u32)>, n: int)
    requires
        n <= ms.len(),
    ensures
        forall|k: int|
            0 <= k < confident_matches(ms, n).len() ==> exists|j: int|
                0 <= j < n && line_index(ms[j].0) == Some(
                    (#[trigger] confident_matches(ms, n)[k]).0,
                ) && confident_matches(ms, n)[k].1 == ms[j].1,
    decreases n,
{
    if n > 0 && ms.len() > 0 {
        lemma_confident_sources(ms, n - 1);
        let before = confident_matches(ms, n - 1);
        let all = confident_matches(ms, n);
        assert forall|k: int| 0 <= k < all.len() implies exists|j: int|
            0 <= j < n && line_index(ms[j].0) == Some((#[trigger] all[k]).0) && all[k].1 == ms[j].1 by {
            if k < before.len() {
                assert(all[k] == before[k]);
                let j = choose|j: int| 0 <= j < n - 1 && line_index(ms[j].0) == Some(before[k].0) && before[k].1 == ms[j].1;
                assert(0 <= j < n);
            } else {
                assert(line_index(ms[n - 1].0) == Some(all[k].0));
            }
        }
    }
}

/// Matches read back as different positions stay different once kept.
proof fn lemma_confident_distinct(ms: Seq<(Seq<char>, u32)>, n: int)
    requires
        n <= ms.len(),
        forall|a: int, b: int|
            0 <= a < ms.len() && 0 <= b < ms.len() && a != b && line_index(ms[a].0) is Some
                && line_index(ms[b].0) is Some ==> #[trigger] line_index(ms[a].0) != #[trigger] line_index(ms[b].0),
    ensures
        forall|a: int, b: int|
            0 <= a < b < confident_matches(ms, n).len() ==> (#[trigger] confident_matches(ms, n)[a]).0
                != (#[trigger] confident_matches(ms, n)[b]).0,
    decreases n,
{
    if n > 0 && ms.len() > 0 {
        lemma_confident_distinct(ms, n - 1);
        lemma_confident_sources(ms, n - 1);
        let before = confident_matches(ms, n - 1);
        let all = confident_matches(ms, n);
        assert forall|a: int, b: int| 0 <= a < b < all.len() implies (#[trigger] all[a]).0 != (#[trigger] all[b]).0 by {
            assert(all[a] == before[a]);
            if b < before.len() {
                assert(all[b] == before[b]);
            } else {
                let j = choose|j: int| 0 <= j < n - 1 && line_index(ms[j].0) == Some(before[a].0) && before[a].1 == ms[j].1;
                assert(line_index(ms[n - 1].0) == Some(all[b].0));
                assert(line_index(ms[j].0) != line_index(ms[n - 1].0));
            }
        }
    }
}

/// Kept matches keep the matcher's order: scores do not increase, and each
/// is at least every later match's score.
proof fn lemma_confident_descending(ms: Seq<(Seq<char>, u32)>, n: int)
    requires
        n <= ms.len(),
        forall|a: int, b: int| 0 <= a < b < ms.len() ==> (#[trigger] ms[a]).1 >= (#[trigger] ms[b]).1,
    ensures
        forall|a: int, b: int|
            0 <= a < b < confident_matches(ms, n).len() ==> (#[trigger] confident_matches(ms, n)[a]).1
                >= (#[trigger] confident_matches(ms, n)[b]).1,
        forall|k: int, m: int|
            0 <= k < confident_matches(ms, n).len() && n <= m < ms.len() ==> (#[trigger] confident_matches(
                ms,
                n,
            )[k]).1 >= (#[trigger] ms[m]).1,
    decreases n,
{
    if n > 0 && ms.len() > 0 {
        lemma_confident_descending(ms, n - 1);
        let before = confident_matches(ms, n - 1);
        let all = confident_matches(ms, n);
        assert forall|a: int, b: int| 0 <= a < b < all.len() implies (#[trigger] all[a]).1 >= (#[trigger] all[b]).1 by {
            assert(all[a] == before[a]);
            if b < before.len() {
                assert(all[b] == before[b]);
            } else {
                assert(all[b].1 == ms[n - 1].1);
                assert(before[a].1 >= ms[n - 1].1);
            }
        }
        assert forall|k: int, m: int| 0 <= k < all.len() && n <= m < ms.len() implies (#[trigger] all[k]).1 >= (#[trigger] ms[m]).1 by {
            if k < before.len() {
                assert(all[k] == before[k]);
                assert(before[k].1 >= ms[m].1);
            } else {
                assert(all[k].1 == ms[n - 1].1);
                assert(ms[n - 1].1 >= ms[m].1);
            }
        }
    }
}

/// Kept matches are confident against the best match, and the best match
/// is kept first when its line reads as a position.
proof fn lemma_confident_best(ms: Seq<(Seq<char>, u32)>, n: int)
    requires
        n <= ms.len(),
    ensures
        forall|k: int| 0 <= k < confident_matches(ms, n).len() ==> confident((#[trigger] confident_matches(ms, n)[k]).1, ms[0].1),
        n >= 1 && line_index(ms[0].0) is Some ==> confident_matches(ms, n).len() >= 1
            && confident_matches(ms, n)[0] == (line_index(ms[0].0)->0, ms[0].1),
    decreases n,
{
    if n > 0 && ms.len() > 0 {
        lemma_confident_best(ms, n - 1);
        let before = confident_matches(ms, n - 1);
        let all = confident_matches(ms, n);
        assert forall|k: int| 0 <= k < all.len() implies confident((#[trigger] all[k]).1, ms[0].1) by {
            if k < before.len() {
                assert(all[k] == before[k]);
            }
        }
        if n >= 2 && line_index(ms[0].0) is Some {
            assert(all[0] == before[0]);
        }
    }
}

/// Positions read back from the matched lines are positions of entries.
proof fn lemma_confident_in_range(
    ms: Seq<(Seq<char>, u32)>,
    n: int,
    lines: Seq<Seq<char>>,
    entries: Seq<DesktopEntry>,
    locales: Seq<Seq<char>>,
)
    requires
        n <= ms.len(),
        lines == entry_lines(entries, locales),
        forall|k: int| 0 <= k < ms.len() ==> exists|j: int| 0 <= j < lines.len() && lines[j] == #[trigger] ms[k].0,
    ensures
        forall|k: int| 0 <= k < confident_matches(ms, n).len() ==> (#[trigger] confident_matches(ms, n)[k]).0 < entries.len(),
    decreases n,
{
    if n > 0 && ms.len() > 0 {
        lemma_confident_in_range(ms, n - 1, lines, entries, locales);
        let line = ms[n - 1].0;
        let j = choose|j: int| 0 <= j < lines.len() && lines[j] == line;
        let e = entries[j];
        lemma_haystack_index(
            j as nat,
            e.spec_localized(desktop_entry_group(), "Name"@, locales).unwrap_or(seq![]),
            e.spec_localized(desktop_entry_group(), "Comment"@, locales).unwrap_or(seq![]),
        );
        assert(lines[j] == haystack(
            j as nat,
            e.spec_localized(desktop_entry_group(), "Name"@, locales).unwrap_or(seq![]),
            e.spec_localized(desktop_entry_group(), "Comment"@, locales).unwrap_or(seq![]),
        ));
        assert(j < entries.len());
        let before = confident_matches(ms, n - 1);
        let all = confident_matches(ms, n);
        assert forall|k: int| 0 <= k < all.len() implies (#[trigger] all[k]).0 < entries.len() by {
            if k < before.len() {
                assert(all[k] == before[k]);
            }
        }
    }
}

} // verus!
