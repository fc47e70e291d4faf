//! Character-level helpers on strings, stated over `Seq<char>`.
use vstd::prelude::*;

verus! {

/// Appends one character to a string (`String::push`).
#[verifier::external_body]
pub(crate) fn push_char(s: &mut String, c: char)
    ensures
        final(s)@ == old(s)@.push(c),
{
    s.push(c);
}

/// What `str::to_lowercase` returns for a string (full Unicode case mapping).
pub uninterp spec fn unicode_lowercase(s: Seq<char>) -> Seq<char>;

/// `str::to_lowercase`: the Unicode lower-case form of the string; the mapping
/// itself (special casings, final sigma) is the standard library's and is not
/// restated here. Each character lower-cases to one or more characters, so
/// the result is empty exactly when the string is.
#[verifier::external_body]
pub(crate) fn to_lowercase(s: &str) -> (r: String)
    ensures
        r@ == unicode_lowercase(s@),
        (r@.len() == 0) == (s@.len() == 0),
{
    s.to_lowercase()
}

/// Appends a string to a list of strings.
pub fn push_text(v: &mut Vec<String>, s: String)
    ensures
        final(v).deep_view() == old(v).deep_view().push(s@),
{
    let ghost before = v.deep_view();
    let ghost t = s@;
    v.push(s);
    assert(v.deep_view() =~= before.push(t));
}

/// The characters of a string, in order.
pub fn to_chars(s: &str) -> (v: Vec<char>)
    ensures
        v@ == s@,
{
    let mut v: Vec<char> = Vec::new();
    proof {
        broadcast use vstd::string::group_string_axioms;
    }
    for c in it: s.chars()
        invariant
            it.seq() == s@,
            v@ == s@.take(it.index() as int),
    {
        v.push(c);
        assert(v@ == s@.take(it.index() + 1));
    }
    assert(v@ == s@.take(s@.len() as int));
    v
}

/// The string made of the characters `v[from..to]`.
pub fn from_char_range(v: &[char], from: usize, to: usize) -> (s: String)
    requires
        from <= to <= v@.len(),
    ensures
        s@ == v@.subrange(from as int, to as int),
{
    let mut s = String::new();
    let mut i: usize = from;
    while i < to
        invariant
            from <= i <= to <= v@.len(),
            s@ == v@.subrange(from as int, i as int),
        decreases to - i,
    {
        push_char(&mut s, v[i]);
        i = i + 1;
        assert(s@ == v@.subrange(from as int, i as int));
    }
    s
}

/// The string made of the given characters.
pub fn from_chars(v: &[char]) -> (s: String)
    ensures
        s@ == v@,
{
    let s = from_char_range(v, 0, v.len());
    assert(v@.subrange(0, v@.len() as int) == v@);
    s
}

/// A string followed by another (`a + b`).
pub fn concat(a: &str, b: &str) -> (s: String)
    ensures
        s@ == a@ + b@,
{
    let mut v = to_chars(a);
    let w = to_chars(b);
    let mut i: usize = 0;
    while i < w.len()
        invariant
            i <= w@.len(),
            w@ == b@,
            v@ == a@ + b@.take(i as int),
        decreases w.len() - i,
    {
        v.push(w[i]);
        i = i + 1;
        assert(v@ == a@ + b@.take(i as int));
    }
    assert(b@.take(b@.len() as int) == b@);
    from_chars(&v)
}

/// Classes of characters that are trimmed or skipped.
#[derive(Clone, Copy, PartialEq, Eq, Structural)]
pub enum CharClass {
    /// Unicode `White_Space` (`char::is_whitespace`).
    Space,
    /// ASCII whitespace as `char::is_ascii_whitespace` sees it.
    AsciiSpace,
    /// A double or a single quote.
    Quote,
    /// `#`.
    Hash,
}

/// Unicode `White_Space`, the set `char::is_whitespace` tests.
pub open spec fn is_space(c: char) -> bool {
    let u = c as u32;
    ||| 0x09 <= u <= 0x0d
    ||| u == 0x20
    ||| u == 0x85
    ||| u == 0xa0
    ||| u == 0x1680
    ||| 0x2000 <= u <= 0x200a
    ||| u == 0x2028
    ||| u == 0x2029
    ||| u == 0x202f
    ||| u == 0x205f
    ||| u == 0x3000
}

/// ASCII whitespace: space, tab, line feed, form feed, carriage return.
pub open spec fn is_ascii_space(c: char) -> bool {
    c == ' ' || c == '\t' || c == '\n' || c == '\x0C' || c == '\r'
}

pub open spec fn in_class(class: CharClass, c: char) -> bool {
    match class {
        CharClass::Space => is_space(c),
        CharClass::AsciiSpace => is_ascii_space(c),
        CharClass::Quote => c == '"' || c == '\'',
        CharClass::Hash => c == '#',
    }
}

/// Whether `c` belongs to `class`.
pub fn is_in_class(class: CharClass, c: char) -> (r: bool)
    ensures
        r == in_class(class, c),
{
    match class {
        CharClass::Space => {
            let u = c as u32;
            (0x09 <= u && u <= 0x0d) || u == 0x20 || u == 0x85 || u == 0xa0 || u == 0x1680 || (
            0x2000 <= u && u <= 0x200a) || u == 0x2028 || u == 0x2029 || u == 0x202f || u == 0x205f
                || u == 0x3000
        },
        CharClass::AsciiSpace => c == ' ' || c == '\t' || c == '\n' || c == '\x0C' || c == '\r',
        CharClass::Quote => c == '"' || c == '\'',
        CharClass::Hash => c == '#',
    }
}

/// The first index at or after `i` whose character is not in `class`
/// (or `i` itself when `i` is past the end).
pub open spec fn skip_class(s: Seq<char>, class: CharClass, i: int) -> int
    decreases s.len() - i,
{
    if 0 <= i < s.len() && in_class(class, s[i]) {
        skip_class(s, class, i + 1)
    } else {
        i
    }
}

/// The first index at or after `i` whose character is in `class`.
pub open spec fn until_class(s: Seq<char>, class: CharClass, i: int) -> int
    decreases s.len() - i,
{
    if 0 <= i < s.len() && !in_class(class, s[i]) {
        until_class(s, class, i + 1)
    } else {
        i
    }
}

/// Going back from `j`, the end of the text after dropping trailing characters
/// of `class` (never below `lo`).
pub open spec fn back_class(s: Seq<char>, class: CharClass, lo: int, j: int) -> int
    decreases j - lo,
{
    if lo < j && in_class(class, s[j - 1]) {
        back_class(s, class, lo, j - 1)
    } else {
        j
    }
}

/// `s` without leading and trailing characters of `class`
/// (`str::trim`, `str::trim_matches`).
pub open spec fn trim_class(s: Seq<char>, class: CharClass) -> Seq<char> {
    let a = skip_class(s, class, 0);
    s.subrange(a, back_class(s, class, a, s.len() as int))
}

/// `str::trim`: without leading and trailing Unicode whitespace.
pub open spec fn trimmed(s: Seq<char>) -> Seq<char> {
    trim_class(s, CharClass::Space)
}

pub proof fn lemma_skip_class_bounds(s: Seq<char>, class: CharClass, i: int)
    requires
        0 <= i <= s.len(),
    ensures
        i <= skip_class(s, class, i) <= s.len(),
    decreases s.len() - i,
{
    if 0 <= i < s.len() && in_class(class, s[i]) {
        lemma_skip_class_bounds(s, class, i + 1);
    }
}

/// Skipping stops at a character outside `class`, or at the end.
pub proof fn lemma_skip_stops(s: Seq<char>, class: CharClass, i: int)
    requires
        0 <= i <= s.len(),
    ensures
        skip_class(s, class, i) < s.len() ==> !in_class(class, s[skip_class(s, class, i)]),
    decreases s.len() - i,
{
    if 0 <= i < s.len() && in_class(class, s[i]) {
        lemma_skip_stops(s, class, i + 1);
    }
}

pub proof fn lemma_until_class_bounds(s: Seq<char>, class: CharClass, i: int)
    requires
        0 <= i <= s.len(),
    ensures
        i <= until_class(s, class, i) <= s.len(),
        forall|k: int| i <= k < until_class(s, class, i) ==> !in_class(class, #[trigger] s[k]),
    decreases s.len() - i,
{
    if 0 <= i < s.len() && !in_class(class, s[i]) {
        lemma_until_class_bounds(s, class, i + 1);
    }
}

pub proof fn lemma_back_class_bounds(s: Seq<char>, class: CharClass, lo: int, j: int)
    requires
        0 <= lo <= j <= s.len(),
    ensures
        lo <= back_class(s, class, lo, j) <= j,
    decreases j - lo,
{
    if lo < j && in_class(class, s[j - 1]) {
        lemma_back_class_bounds(s, class, lo, j - 1);
    }
}

/// The index at or after `i` of the first character not in `class`.
pub fn skip_in(v: &Vec<char>, class: CharClass, i: usize) -> (r: usize)
    requires
        i <= v@.len(),
    ensures
        r == skip_class(v@, class, i as int),
        i <= r <= v@.len(),
{
    let mut a = i;
    while a < v.len() && is_in_class(class, v[a])
        invariant
            i <= a <= v@.len(),
            skip_class(v@, class, i as int) == skip_class(v@, class, a as int),
        decreases v.len() - a,
    {
        a = a + 1;
    }
    a
}

/// The index at or after `i` of the first character in `class`.
pub fn until_in(v: &Vec<char>, class: CharClass, i: usize) -> (r: usize)
    requires
        i <= v@.len(),
    ensures
        r == until_class(v@, class, i as int),
        i <= r <= v@.len(),
{
    let mut a = i;
    while a < v.len() && !is_in_class(class, v[a])
        invariant
            i <= a <= v@.len(),
            until_class(v@, class, i as int) == until_class(v@, class, a as int),
        decreases v.len() - a,
    {
        a = a + 1;
    }
    a
}

/// Going back from `j`, the index after the last character not in `class`.
pub fn back_in(v: &Vec<char>, class: CharClass, lo: usize, j: usize) -> (r: usize)
    requires
        lo <= j <= v@.len(),
    ensures
        r == back_class(v@, class, lo as int, j as int),
        lo <= r <= j,
{
    let mut b = j;
    while b > lo && is_in_class(class, v[b - 1])
        invariant
            lo <= b <= j,
            j <= v@.len(),
            back_class(v@, class, lo as int, j as int) == back_class(v@, class, lo as int, b as int),
        decreases b - lo,
    {
        b = b - 1;
    }
    b
}

/// `s` without leading and trailing characters of `class`.
pub fn trim_in(v: &Vec<char>, class: CharClass) -> (r: Vec<char>)
    ensures
        r@ == trim_class(v@, class),
{
    let a = skip_in(v, class, 0);
    let b = back_in(v, class, a, v.len());
    let mut r: Vec<char> = Vec::new();
    let mut i = a;
    while i < b
        invariant
            a <= i <= b <= v@.len(),
            r@ == v@.subrange(a as int, i as int),
        decreases b - i,
    {
        r.push(v[i]);
        i = i + 1;
        assert(r@ == v@.subrange(a as int, i as int));
    }
    r
}

/// `str::trim`.
pub fn trim(s: &str) -> (r: String)
    ensures
        r@ == trimmed(s@),
{
    let v = to_chars(s);
    let t = trim_in(&v, CharClass::Space);
    from_chars(&t)
}

/// Whether `needle` occurs in `hay` starting at position `i`.
pub open spec fn occurs_at(hay: Seq<char>, needle: Seq<char>, i: int) -> bool {
    0 <= i && i + needle.len() <= hay.len() && hay.subrange(i, i + needle.len()) == needle
}

/// `str::contains` with a string pattern.
pub open spec fn contains_text(hay: Seq<char>, needle: Seq<char>) -> bool {
    exists|i: int| occurs_at(hay, needle, i)
}

/// Whether `needle` occurs in `hay`.
pub fn contains(hay: &Vec<char>, needle: &Vec<char>) -> (r: bool)
    ensures
        r == contains_text(hay@, needle@),
{
    if needle.len() > hay.len() {
        assert forall|i: int| !occurs_at(hay@, needle@, i) by {}
        return false;
    }
    let mut i: usize = 0;
    let n = hay.len();
    let last = hay.len() - needle.len();
    while i <= last
        invariant
            n == hay@.len(),
            last == hay@.len() - needle@.len(),
            needle@.len() <= hay@.len(),
            i <= hay@.len() - needle@.len() + 1,
            forall|k: int| 0 <= k < i ==> !occurs_at(hay@, needle@, k),
        decreases hay.len() - i,
    {
        let mut j: usize = 0;
        let mut same = true;
        while j < needle.len()
            invariant
                i + needle@.len() <= hay@.len(),
                n == hay@.len(),
                j <= needle@.len(),
                i + j <= hay@.len(),
                same == (forall|k: int| 0 <= k < j ==> hay@[i + k] == needle@[k]),
            decreases needle.len() - j,
        {
            if hay[i + j] != needle[j] {
                same = false;
            }
            j = j + 1;
        }
        if same {
            assert(hay@.subrange(i as int, i + needle@.len()) == needle@);
            assert(occurs_at(hay@, needle@, i as int));
            return true;
        }
        assert(!occurs_at(hay@, needle@, i as int)) by {
            if occurs_at(hay@, needle@, i as int) {
                let k = choose|k: int| 0 <= k < needle@.len() && hay@[i + k] != needle@[k];
                assert(hay@.subrange(i as int, i + needle@.len())[k] == needle@[k]);
            }
        }
        i = i + 1;
    }
    assert forall|k: int| !occurs_at(hay@, needle@, k) by {
        if 0 <= k && k + needle@.len() <= hay@.len() {
            assert(k < i);
        }
    }
    false
}

/// The first index at or after `i` holding `c`, or the length when there is none.
pub open spec fn index_of(s: Seq<char>, c: char, i: int) -> int
    decreases s.len() - i,
{
    if 0 <= i < s.len() && s[i] != c {
        index_of(s, c, i + 1)
    } else {
        i
    }
}

/// The first index at or after `i` holding `c`, or the length.
pub fn find_char(v: &Vec<char>, c: char, i: usize) -> (r: usize)
    requires
        i <= v@.len(),
    ensures
        r == index_of(v@, c, i as int),
        i <= r <= v@.len(),
        r < v@.len() ==> v@[r as int] == c,
        forall|k: int| i <= k < r ==> v@[k] != c,
{
    let mut a = i;
    while a < v.len() && v[a] != c
        invariant
            i <= a <= v@.len(),
            index_of(v@, c, i as int) == index_of(v@, c, a as int),
            forall|k: int| i <= k < a ==> v@[k] != c,
        decreases v.len() - a,
    {
        a = a + 1;
    }
    a
}

/// ASCII lower-casing of one character (`char::to_ascii_lowercase`).
pub open spec fn ascii_lower(c: char) -> char {
    if 'A' <= c && c <= 'Z' {
        ((c as u32) + 32) as char
    } else {
        c
    }
}

/// `str::eq_ignore_ascii_case`.
pub open spec fn eq_ignore_ascii_case(a: Seq<char>, b: Seq<char>) -> bool {
    a.len() == b.len() && forall|i: int| 0 <= i < a.len() ==> ascii_lower(a[i]) == ascii_lower(b[i])
}

fn lower_ascii(c: char) -> (r: char)
    ensures
        r == ascii_lower(c),
{
    if 'A' <= c && c <= 'Z' {
        let b = (c as u8) + 32;
        b as char
    } else {
        c
    }
}

/// Whether two strings are equal up to ASCII case.
pub fn equal_ignoring_ascii_case(a: &Vec<char>, b: &Vec<char>) -> (r: bool)
    ensures
        r == eq_ignore_ascii_case(a@, b@),
{
    if a.len() != b.len() {
        return false;
    }
    let mut i: usize = 0;
    while i < a.len()
        invariant
            i <= a@.len(),
            a@.len() == b@.len(),
            forall|k: int| 0 <= k < i ==> ascii_lower(a@[k]) == ascii_lower(b@[k]),
        decreases a.len() - i,
    {
        if lower_ascii(a[i]) != lower_ascii(b[i]) {
            return false;
        }
        i = i + 1;
    }
    true
}

/// The pieces of `s` between occurrences of `sep`, scanning from `i` with the
/// current piece starting at `start` (`str::split` with a character).
pub open spec fn split_from(s: Seq<char>, sep: char, start: int, i: int) -> Seq<Seq<char>>
    decreases s.len() - i,
{
    if i < 0 || i >= s.len() {
        seq![s.subrange(start, s.len() as int)]
    } else if s[i] == sep {
        seq![s.subrange(start, i)] + split_from(s, sep, i + 1, i + 1)
    } else {
        split_from(s, sep, start, i + 1)
    }
}

/// `s.split(sep)`: the pieces between separators; there is always at least one.
pub open spec fn split_on(s: Seq<char>, sep: char) -> Seq<Seq<char>> {
    split_from(s, sep, 0, 0)
}

/// The pieces of `s` between occurrences of `sep`.
pub fn split(s: &str, sep: char) -> (r: Vec<String>)
    ensures
        r.deep_view() == split_on(s@, sep),
{
    let v = to_chars(s);
    let mut r: Vec<String> = Vec::new();
    let mut start: usize = 0;
    let mut i: usize = 0;
    while i < v.len()
        invariant
            start <= i <= v@.len(),
            v@ == s@,
            r.deep_view() + split_from(v@, sep, start as int, i as int) == split_on(v@, sep),
        decreases v.len() - i,
    {
        if v[i] == sep {
            let piece = from_char_range(&v, start, i);
            let ghost before = r.deep_view();
            r.push(piece);
            assert(r.deep_view() == before.push(piece@));
            assert(split_from(v@, sep, start as int, i as int) == seq![v@.subrange(start as int, i as int)]
                + split_from(v@, sep, i + 1, i + 1));
            assert(before + split_from(v@, sep, start as int, i as int) == r.deep_view() + split_from(
                v@,
                sep,
                i + 1,
                i + 1,
            ));
            start = i + 1;
        }
        i = i + 1;
    }
    let piece = from_char_range(&v, start, v.len());
    let ghost before = r.deep_view();
    r.push(piece);
    assert(r.deep_view() == before.push(piece@));
    assert(before + split_from(v@, sep, start as int, i as int) == r.deep_view());
    r
}

/// The value of `c` as a digit in base `radix` (`char::to_digit`), for
/// radices up to 16.
pub open spec fn digit_value(c: char, radix: nat) -> Option<nat> {
    let d: int = if '0' <= c && c <= '9' {
        c as int - '0' as int
    } else if 'a' <= c && c <= 'f' {
        c as int - 'a' as int + 10
    } else if 'A' <= c && c <= 'F' {
        c as int - 'A' as int + 10
    } else {
        99
    };
    if d < radix {
        Some(d as nat)
    } else {
        None
    }
}

pub open spec fn all_digits(s: Seq<char>, radix: nat) -> bool {
    forall|i: int| 0 <= i < s.len() ==> digit_value(#[trigger] s[i], radix) is Some
}

/// The number written by the digits `s` in base `radix`.
pub open spec fn digits_value(s: Seq<char>, radix: nat) -> nat
    decreases s.len(),
{
    if s.len() == 0 {
        0
    } else {
        digits_value(s.drop_last(), radix) * radix + digit_value(s.last(), radix).unwrap_or(0)
    }
}

/// What `from_str_radix` (and `str::parse`) gives for an unsigned type whose
/// largest value is `max`: an optional `+`, then at least one digit, and a
/// value that fits.
pub open spec fn parse_unsigned_spec(s: Seq<char>, radix: nat, max: nat) -> Option<nat> {
    let d = if s.len() > 0 && s[0] == '+' {
        s.drop_first()
    } else {
        s
    };
    if d.len() > 0 && all_digits(d, radix) && digits_value(d, radix) <= max {
        Some(digits_value(d, radix))
    } else {
        None
    }
}

proof fn lemma_digits_value_prefix(s: Seq<char>, radix: nat, k: int)
    requires
        radix >= 1,
        0 <= k <= s.len(),
    ensures
        digits_value(s.take(k), radix) <= digits_value(s, radix),
    decreases s.len(),
{
    if k < s.len() {
        assert(s.drop_last().take(k) == s.take(k));
        lemma_digits_value_prefix(s.drop_last(), radix, k);
        let p = digits_value(s.drop_last(), radix);
        assert(p * radix >= p) by (nonlinear_arith)
            requires
                radix >= 1,
        ;
    } else {
        assert(s.take(k) == s);
    }
}

fn digit_of(c: char, radix: u32) -> (r: Option<u32>)
    requires
        2 <= radix <= 16,
    ensures
        r is Some <==> digit_value(c, radix as nat) is Some,
        r matches Some(d) ==> d < radix && digit_value(c, radix as nat) == Some(d as nat),
{
    let d: u32 = if '0' <= c && c <= '9' {
        (c as u32) - ('0' as u32)
    } else if 'a' <= c && c <= 'f' {
        (c as u32) - ('a' as u32) + 10
    } else if 'A' <= c && c <= 'F' {
        (c as u32) - ('A' as u32) + 10
    } else {
        99
    };
    if d < radix {
        Some(d)
    } else {
        None
    }
}

/// `from_str_radix` for an unsigned type whose largest value is `max`.
pub fn parse_unsigned(v: &Vec<char>, radix: u32, max: u64) -> (r: Option<u64>)
    requires
        2 <= radix <= 16,
    ensures
        r matches Some(n) ==> parse_unsigned_spec(v@, radix as nat, max as nat) == Some(n as nat),
        r is None ==> parse_unsigned_spec(v@, radix as nat, max as nat) is None,
{
    let n = v.len();
    let start: usize = if n > 0 && v[0] == '+' {
        1
    } else {
        0
    };
    let ghost d = if v@.len() > 0 && v@[0] == '+' {
        v@.drop_first()
    } else {
        v@
    };
    assert(d == v@.subrange(start as int, n as int));
    if start == n {
        return None;
    }
    let mut acc: u64 = 0;
    let mut i: usize = start;
    while i < n
        invariant
            n == v@.len(),
            start <= i <= n,
            2 <= radix <= 16,
            d == v@.subrange(start as int, n as int),
            d == (if v@.len() > 0 && v@[0] == '+' {
                v@.drop_first()
            } else {
                v@
            }),
            all_digits(d.take(i - start), radix as nat),
            acc as nat == digits_value(d.take(i - start), radix as nat),
            acc <= max,
        decreases n - i,
    {
        let digit = digit_of(v[i], radix);
        let ghost k = i - start;
        assert(d[k] == v@[i as int]);
        match digit {
            None => {
                assert(digit_value(d[k], radix as nat) is None);
                assert(!all_digits(d, radix as nat));
                return None;
            },
            Some(x) => {
                assert((acc as int) * (radix as int) + x as int <= 0x1_0000_0000_0000_0000 * 16)
                    by (nonlinear_arith)
                    requires
                        acc <= 0xffff_ffff_ffff_ffff,
                        radix <= 16,
                        x < 16,
                ;
                let wide: u128 = (acc as u128) * (radix as u128) + (x as u128);
                assert(d.take(k + 1).drop_last() == d.take(k));
                assert(wide as nat == digits_value(d.take(k + 1), radix as nat));
                if wide > max as u128 {
                    proof {
                        if all_digits(d, radix as nat) {
                            lemma_digits_value_prefix(d, radix as nat, k + 1);
                        }
                    }
                    return None;
                }
                acc = wide as u64;
                i = i + 1;
                assert(all_digits(d.take(i - start), radix as nat)) by {
                    assert forall|j: int| 0 <= j < d.take(i - start).len() implies digit_value(
                        #[trigger] d.take(i - start)[j],
                        radix as nat,
                    ) is Some by {
                        if j < k {
                            assert(d.take(i - start)[j] == d.take(k)[j]);
                        }
                    }
                }
            },
        }
    }
    assert(d.take(n - start) == d);
    Some(acc)
}

/// The decimal digit character for `d < 10`.
pub open spec fn digit_char(d: nat) -> char {
    (d + '0' as nat) as char
}

/// The decimal notation of `n` (`n.to_string()` for unsigned integers).
pub open spec fn decimal(n: nat) -> Seq<char>
    decreases n,
{
    if n < 10 {
        seq![digit_char(n)]
    } else {
        decimal(n / 10).push(digit_char(n % 10))
    }
}

/// Appends the decimal notation of `n` to `out`.
pub fn push_decimal(n: usize, out: &mut Vec<char>)
    ensures
        final(out)@ == old(out)@ + decimal(n as nat),
    decreases n,
{
    if n >= 10 {
        push_decimal(n / 10, out);
    }
    let d = (n % 10) as u8;
    let c = (d + 48) as char;
    out.push(c);
    assert(c == digit_char((n % 10) as nat));
}

/// The decimal notation is read back as the same number.
pub proof fn lemma_decimal_parses(n: nat)
    ensures
        decimal(n).len() > 0,
        all_digits(decimal(n), 10),
        digits_value(decimal(n), 10) == n,
        decimal(n)[0] != '+',
        forall|i: int| 0 <= i < decimal(n).len() ==> '0' <= #[trigger] decimal(n)[i] <= '9',
    decreases n,
{
    if n < 10 {
        let c = digit_char(n);
        assert(c as int == n + 48);
        assert(decimal(n) == seq![c]);
        assert(decimal(n).drop_last().len() == 0);
        assert(digits_value(decimal(n).drop_last(), 10) == 0);
        assert(digit_value(c, 10) == Some(n));
        assert(decimal(n).last() == c);
    }
    if n >= 10 {
        lemma_decimal_parses(n / 10);
        let s = decimal(n);
        assert(s.drop_last() == decimal(n / 10));
        assert((n / 10) * 10 + n % 10 == n) by (nonlinear_arith);
        let c = digit_char(n % 10);
        assert(c as int == n % 10 + 48);
        assert(digit_value(c, 10) == Some(n % 10));
        assert(s.last() == c);
        assert forall|i: int| 0 <= i < s.len() implies digit_value(#[trigger] s[i], 10) is Some by {
            if i < s.len() - 1 {
                assert(s[i] == decimal(n / 10)[i]);
            }
        }
        assert forall|i: int| 0 <= i < s.len() implies '0' <= #[trigger] s[i] <= '9' by {
            if i < s.len() - 1 {
                assert(s[i] == decimal(n / 10)[i]);
            }
        }
    }
}

} // verus!
