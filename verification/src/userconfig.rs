//! The user's configuration: the (empty) settings file and the colors of
//! the style file, read from `#rgb`, `#rrggbb` or `#rrggbbaa` hex text.
use vstd::prelude::*;
use crate::text::{
    CharClass, all_digits, back_class, concat, digits_value, in_class, is_space, parse_unsigned,
    parse_unsigned_spec, skip_class, skip_in, to_chars, trim_in, trimmed, from_chars,
    from_char_range,
};

verus! {

/// The settings of the configuration file (there are none yet).
#[derive(Clone, Copy)]
pub struct Config {}

impl Default for Config {
    fn default() -> (r: Self)
        ensures
            r == (Config {}),
    {
        Config {}
    }
}

/// A color as red, green, blue and alpha bytes.
#[derive(Clone, Copy, PartialEq, Eq, Structural)]
pub struct Rgba8 {
    pub r: u8,
    pub g: u8,
    pub b: u8,
    pub a: u8,
}

/// Why the configuration could not be used.
pub enum ConfigError {
    /// A file could not be read: its path and the system's error text.
    Read { path: String, reason: String },
    /// A file could not be written.
    Write { path: String, reason: String },
    /// A file is not valid: its path and the parser's error text.
    Parse { path: String, reason: String },
    /// A style value is not acceptable.
    InvalidStyle { property: &'static str, reason: String },
}

impl ConfigError {
    /// The text the error displays.
    pub fn message(&self) -> (r: String)
        ensures
            r@ == match self {
                ConfigError::Read { path, reason } => "could not read "@ + path@ + ": "@ + reason@,
                ConfigError::Write { path, reason } => "could not write "@ + path@ + ": "@ + reason@,
                ConfigError::Parse { path, reason } => "could not parse "@ + path@ + ": "@ + reason@,
                ConfigError::InvalidStyle { property, reason } => "invalid style property "@ + property@
                    + ": "@ + reason@,
            },
    {
        let (head, subject, reason) = match self {
            ConfigError::Read { path, reason } => ("could not read ", path.as_str(), reason),
            ConfigError::Write { path, reason } => ("could not write ", path.as_str(), reason),
            ConfigError::Parse { path, reason } => ("could not parse ", path.as_str(), reason),
            ConfigError::InvalidStyle { property, reason } => ("invalid style property ", *property, reason),
        };
        let a = concat(head, subject);
        let b = concat(a.as_str(), ": ");
        concat(b.as_str(), reason.as_str())
    }
}

/// What the standard library's `{:?}` prints for a string: the text in
/// double quotes with escapes.
pub uninterp spec fn debug_quoted(s: Seq<char>) -> Seq<char>;

/// `format!("{:?}", s)` for a string (the `Debug` form of `str`).
#[verifier::external_body]
fn debug_text(s: &str) -> (r: String)
    ensures
        r@ == debug_quoted(s@),
{
    format!("{s:?}")
}

/// The reason given for a color text that is not a color.
pub open spec fn invalid_color_reason(value: Seq<char>) -> Seq<char> {
    "invalid hex color "@ + debug_quoted(value)
}

/// The error for a color text that is not a color.
pub fn invalid_color(property: &'static str, value: &str) -> (r: ConfigError)
    ensures
        r matches ConfigError::InvalidStyle { property: p, reason } && p == property && reason@
            == invalid_color_reason(value@),
{
    let quoted = debug_text(value);
    ConfigError::InvalidStyle { property, reason: concat("invalid hex color ", quoted.as_str()) }
}

/// The number of bytes UTF-8 takes for `c`.
pub open spec fn utf8_len(c: char) -> nat {
    let u = c as u32;
    if u < 0x80 {
        1
    } else if u < 0x800 {
        2
    } else if u < 0x10000 {
        3
    } else {
        4
    }
}

/// The number of bytes UTF-8 takes for `s` (`str::len`).
pub open spec fn byte_len(s: Seq<char>) -> nat
    decreases s.len(),
{
    if s.len() == 0 {
        0
    } else {
        byte_len(s.drop_last()) + utf8_len(s.last())
    }
}

/// The character position at which byte offset `b` falls between two
/// characters, searching from position `i`; none when `b` cuts a character
/// or lies past the end.
pub open spec fn boundary_from(s: Seq<char>, b: int, i: int) -> Option<int>
    decreases s.len() - i,
{
    if i < 0 || i > s.len() {
        None
    } else if byte_len(s.take(i)) == b {
        Some(i)
    } else if i == s.len() {
        None
    } else {
        boundary_from(s, b, i + 1)
    }
}

/// `&s[a..b]` with byte offsets; none where slicing would panic.
pub open spec fn byte_slice(s: Seq<char>, a: int, b: int) -> Option<Seq<char>> {
    match (boundary_from(s, a, 0), boundary_from(s, b, 0)) {
        (Some(i), Some(j)) => if i <= j {
            Some(s.subrange(i, j))
        } else {
            None
        },
        _ => None,
    }
}

/// Each character written twice (`#rgb` to `#rrggbb`).
pub open spec fn doubled(s: Seq<char>) -> Seq<char>
    decreases s.len(),
{
    if s.len() == 0 {
        seq![]
    } else {
        doubled(s.drop_last()).push(s.last()).push(s.last())
    }
}

/// How reading a color text ends: a byte slice that would cut a character
/// (where `str` slicing panics), an invalid piece (whose text the error
/// quotes), or a color.
pub enum ColorOutcome {
    Panic,
    Invalid(Seq<char>),
    Parsed(Rgba8),
}

/// Reading one two-digit hex byte `&s[a..b]`.
pub open spec fn hex_piece(s: Seq<char>, a: int, b: int) -> ColorOutcome {
    match byte_slice(s, a, b) {
        None => ColorOutcome::Panic,
        Some(piece) => match parse_unsigned_spec(piece, 16, 255) {
            Some(v) => ColorOutcome::Parsed(Rgba8 { r: v as u8, g: 0, b: 0, a: 0 }),
            None => ColorOutcome::Invalid(piece),
        },
    }
}

/// The text of a color value once trimmed and stripped of leading `#`.
pub open spec fn color_digits(value: Seq<char>) -> Seq<char> {
    let t = trimmed(value);
    t.skip(skip_class(t, CharClass::Hash, 0))
}

/// Reading a color value: three bytes' worth of text is widened by writing
/// each character twice; six or eight bytes are taken as they are; any other
/// length is invalid. The alpha byte (when there are eight) is read first,
/// then red, green and blue; alpha is 255 when there are six.
pub open spec fn parse_color_spec(value: Seq<char>) -> ColorOutcome {
    let v = color_digits(value);
    let n = byte_len(v);
    if n != 3 && n != 6 && n != 8 {
        ColorOutcome::Invalid(v)
    } else {
        let e = if n == 3 {
            doubled(v)
        } else {
            v
        };
        let alpha = if n == 8 {
            hex_piece(e, 6, 8)
        } else {
            ColorOutcome::Parsed(Rgba8 { r: 255, g: 0, b: 0, a: 0 })
        };
        match alpha {
            ColorOutcome::Parsed(a) => match hex_piece(e, 0, 2) {
                ColorOutcome::Parsed(r) => match hex_piece(e, 2, 4) {
                    ColorOutcome::Parsed(g) => match hex_piece(e, 4, 6) {
                        ColorOutcome::Parsed(b) => ColorOutcome::Parsed(Rgba8 { r: r.r, g: g.r, b: b.r, a: a.r }),
                        other => other,
                    },
                    other => other,
                },
                other => other,
            },
            other => other,
        }
    }
}

fn utf8_len_of(c: char) -> (r: usize)
    ensures
        r == utf8_len(c),
{
    let u = c as u32;
    if u < 0x80 {
        1
    } else if u < 0x800 {
        2
    } else if u < 0x10000 {
        3
    } else {
        4
    }
}

proof fn lemma_byte_len_take(s: Seq<char>, i: int)
    requires
        0 <= i < s.len(),
    ensures
        byte_len(s.take(i + 1)) == byte_len(s.take(i)) + utf8_len(s[i]),
{
    assert(s.take(i + 1).drop_last() == s.take(i));
}

proof fn lemma_byte_len_grows(s: Seq<char>, i: int, j: int)
    requires
        0 <= i <= j <= s.len(),
    ensures
        byte_len(s.take(i)) + (j - i) <= byte_len(s.take(j)),
    decreases j - i,
{
    if i < j {
        lemma_byte_len_grows(s, i, j - 1);
        lemma_byte_len_take(s, j - 1);
    }
}

/// A boundary found from position `i` lies between `i` and the end.
proof fn lemma_boundary_range(s: Seq<char>, b: int, i: int)
    requires
        boundary_from(s, b, i) is Some,
    ensures
        i <= boundary_from(s, b, i)->0 <= s.len(),
    decreases s.len() - i,
{
    if i >= 0 && i <= s.len() && byte_len(s.take(i)) != b && i < s.len() {
        lemma_boundary_range(s, b, i + 1);
    }
}

/// The character position of byte offset `b` in `v`, if it falls between
/// characters.
fn boundary(v: &Vec<char>, b: usize) -> (r: Option<usize>)
    requires
        b <= 8,
    ensures
        r matches Some(i) ==> boundary_from(v@, b as int, 0) == Some(i as int),
        r is None ==> boundary_from(v@, b as int, 0) is None,
{
    let mut i: usize = 0;
    let mut pos: usize = 0;
    assert(v@.take(0) =~= seq![]);
    while i < v.len() && pos < b
        invariant
            b <= 8,
            i <= v@.len(),
            pos == byte_len(v@.take(i as int)),
            boundary_from(v@, b as int, 0) == boundary_from(v@, b as int, i as int),
            pos <= b,
        decreases v.len() - i,
    {
        proof {
            lemma_byte_len_take(v@, i as int);
        }
        pos = pos + utf8_len_of(v[i]);
        i = i + 1;
        if pos > b {
            proof {
                lemma_boundary_none_after(v@, b as int, i as int);
            }
            return None;
        }
    }
    if pos == b {
        Some(i)
    } else {
        proof {
            lemma_boundary_none_after(v@, b as int, i as int);
        }
        None
    }
}

/// Past the end, or once the offset is passed, there is no boundary left.
proof fn lemma_boundary_none_after(s: Seq<char>, b: int, i: int)
    requires
        0 <= i <= s.len(),
        byte_len(s.take(i)) != b,
        i == s.len() || byte_len(s.take(i)) > b,
    ensures
        boundary_from(s, b, i) is None,
    decreases s.len() - i,
{
    if i < s.len() {
        lemma_byte_len_take(s, i);
        lemma_boundary_none_after(s, b, i + 1);
    }
}

/// What an exec reading gives, as a `ColorOutcome`: `None` where the
/// slicing would panic.
pub open spec fn outcome_of(r: Option<Result<Rgba8, Vec<char>>>) -> ColorOutcome {
    match r {
        None => ColorOutcome::Panic,
        Some(Ok(c)) => ColorOutcome::Parsed(c),
        Some(Err(piece)) => ColorOutcome::Invalid(piece@),
    }
}

/// Reads `&e[a..b]` as a hex byte (in the `r` field).
fn hex_piece_of(e: &Vec<char>, a: usize, b: usize) -> (r: Option<Result<Rgba8, Vec<char>>>)
    requires
        a <= 8,
        b <= 8,
    ensures
        outcome_of(r) == hex_piece(e@, a as int, b as int),
{
    let i = match boundary(e, a) {
        Some(i) => i,
        None => return None,
    };
    let j = match boundary(e, b) {
        Some(j) => j,
        None => return None,
    };
    if i > j {
        return None;
    }
    proof {
        lemma_boundary_range(e@, b as int, 0);
    }
    let text = from_char_range(e.as_slice(), i, j);
    let piece: Vec<char> = to_chars(text.as_str());
    match parse_unsigned(&piece, 16, 255) {
        Some(v) => Some(Ok(Rgba8 { r: v as u8, g: 0, b: 0, a: 0 })),
        None => Some(Err(piece)),
    }
}

/// The trimmed color text without its leading `#`s.
fn color_digits_of(value: &str) -> (v: Vec<char>)
    ensures
        v@ == color_digits(value@),
{
    let chars = to_chars(value);
    let t = trim_in(&chars, CharClass::Space);
    let start = skip_in(&t, CharClass::Hash, 0);
    let text = from_char_range(t.as_slice(), start, t.len());
    to_chars(text.as_str())
}

/// The UTF-8 length of `v` when it is at most eight bytes; otherwise some
/// number above eight.
fn short_byte_len(v: &Vec<char>) -> (n: usize)
    ensures
        n <= 8 ==> n == byte_len(v@),
        n > 8 ==> byte_len(v@) > 8,
{
    let mut n: usize = 0;
    let mut i: usize = 0;
    assert(v@.take(0) =~= seq![]);
    while i < v.len() && n <= 8
        invariant
            i <= v@.len(),
            n == byte_len(v@.take(i as int)),
            n <= 12,
        decreases v.len() - i,
    {
        proof {
            lemma_byte_len_take(v@, i as int);
        }
        n = n + utf8_len_of(v[i]);
        i = i + 1;
    }
    proof {
        lemma_byte_len_grows(v@, i as int, v@.len() as int);
    }
    assert(v@.take(v@.len() as int) == v@);
    n
}

/// Each character of `v` written twice.
fn doubled_of(v: &Vec<char>) -> (d: Vec<char>)
    ensures
        d@ == doubled(v@),
{
    let mut d: Vec<char> = Vec::new();
    let mut j: usize = 0;
    while j < v.len()
        invariant
            j <= v@.len(),
            d@ == doubled(v@.take(j as int)),
        decreases v.len() - j,
    {
        assert(v@.take(j + 1).drop_last() == v@.take(j as int));
        d.push(v[j]);
        d.push(v[j]);
        j = j + 1;
    }
    assert(v@.take(v@.len() as int) == v@);
    d
}

/// Reads a color value as `parse_color_spec` says, without panicking.
fn read_color(value: &str) -> (r: Option<Result<Rgba8, Vec<char>>>)
    ensures
        outcome_of(r) == parse_color_spec(value@),
{
    let v = color_digits_of(value);
    let n = short_byte_len(&v);
    if n != 3 && n != 6 && n != 8 {
        return Some(Err(v));
    }
    let e: Vec<char> = if n == 3 {
        doubled_of(&v)
    } else {
        v
    };
    let alpha: u8 = if n == 8 {
        match hex_piece_of(&e, 6, 8) {
            Some(Ok(c)) => c.r,
            other => return other,
        }
    } else {
        255
    };
    let red = match hex_piece_of(&e, 0, 2) {
        Some(Ok(c)) => c.r,
        other => return other,
    };
    let green = match hex_piece_of(&e, 2, 4) {
        Some(Ok(c)) => c.r,
        other => return other,
    };
    let blue = match hex_piece_of(&e, 4, 6) {
        Some(Ok(c)) => c.r,
        other => return other,
    };
    Some(Ok(Rgba8 { r: red, g: green, b: blue, a: alpha }))
}

/// The error for the invalid piece `piece`.
fn invalid_piece(property: &'static str, piece: &Vec<char>) -> (r: ConfigError)
    ensures
        r matches ConfigError::InvalidStyle { property: p, reason } && p == property && reason@
            == invalid_color_reason(piece@),
{
    let text = from_chars(piece.as_slice());
    invalid_color(property, text.as_str())
}

/// Whether reading `value` as a color would cut a character in two (where
/// slicing the text panics).
pub fn color_cuts_character(value: &str) -> (r: bool)
    ensures
        r == (parse_color_spec(value@) is Panic),
{
    read_color(value).is_none()
}

/// Reads a color value (see `parse_color_spec`); an invalid piece is
/// reported for `property`.
pub fn parse_color(property: &'static str, value: &str) -> (r: Result<Rgba8, ConfigError>)
    requires
        !(parse_color_spec(value@) is Panic),
    ensures
        r matches Ok(c) ==> parse_color_spec(value@) == ColorOutcome::Parsed(c),
        r matches Err(e) ==> (parse_color_spec(value@) matches ColorOutcome::Invalid(piece) && (e
            matches ConfigError::InvalidStyle { property: p, reason } && p == property && reason@
            == invalid_color_reason(piece))),
{
    match read_color(value) {
        Some(Ok(c)) => Ok(c),
        Some(Err(piece)) => Err(invalid_piece(property, &piece)),
        None => {
            proof {
                assert(false);
            }
            Ok(Rgba8 { r: 0, g: 0, b: 0, a: 0 })
        },
    }
}

/// `u8::from_str_radix(value, 16)`: a hex byte, or the invalid-color error.
pub fn byte(property: &'static str, value: &str) -> (r: Result<u8, ConfigError>)
    ensures
        r matches Ok(x) ==> parse_unsigned_spec(value@, 16, 255) == Some(x as nat),
        r matches Err(e) ==> parse_unsigned_spec(value@, 16, 255) is None && (e matches ConfigError::InvalidStyle { property: p, reason } && p == property && reason@ == invalid_color_reason(value@)),
{
    let v = to_chars(value);
    match parse_unsigned(&v, 16, 255) {
        Some(x) => Ok(x as u8),
        None => Err(invalid_color(property, value)),
    }
}

/// The names of the eight color properties of a style, in the order in
/// which they are read.
pub open spec fn color_property(k: int) -> &'static str {
    if k == 0 {
        "background"
    } else if k == 1 {
        "surface"
    } else if k == 2 {
        "surface_selected"
    } else if k == 3 {
        "text"
    } else if k == 4 {
        "muted"
    } else if k == 5 {
        "accent"
    } else if k == 6 {
        "error"
    } else {
        "surface_error"
    }
}

fn color_property_of(k: usize) -> (r: &'static str)
    ensures
        r == color_property(k as int),
{
    if k == 0 {
        "background"
    } else if k == 1 {
        "surface"
    } else if k == 2 {
        "surface_selected"
    } else if k == 3 {
        "text"
    } else if k == 4 {
        "muted"
    } else if k == 5 {
        "accent"
    } else if k == 6 {
        "error"
    } else {
        "surface_error"
    }
}

/// The color texts of a style file, each absent where the file leaves the
/// color at its default.
pub struct StyleColors {
    pub background: Option<String>,
    pub surface: Option<String>,
    pub surface_selected: Option<String>,
    pub text: Option<String>,
    pub muted: Option<String>,
    pub accent: Option<String>,
    pub error: Option<String>,
    pub surface_error: Option<String>,
}

/// The colors a style file sets, each absent where it keeps the default.
#[derive(Clone, Copy, PartialEq, Eq, Structural)]
pub struct ResolvedColors {
    pub background: Option<Rgba8>,
    pub surface: Option<Rgba8>,
    pub surface_selected: Option<Rgba8>,
    pub text: Option<Rgba8>,
    pub muted: Option<Rgba8>,
    pub accent: Option<Rgba8>,
    pub error: Option<Rgba8>,
    pub surface_error: Option<Rgba8>,
}

/// An optional string as optional text.
pub open spec fn text_of(o: Option<String>) -> Option<Seq<char>> {
    match o {
        Some(s) => Some(s@),
        None => None,
    }
}

/// The color a text gives, if it is given and reads as one.
pub open spec fn resolved_color(entry: Option<Seq<char>>) -> Option<Rgba8> {
    match entry {
        Some(v) => match parse_color_spec(v) {
            ColorOutcome::Parsed(c) => Some(c),
            _ => None,
        },
        None => None,
    }
}

/// How reading a style's colors ends.
pub enum StyleOutcome {
    /// Every given color reads.
    Colors,
    /// The color at this position is the first that does not read; the
    /// invalid piece.
    Invalid(int, Seq<char>),
    /// The first color that does not read cuts a character.
    Cut,
}

/// Reading the color texts from position `i` on, in order, up to the first
/// that does not read.
pub open spec fn resolve_from(entries: Seq<Option<Seq<char>>>, i: int) -> StyleOutcome
    decreases entries.len() - i,
{
    if i < 0 || i >= entries.len() {
        StyleOutcome::Colors
    } else {
        match entries[i] {
            None => resolve_from(entries, i + 1),
            Some(v) => match parse_color_spec(v) {
                ColorOutcome::Parsed(_) => resolve_from(entries, i + 1),
                ColorOutcome::Invalid(piece) => StyleOutcome::Invalid(i, piece),
                ColorOutcome::Panic => StyleOutcome::Cut,
            },
        }
    }
}

impl StyleColors {
    /// The eight color texts in the order of `color_property`.
    pub open spec fn entries(&self) -> Seq<Option<Seq<char>>> {
        seq![
            text_of(self.background),
            text_of(self.surface),
            text_of(self.surface_selected),
            text_of(self.text),
            text_of(self.muted),
            text_of(self.accent),
            text_of(self.error),
            text_of(self.surface_error),
        ]
    }

    /// Whether resolving these colors would cut a character of a color text
    /// (where slicing the text panics).
    pub fn cuts_character(&self) -> (r: bool)
        ensures
            r == (resolve_from(self.entries(), 0) is Cut),
    {
        let texts = self.texts();
        let mut i: usize = 0;
        while i < 8
            invariant
                i <= 8,
                texts@.len() == 8,
                forall|k: int| 0 <= k < 8 ==> text_of(#[trigger] texts@[k]) == self.entries()[k],
                resolve_from(self.entries(), 0) == resolve_from(self.entries(), i as int),
            decreases 8 - i,
        {
            match &texts[i] {
                None => {},
                Some(v) => {
                    match read_color(v.as_str()) {
                        Some(Ok(_)) => {},
                        Some(Err(_)) => return false,
                        None => return true,
                    }
                },
            }
            i = i + 1;
        }
        false
    }

    /// The eight color texts in the order of `color_property`.
    fn texts(&self) -> (r: Vec<Option<String>>)
        ensures
            r@.len() == 8,
            forall|k: int| 0 <= k < 8 ==> text_of(#[trigger] r@[k]) == self.entries()[k],
    {
        let mut r: Vec<Option<String>> = Vec::new();
        r.push(copy_text(&self.background));
        r.push(copy_text(&self.surface));
        r.push(copy_text(&self.surface_selected));
        r.push(copy_text(&self.text));
        r.push(copy_text(&self.muted));
        r.push(copy_text(&self.accent));
        r.push(copy_text(&self.error));
        r.push(copy_text(&self.surface_error));
        r
    }

    /// Reads the given colors in the order of `color_property`; the first
    /// that is not a color is the error.
    pub fn resolve(&self) -> (r: Result<ResolvedColors, ConfigError>)
        requires
            !(resolve_from(self.entries(), 0) is Cut),
        ensures
            resolve_from(self.entries(), 0) is Colors <==> r is Ok,
            r matches Ok(c) ==> c.values() == self.entries().map_values(
                |e: Option<Seq<char>>| resolved_color(e),
            ),
            resolve_from(self.entries(), 0) matches StyleOutcome::Invalid(k, piece) ==> (r matches Err(
                ConfigError::InvalidStyle { property, reason },
            ) && property == color_property(k) && reason@ == invalid_color_reason(piece)),
    {
        let texts = self.texts();
        let mut out: Vec<Option<Rgba8>> = Vec::new();
        let mut i: usize = 0;
        while i < 8
            invariant
                i <= 8,
                texts@.len() == 8,
                forall|k: int| 0 <= k < 8 ==> text_of(#[trigger] texts@[k]) == self.entries()[k],
                resolve_from(self.entries(), 0) == resolve_from(self.entries(), i as int),
                out@.len() == i,
                forall|k: int| 0 <= k < i ==> #[trigger] out@[k] == resolved_color(self.entries()[k]),
                !(resolve_from(self.entries(), 0) is Cut),
            decreases 8 - i,
        {
            let color = match &texts[i] {
                None => None,
                Some(v) => {
                    match read_color(v.as_str()) {
                        Some(Ok(c)) => Some(c),
                        Some(Err(piece)) => {
                            let property = color_property_of(i);
                            return Err(invalid_piece(property, &piece));
                        },
                        None => {
                            proof {
                                assert(false);
                            }
                            None
                        },
                    }
                },
            };
            out.push(color);
            i = i + 1;
        }
        let c = ResolvedColors::from_values(&out);
        assert(out@ =~= self.entries().map_values(|e: Option<Seq<char>>| resolved_color(e)));
        Ok(c)
    }
}

impl ResolvedColors {
    /// The colors from their list in the order of `color_property`.
    fn from_values(out: &Vec<Option<Rgba8>>) -> (c: Self)
        requires
            out@.len() == 8,
        ensures
            c.values() == out@,
    {
        let c = ResolvedColors {
            background: out[0],
            surface: out[1],
            surface_selected: out[2],
            text: out[3],
            muted: out[4],
            accent: out[5],
            error: out[6],
            surface_error: out[7],
        };
        assert(c.values() =~= out@);
        c
    }

    /// The eight colors in the order of `color_property`.
    pub open spec fn values(&self) -> Seq<Option<Rgba8>> {
        seq![
            self.background,
            self.surface,
            self.surface_selected,
            self.text,
            self.muted,
            self.accent,
            self.error,
            self.surface_error,
        ]
    }
}

/// A copy of an optional text.
fn copy_text(o: &Option<String>) -> (r: Option<String>)
    ensures
        text_of(r) == text_of(*o),
{
    match o {
        Some(s) => Some(from_chars(to_chars(s.as_str()).as_slice())),
        None => None,
    }
}

/// A color written without an alpha byte is opaque.
pub proof fn lemma_opaque_without_alpha(value: Seq<char>)
    requires
        parse_color_spec(value) is Parsed,
        byte_len(color_digits(value)) != 8,
    ensures
        parse_color_spec(value)->Parsed_0.a == 255,
{
}

/// A color text of any length but three, six or eight bytes (once trimmed
/// and stripped of `#`) is invalid as a whole.
pub proof fn lemma_invalid_length(value: Seq<char>)
    requires
        byte_len(color_digits(value)) != 3,
        byte_len(color_digits(value)) != 6,
        byte_len(color_digits(value)) != 8,
    ensures
        parse_color_spec(value) == ColorOutcome::Invalid(color_digits(value)),
{
}

/// A hexadecimal digit.
pub open spec fn is_hex_digit(c: char) -> bool {
    ('0' <= c && c <= '9') || ('a' <= c && c <= 'f') || ('A' <= c && c <= 'F')
}

/// A short color `#rgb` reads as `#rrggbb`.
pub proof fn lemma_short_form(a: char, b: char, c: char)
    requires
        is_hex_digit(a),
        is_hex_digit(b),
        is_hex_digit(c),
    ensures
        parse_color_spec(seq!['#', a, b, c]) == parse_color_spec(seq!['#', a, a, b, b, c, c]),
{
    let short = seq!['#', a, b, c];
    let long = seq!['#', a, a, b, b, c, c];
    let v = seq![a, b, c];
    let w = seq![a, a, b, b, c, c];
    reveal_with_fuel(crate::text::skip_class, 3);
    reveal_with_fuel(crate::text::back_class, 2);
    reveal_with_fuel(byte_len, 7);
    reveal_with_fuel(doubled, 4);
    assert(trimmed(short) == short.subrange(0, 4));
    assert(short.subrange(0, 4) =~= short);
    assert(trimmed(long) == long.subrange(0, 7));
    assert(long.subrange(0, 7) =~= long);
    assert(color_digits(short) == short.skip(1));
    assert(short.skip(1) =~= v);
    assert(color_digits(long) == long.skip(1));
    assert(long.skip(1) =~= w);
    assert(v.drop_last().drop_last().drop_last() =~= Seq::<char>::empty());
    assert(w.drop_last().drop_last().drop_last().drop_last().drop_last().drop_last() =~= Seq::<char>::empty());
    assert(byte_len(v) == 3);
    assert(byte_len(w) == 6);
    assert(doubled(v) =~= w);
}

/// Every character is ASCII (one byte in UTF-8).
pub open spec fn all_ascii(s: Seq<char>) -> bool {
    forall|i: int| 0 <= i < s.len() ==> (#[trigger] s[i] as u32) < 0x80
}

proof fn lemma_ascii_byte_len(s: Seq<char>, i: int)
    requires
        all_ascii(s),
        0 <= i <= s.len(),
    ensures
        byte_len(s.take(i)) == i,
    decreases i,
{
    if i > 0 {
        lemma_ascii_byte_len(s, i - 1);
        lemma_byte_len_take(s, i - 1);
        assert((s[i - 1] as u32) < 0x80);
    } else {
        assert(s.take(0) =~= Seq::<char>::empty());
    }
}

proof fn lemma_ascii_boundary(s: Seq<char>, b: int, i: int)
    requires
        all_ascii(s),
        0 <= i <= b <= s.len(),
    ensures
        boundary_from(s, b, i) == Some(b),
    decreases b - i,
{
    lemma_ascii_byte_len(s, i);
    if i < b {
        lemma_ascii_boundary(s, b, i + 1);
    }
}

/// In ASCII text, byte offsets are character positions.
proof fn lemma_ascii_slice(s: Seq<char>, a: int, b: int)
    requires
        all_ascii(s),
        0 <= a <= b <= s.len(),
    ensures
        byte_slice(s, a, b) == Some(s.subrange(a, b)),
{
    lemma_ascii_boundary(s, a, 0);
    lemma_ascii_boundary(s, b, 0);
}

proof fn lemma_skip_run(s: Seq<char>, class: CharClass, i: int, k: int)
    requires
        0 <= i <= k <= s.len(),
        forall|m: int| i <= m < k ==> in_class(class, #[trigger] s[m]),
        k == s.len() || !in_class(class, s[k]),
    ensures
        skip_class(s, class, i) == k,
    decreases k - i,
{
    if i < k {
        lemma_skip_run(s, class, i + 1, k);
    }
}

proof fn lemma_back_run(s: Seq<char>, class: CharClass, lo: int, j: int, k: int)
    requires
        lo <= k <= j <= s.len(),
        0 <= lo,
        forall|m: int| k <= m < j ==> in_class(class, #[trigger] s[m]),
        k == lo || !in_class(class, s[k - 1]),
    ensures
        back_class(s, class, lo, j) == k,
    decreases j - k,
{
    if k < j {
        lemma_back_run(s, class, lo, j - 1, k);
    }
}

/// Whitespace around a color text is not part of it.
proof fn lemma_trimmed_around(pre: Seq<char>, v: Seq<char>, post: Seq<char>)
    requires
        v.len() > 0,
        !is_space(v[0]),
        !is_space(v.last()),
        forall|i: int| 0 <= i < pre.len() ==> is_space(#[trigger] pre[i]),
        forall|i: int| 0 <= i < post.len() ==> is_space(#[trigger] post[i]),
    ensures
        trimmed(pre + v + post) == v,
{
    let s = pre + v + post;
    let a = pre.len() as int;
    let b = (pre.len() + v.len()) as int;
    assert forall|m: int| 0 <= m < a implies in_class(CharClass::Space, #[trigger] s[m]) by {
        assert(s[m] == pre[m]);
    }
    assert(s[a] == v[0]);
    lemma_skip_run(s, CharClass::Space, 0, a);
    assert forall|m: int| b <= m < s.len() implies in_class(CharClass::Space, #[trigger] s[m]) by {
        assert(s[m] == post[m - b]);
    }
    assert(s[b - 1] == v.last());
    lemma_back_run(s, CharClass::Space, a, s.len() as int, b);
    assert(s.subrange(a, b) =~= v);
}

/// The digits of a color text written with one leading `#`.
proof fn lemma_digits_after_hash(pre: Seq<char>, v: Seq<char>, post: Seq<char>, hash: bool)
    requires
        v.len() > 0,
        !is_space(v[0]),
        !is_space(v.last()),
        v[0] != '#',
        forall|i: int| 0 <= i < pre.len() ==> is_space(#[trigger] pre[i]),
        forall|i: int| 0 <= i < post.len() ==> is_space(#[trigger] post[i]),
    ensures
        color_digits(pre + (if hash { seq!['#'] + v } else { v }) + post) == v,
{
    let w = if hash { seq!['#'] + v } else { v };
    assert(w.len() > 0 && w.last() == v.last());
    assert(!is_space(w[0]));
    lemma_trimmed_around(pre, w, post);
    if hash {
        assert(w[1] == v[0]);
        lemma_skip_run(w, CharClass::Hash, 0, 1);
        assert(w.skip(1) =~= v);
    } else {
        lemma_skip_run(w, CharClass::Hash, 0, 0);
        assert(w.skip(0) =~= v);
    }
}

/// The `#` before a color and whitespace around it change nothing.
pub proof fn lemma_hash_and_spaces_ignored(pre: Seq<char>, v: Seq<char>, post: Seq<char>)
    requires
        v.len() > 0,
        !is_space(v[0]),
        !is_space(v.last()),
        v[0] != '#',
        forall|i: int| 0 <= i < pre.len() ==> is_space(#[trigger] pre[i]),
        forall|i: int| 0 <= i < post.len() ==> is_space(#[trigger] post[i]),
    ensures
        parse_color_spec(pre + (seq!['#'] + v) + post) == parse_color_spec(v),
{
    lemma_digits_after_hash(pre, v, post, true);
    lemma_digits_after_hash(seq![], v, seq![], false);
    assert(seq![] + v + seq![] =~= v);
}

/// Six hex digits read as the same eight digits ending in `ff`: a color
/// without alpha is fully opaque.
pub proof fn lemma_six_digits_are_opaque(six: Seq<char>)
    requires
        six.len() == 6,
        forall|i: int| 0 <= i < 6 ==> is_hex_digit(#[trigger] six[i]),
    ensures
        parse_color_spec(seq!['#'] + six) == parse_color_spec(seq!['#'] + (six + seq!['f', 'f'])),
{
    let eight = six + seq!['f', 'f'];
    assert forall|i: int| 0 <= i < 6 implies (#[trigger] six[i] as u32) < 0x80 by {
        assert(is_hex_digit(six[i]));
    }
    assert forall|i: int| 0 <= i < 8 implies (#[trigger] eight[i] as u32) < 0x80 by {
        if i < 6 {
            assert(eight[i] == six[i]);
            assert(is_hex_digit(six[i]));
        }
    }
    assert(is_hex_digit(six[0]) && is_hex_digit(six[5]));
    assert(eight[0] == six[0] && eight[7] == 'f');
    lemma_digits_after_hash(seq![], six, seq![], true);
    lemma_digits_after_hash(seq![], eight, seq![], true);
    assert(seq![] + (seq!['#'] + six) + seq![] =~= seq!['#'] + six);
    assert(seq![] + (seq!['#'] + eight) + seq![] =~= seq!['#'] + eight);
    lemma_ascii_byte_len(six, 6);
    lemma_ascii_byte_len(eight, 8);
    assert(six.take(6) =~= six);
    assert(eight.take(8) =~= eight);
    lemma_ascii_slice(six, 0, 2);
    lemma_ascii_slice(six, 2, 4);
    lemma_ascii_slice(six, 4, 6);
    lemma_ascii_slice(eight, 0, 2);
    lemma_ascii_slice(eight, 2, 4);
    lemma_ascii_slice(eight, 4, 6);
    lemma_ascii_slice(eight, 6, 8);
    assert(eight.subrange(0, 2) =~= six.subrange(0, 2));
    assert(eight.subrange(2, 4) =~= six.subrange(2, 4));
    assert(eight.subrange(4, 6) =~= six.subrange(4, 6));
    let ff = eight.subrange(6, 8);
    assert(ff =~= seq!['f', 'f']);
    reveal_with_fuel(crate::text::digits_value, 3);
    assert(ff.drop_last().drop_last() =~= Seq::<char>::empty());
    assert(digits_value(ff, 16) == 255);
    assert(all_digits(ff, 16));
    assert(parse_unsigned_spec(ff, 16, 255) == Some(255nat));
}

} // verus!
