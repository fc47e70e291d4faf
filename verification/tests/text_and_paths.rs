use brunch::paths::{components, join, render};
use brunch::sorted::is_text_less;
use brunch::text::{equal_ignoring_ascii_case, parse_unsigned, split, to_chars, trim};

fn owned(items: &[&str]) -> Vec<String> {
    items.iter().map(|s| s.to_string()).collect()
}

#[test]
fn trim_removes_unicode_whitespace_on_both_sides() {
    assert_eq!(trim("\u{3000} hi there \t\n"), "hi there");
    assert_eq!(trim("   "), "");
    assert_eq!(trim("x"), "x");
}

#[test]
fn split_keeps_empty_pieces() {
    assert_eq!(split("a::b", ':'), owned(&["a", "", "b"]));
    assert_eq!(split("", ':'), owned(&[""]));
    assert_eq!(split("GNOME;KDE;", ';'), owned(&["GNOME", "KDE", ""]));
}

#[test]
fn parse_unsigned_reads_an_optional_plus_and_digits_that_fit() {
    assert_eq!(parse_unsigned(&to_chars("ff"), 16, 255), Some(255));
    assert_eq!(parse_unsigned(&to_chars("+0A"), 16, 255), Some(10));
    assert_eq!(parse_unsigned(&to_chars("100"), 16, 255), None);
    assert_eq!(parse_unsigned(&to_chars("+"), 16, 255), None);
    assert_eq!(parse_unsigned(&to_chars(""), 10, 255), None);
    assert_eq!(parse_unsigned(&to_chars("12g"), 16, 255), None);
    assert_eq!(parse_unsigned(&to_chars("18446744073709551615"), 10, u64::MAX), Some(u64::MAX));
    assert_eq!(parse_unsigned(&to_chars("18446744073709551616"), 10, u64::MAX), None);
}

#[test]
fn ascii_case_is_ignored_only_for_ascii_letters() {
    assert!(equal_ignoring_ascii_case(&to_chars("GNOME"), &to_chars("gnome")));
    assert!(!equal_ignoring_ascii_case(&to_chars("Ä"), &to_chars("ä")));
    assert!(!equal_ignoring_ascii_case(&to_chars("KDE"), &to_chars("KDE ")));
}

#[test]
fn components_follow_std_path_rules() {
    assert_eq!(
        components("/usr//share/./applications/"),
        owned(&["/", "usr", "share", "applications"])
    );
    assert_eq!(components("./a/../b"), owned(&[".", "a", "..", "b"]));
    assert_eq!(components(""), Vec::<String>::new());
    assert_eq!(components("/"), owned(&["/"]));
}

#[test]
fn join_puts_one_separator_and_keeps_absolute_names() {
    assert_eq!(join("/usr", "share"), "/usr/share");
    assert_eq!(join("/usr/", "share"), "/usr/share");
    assert_eq!(join("relative", "/absolute"), "/absolute");
    assert_eq!(join("", "name"), "name");
}

#[test]
fn render_rebuilds_a_path_from_components() {
    let cs = components("/var/lib//flatpak/exports/share");
    assert_eq!(render(&cs, 4), "/var/lib/flatpak");
    assert_eq!(render(&cs, 0), "");
    let rel = components("a/b/c");
    assert_eq!(render(&rel, 2), "a/b");
}

#[test]
fn texts_compare_by_code_point() {
    assert!(is_text_less("a", "ab"));
    assert!(!is_text_less("ab", "a"));
    assert!(!is_text_less("same", "same"));
    assert!(is_text_less("Z", "a"));
    assert!(is_text_less("é", "ö"));
}
