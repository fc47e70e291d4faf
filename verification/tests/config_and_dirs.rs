use brunch::directories::{AppDirectories, DirectoriesError};
use brunch::userconfig::{
    byte, color_cuts_character, invalid_color, parse_color, Config, ConfigError, Rgba8,
    StyleColors,
};

fn rgba(r: u8, g: u8, b: u8, a: u8) -> Rgba8 {
    Rgba8 { r, g, b, a }
}

fn reason_of(error: ConfigError) -> (&'static str, String) {
    match error {
        ConfigError::InvalidStyle { property, reason } => (property, reason),
        _ => panic!("expected an invalid style"),
    }
}

fn no_colors() -> StyleColors {
    StyleColors {
        background: None,
        surface: None,
        surface_selected: None,
        text: None,
        muted: None,
        accent: None,
        error: None,
        surface_error: None,
    }
}

#[test]
fn short_colors_expand_each_digit() {
    let short = parse_color("text", "#abc").ok().unwrap();
    let long = parse_color("text", "#aabbcc").ok().unwrap();
    assert!(short == long);
    assert!(short == rgba(0xaa, 0xbb, 0xcc, 255));
}

#[test]
fn colors_with_alpha_keep_it_and_surrounding_space_is_ignored() {
    assert!(parse_color("accent", "  ##11223344\n").ok().unwrap() == rgba(0x11, 0x22, 0x33, 0x44));
    assert!(parse_color("accent", "FFFFFF").ok().unwrap() == rgba(255, 255, 255, 255));
}

#[test]
fn invalid_colors_name_the_property_and_quote_the_text() {
    let (property, reason) = reason_of(parse_color("muted", "#12345").err().unwrap());
    assert_eq!(property, "muted");
    assert_eq!(reason, "invalid hex color \"12345\"");
    let (_, reason) = reason_of(parse_color("muted", "#zz0000").err().unwrap());
    assert_eq!(reason, "invalid hex color \"zz\"");
    let (_, reason) = reason_of(parse_color("muted", "#00000g00").err().unwrap());
    assert_eq!(reason, "invalid hex color \"0g\"");
    let (_, reason) = reason_of(invalid_color("error", "say \"hi\""));
    assert_eq!(reason, "invalid hex color \"say \\\"hi\\\"\"");
}

#[test]
fn alpha_is_read_before_the_other_bytes() {
    let (_, reason) = reason_of(parse_color("text", "zz0000qq").err().unwrap());
    assert_eq!(reason, "invalid hex color \"qq\"");
}

#[test]
fn bytes_are_hex_with_an_optional_plus() {
    assert_eq!(byte("p", "7f").ok(), Some(0x7f));
    assert_eq!(byte("p", "+f").ok(), Some(15));
    let (property, reason) = reason_of(byte("p", "100").err().unwrap());
    assert_eq!(property, "p");
    assert_eq!(reason, "invalid hex color \"100\"");
}

#[test]
fn slicing_through_a_character_is_detected() {
    assert!(color_cuts_character("aéabc"));
    assert!(!color_cuts_character("éabcd"));
    assert!(!color_cuts_character("#abc"));
    assert!(!color_cuts_character("#abcd"));
}

#[test]
fn style_colors_resolve_in_order_and_the_first_error_wins() {
    let mut colors = no_colors();
    colors.background = Some("#000".to_string());
    colors.accent = Some("#123456".to_string());
    let resolved = colors.resolve().ok().unwrap();
    assert!(resolved.background == Some(rgba(0, 0, 0, 255)));
    assert!(resolved.accent == Some(rgba(0x12, 0x34, 0x56, 255)));
    assert!(resolved.text.is_none());

    let mut broken = no_colors();
    broken.surface_error = Some("nope".to_string());
    broken.muted = Some("#12".to_string());
    assert!(!broken.cuts_character());
    let (property, reason) = reason_of(broken.resolve().err().unwrap());
    assert_eq!(property, "muted");
    assert_eq!(reason, "invalid hex color \"12\"");

    let mut cutting = no_colors();
    cutting.text = Some("aéabc".to_string());
    assert!(cutting.cuts_character());
    cutting.background = Some("bag".to_string());
    assert!(!cutting.cuts_character());
}

#[test]
fn config_error_messages() {
    let read = ConfigError::Read { path: "/c/config.ron".to_string(), reason: "denied".to_string() };
    assert_eq!(read.message(), "could not read /c/config.ron: denied");
    let parse = ConfigError::Parse { path: "/c/style.ron".to_string(), reason: "1:1".to_string() };
    assert_eq!(parse.message(), "could not parse /c/style.ron: 1:1");
    let invalid = ConfigError::InvalidStyle { property: "radius", reason: "must be finite".to_string() };
    assert_eq!(invalid.message(), "invalid style property radius: must be finite");
    let write = ConfigError::Write { path: "/c/style.ron".to_string(), reason: "read-only".to_string() };
    assert_eq!(write.message(), "could not write /c/style.ron: read-only");
    let _ = Config::default();
}

#[test]
fn app_directories_and_their_errors() {
    let dirs = AppDirectories::new("/home/u/.config/brunch".to_string(), "/home/u/.local/share/brunch".to_string());
    assert_eq!(dirs.config_dir(), "/home/u/.config/brunch");
    assert_eq!(dirs.data_dir(), "/home/u/.local/share/brunch");
    assert_eq!(dirs.history_path(), "/home/u/.local/share/brunch/history.json");
    assert_eq!(
        DirectoriesError::Config("denied".to_string()).message(),
        "could not create config directory: denied"
    );
    assert_eq!(
        DirectoriesError::Data("full".to_string()).message(),
        "could not create data directory: full"
    );
}
