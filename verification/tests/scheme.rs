use colortty::Color;
use colortty::ColorError;
use colortty::ColorScheme;
use colortty::plist::parse_real_byte;

fn color_entry(name: &str, red: &str, green: &str, blue: &str) -> String {
    format!(
        "<key>{}</key>\n<dict>\n<key>Blue Component</key>\n<real>{}</real>\n<key>Green Component</key>\n<real>{}</real>\n<key>Red Component</key>\n<real>{}</real>\n</dict>\n",
        name, blue, green, red
    )
}

fn dracula_iterm() -> String {
    let mut body = String::new();
    body.push_str(&color_entry("Ansi 0 Color", "0.0", "0.0", "0.0"));
    body.push_str(&color_entry("Ansi 1 Color", "1", "0.3352941176", "0.3352941176"));
    body.push_str(&color_entry("Ansi 2 Color", "0.3156862745", "0.9823529411", "0.4843137254"));
    body.push_str(&color_entry("Ansi 3 Color", "0.9470588235", "0.9823529411", "0.5509803921"));
    body.push_str(&color_entry("Ansi 4 Color", "0.7431372549", "0.5784313725", "0.9784313725"));
    body.push_str(&color_entry("Ansi 5 Color", "1", "0.4764705882", "0.7784313725"));
    body.push_str(&color_entry("Ansi 6 Color", "0.5470588235", "0.9156862745", "0.9941176470"));
    body.push_str(&color_entry("Ansi 7 Color", "0.7352941176", "0.7352941176", "0.7352941176"));
    body.push_str(&color_entry("Ansi 8 Color", "0.3352941176", "0.3352941176", "0.3352941176"));
    body.push_str(&color_entry("Ansi 9 Color", "1", "0.3352941176", "0.3352941176"));
    body.push_str(&color_entry("Ansi 10 Color", "0.3156862745", "0.9823529411", "0.4843137254"));
    body.push_str(&color_entry("Ansi 11 Color", "0.9470588235", "0.9823529411", "0.5509803921"));
    body.push_str(&color_entry("Ansi 12 Color", "0.7431372549", "0.5784313725", "0.9784313725"));
    body.push_str(&color_entry("Ansi 13 Color", "1", "0.4764705882", "0.7784313725"));
    body.push_str(&color_entry("Ansi 14 Color", "0.5470588235", "0.9156862745", "0.9941176470"));
    body.push_str(&color_entry("Ansi 15 Color", "1", "1", "1"));
    body.push_str(&color_entry("Background Color", "0.1196078431", "0.1235294117", "0.1588235294"));
    body.push_str(&color_entry("Foreground Color", "0.9745098039", "0.9745098039", "0.9509803921"));
    format!(
        "<?xml version=\"1.0\" encoding=\"UTF-8\"?>\n<plist version=\"1.0\">\n<dict>\n{}</dict>\n</plist>\n",
        body
    )
}

#[test]
fn convert_minttyrc() {
    let dracula_minttyrc = "ForegroundColour=248,248,242\n\
                            BackgroundColour=40,42,54\n\
                            Black=0,0,0\n\
                            Red=255,85,85\n\
                            Green=80,250,123\n\
                            Yellow=241,250,140\n\
                            Blue=202,169,250\n\
                            Magenta=255,121,198\n\
                            Cyan=139,233,253\n\
                            White=191,191,191\n\
                            BoldBlack=40,42,53\n\
                            BoldRed=255,110,103\n\
                            BoldGreen=90,247,142\n\
                            BoldYellow=244,249,157\n\
                            BoldBlue=202,169,250\n\
                            BoldMagenta=255,146,208\n\
                            BoldCyan=154,237,254\n\
                            BoldWhite=230,230,230\n";
    let dracula_alacritty = "colors:
  # Default colors
  primary:
    background: '0x282a36'
    foreground: '0xf8f8f2'

  # Normal colors
  normal:
    black:   '0x000000'
    red:     '0xff5555'
    green:   '0x50fa7b'
    yellow:  '0xf1fa8c'
    blue:    '0xcaa9fa'
    magenta: '0xff79c6'
    cyan:    '0x8be9fd'
    white:   '0xbfbfbf'

  # Bright colors
  bright:
    black:   '0x282a35'
    red:     '0xff6e67'
    green:   '0x5af78e'
    yellow:  '0xf4f99d'
    blue:    '0xcaa9fa'
    magenta: '0xff92d0'
    cyan:    '0x9aedfe'
    white:   '0xe6e6e6'
";
    let scheme = ColorScheme::from_minttyrc(dracula_minttyrc).unwrap();
    assert_eq!(scheme.to_yaml(), dracula_alacritty);
}

#[test]
fn convert_iterm() {
    let dracula_iterm = dracula_iterm();
    let dracula_alacritty = "colors:
  # Default colors
  primary:
    background: '0x1e1f28'
    foreground: '0xf8f8f2'

  # Normal colors
  normal:
    black:   '0x000000'
    red:     '0xff5555'
    green:   '0x50fa7b'
    yellow:  '0xf1fa8c'
    blue:    '0xbd93f9'
    magenta: '0xff79c6'
    cyan:    '0x8be9fd'
    white:   '0xbbbbbb'

  # Bright colors
  bright:
    black:   '0x555555'
    red:     '0xff5555'
    green:   '0x50fa7b'
    yellow:  '0xf1fa8c'
    blue:    '0xbd93f9'
    magenta: '0xff79c6'
    cyan:    '0x8be9fd'
    white:   '0xffffff'
";
    let scheme = ColorScheme::from_iterm(&dracula_iterm).unwrap();
    assert_eq!(scheme.to_yaml(), dracula_alacritty);
}

#[test]
fn mintty_rejects_unknown_name() {
    assert_eq!(
        ColorScheme::from_minttyrc("CursorColour=1,2,3"),
        Err(ColorError::InvalidFormat)
    );
}

#[test]
fn mintty_rejects_line_without_equals() {
    assert_eq!(
        ColorScheme::from_minttyrc("Red"),
        Err(ColorError::InvalidFormat)
    );
}

#[test]
fn mintty_rejects_bad_value() {
    assert!(ColorScheme::from_minttyrc("Red=1,2").is_err());
    assert!(ColorScheme::from_minttyrc("Red=x,2,3").is_err());
}

#[test]
fn mintty_empty_input_is_default() {
    assert_eq!(
        ColorScheme::from_minttyrc("").unwrap(),
        ColorScheme::default()
    );
}

#[test]
fn mintty_handles_crlf_lines() {
    let scheme = ColorScheme::from_minttyrc("Red=255,0,0\r\nBlue=0,0,255\r\n").unwrap();
    assert_eq!(scheme.red, Color { red: 255, green: 0, blue: 0 });
    assert_eq!(scheme.blue, Color { red: 0, green: 0, blue: 255 });
}

#[test]
fn mintty_keeps_bare_trailing_return() {
    // A final line no newline ends keeps its carriage return, which then
    // spoils the numeric field.
    assert!(ColorScheme::from_minttyrc("Red=1,2,3\r").is_err());
    assert!(ColorScheme::from_minttyrc("Red=1,2,3\r\n").is_ok());
}

#[test]
fn mintty_last_assignment_wins() {
    let scheme = ColorScheme::from_minttyrc("Red=1,2,3\nRed=4,5,6\n").unwrap();
    assert_eq!(scheme.red, Color { red: 4, green: 5, blue: 6 });
}

#[test]
fn iterm_ignores_unknown_top_level_key() {
    let body = color_entry("Cursor Color", "0.5", "0.5", "0.5");
    let text = format!(
        "<plist version=\"1.0\">\n<dict>\n{}</dict>\n</plist>\n",
        body
    );
    let scheme = ColorScheme::from_iterm(&text).unwrap();
    assert_eq!(scheme, ColorScheme::default());
}

#[test]
fn iterm_ignores_unknown_key_between_known_ones() {
    let mut body = String::new();
    body.push_str(&color_entry("Ansi 0 Color", "0.2", "0.2", "0.2"));
    body.push_str(&color_entry("Cursor Color", "0.5", "0.5", "0.5"));
    body.push_str(&color_entry("Ansi 1 Color", "1", "0", "0"));
    let text = format!(
        "<plist version=\"1.0\">\n<dict>\n{}</dict>\n</plist>\n",
        body
    );
    let scheme = ColorScheme::from_iterm(&text).unwrap();
    let mut expected = ColorScheme::default();
    expected.black = Color { red: 51, green: 51, blue: 51 };
    expected.red = Color { red: 255, green: 0, blue: 0 };
    assert_eq!(scheme, expected);
}

#[test]
fn iterm_truncates_scaled_components() {
    let body = color_entry("Ansi 4 Color", "0.7922", "0.663", "0.9804");
    let text = format!(
        "<plist version=\"1.0\">\n<dict>\n{}</dict>\n</plist>\n",
        body
    );
    let scheme = ColorScheme::from_iterm(&text).unwrap();
    assert_eq!(scheme.blue.to_hex(), "0xcaa9fa");
}

#[test]
fn iterm_rejects_long_bracket_run() {
    // a run of 256 right brackets anywhere in the text is refused up
    // front, before the document parser sees it
    let mut text = String::from("<plist version=\"1.0\"><dict></dict></plist>");
    for _ in 0..256 {
        text.push(93u8 as char);
    }
    assert_eq!(ColorScheme::from_iterm(&text), Err(ColorError::InvalidFormat));
}

#[test]
fn iterm_rejects_oversized_document() {
    let mut body = String::from("<plist version=\"1.0\"><dict>");
    for _ in 0..2100 {
        body.push_str("<key>k</key>");
    }
    body.push_str("</dict></plist>");
    assert_eq!(ColorScheme::from_iterm(&body), Err(ColorError::InvalidFormat));
}

#[test]
fn iterm_rejects_unparsable_text() {
    assert_eq!(
        ColorScheme::from_iterm("not a document"),
        Err(ColorError::InvalidFormat)
    );
}

#[test]
fn iterm_rejects_missing_dict() {
    assert_eq!(
        ColorScheme::from_iterm("<plist version=\"1.0\"></plist>"),
        Err(ColorError::InvalidFormat)
    );
}

#[test]
fn iterm_rejects_unknown_component_name() {
    let text = "<plist version=\"1.0\"><dict><key>Ansi 0 Color</key><dict><key>Alpha Component</key><real>1</real></dict></dict></plist>";
    assert_eq!(
        ColorScheme::from_iterm(text),
        Err(ColorError::InvalidFormat)
    );
}

#[test]
fn default_scheme_yaml_is_all_black() {
    let yaml = ColorScheme::default().to_yaml();
    let expected = "colors:
  # Default colors
  primary:
    background: '0x000000'
    foreground: '0x000000'

  # Normal colors
  normal:
    black:   '0x000000'
    red:     '0x000000'
    green:   '0x000000'
    yellow:  '0x000000'
    blue:    '0x000000'
    magenta: '0x000000'
    cyan:    '0x000000'
    white:   '0x000000'

  # Bright colors
  bright:
    black:   '0x000000'
    red:     '0x000000'
    green:   '0x000000'
    yellow:  '0x000000'
    blue:    '0x000000'
    magenta: '0x000000'
    cyan:    '0x000000'
    white:   '0x000000'
";
    assert_eq!(yaml, expected);
}

#[test]
fn real_values_scale_exactly() {
    assert_eq!(parse_real_byte("0"), Ok(0));
    assert_eq!(parse_real_byte("0.0"), Ok(0));
    assert_eq!(parse_real_byte("1"), Ok(255));
    assert_eq!(parse_real_byte("0.5"), Ok(127));
    assert_eq!(parse_real_byte("0.2"), Ok(51));
    assert_eq!(parse_real_byte("0.9999999"), Ok(254));
    assert_eq!(parse_real_byte("2.5"), Ok(255));
    assert_eq!(parse_real_byte(".5"), Ok(127));
    assert_eq!(parse_real_byte("5."), Ok(255));
}

#[test]
fn real_values_accept_signs_and_exponents() {
    assert_eq!(parse_real_byte("+0.5"), Ok(127));
    assert_eq!(parse_real_byte("-0.5"), Ok(0));
    assert_eq!(parse_real_byte("1e-2"), Ok(2));
    assert_eq!(parse_real_byte("25e-2"), Ok(63));
    assert_eq!(parse_real_byte("5E-1"), Ok(127));
    assert_eq!(parse_real_byte("0.5e0"), Ok(127));
    assert_eq!(parse_real_byte("1e2"), Ok(255));
    assert_eq!(parse_real_byte("4e-1000000000000000000000"), Ok(0));
}

#[test]
fn real_values_accept_keywords() {
    assert_eq!(parse_real_byte("inf"), Ok(255));
    assert_eq!(parse_real_byte("Infinity"), Ok(255));
    assert_eq!(parse_real_byte("-inf"), Ok(0));
    assert_eq!(parse_real_byte("NaN"), Ok(0));
}

#[test]
fn real_values_reject_bad_forms() {
    assert!(parse_real_byte("").is_err());
    assert!(parse_real_byte(".").is_err());
    assert!(parse_real_byte("1.2.3").is_err());
    assert!(parse_real_byte("+-1").is_err());
    assert!(parse_real_byte("1e").is_err());
    assert!(parse_real_byte("e5").is_err());
    assert!(parse_real_byte("1e2.5").is_err());
    assert!(parse_real_byte("nan0").is_err());
}
