use colortty::ColorSchemeFormat;

#[test]
fn format_from_string_iterm() {
    assert_eq!(
        ColorSchemeFormat::from_string("iterm"),
        Some(ColorSchemeFormat::ITerm)
    );
}

#[test]
fn format_from_string_mintty() {
    assert_eq!(
        ColorSchemeFormat::from_string("mintty"),
        Some(ColorSchemeFormat::Mintty)
    );
}

#[test]
fn format_from_string_unrecognized() {
    assert_eq!(ColorSchemeFormat::from_string("iTerm"), None);
    assert_eq!(ColorSchemeFormat::from_string(""), None);
}

#[test]
fn format_from_filename_iterm() {
    assert_eq!(
        ColorSchemeFormat::from_filename("schemes/Dracula.itermcolors"),
        Some(ColorSchemeFormat::ITerm)
    );
}

#[test]
fn format_from_filename_mintty() {
    assert_eq!(
        ColorSchemeFormat::from_filename("Dracula.minttyrc"),
        Some(ColorSchemeFormat::Mintty)
    );
}

#[test]
fn format_from_filename_unrecognized() {
    assert_eq!(ColorSchemeFormat::from_filename("Dracula.txt"), None);
}
