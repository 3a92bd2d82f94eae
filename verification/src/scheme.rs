//! The normalized eighteen-slot color scheme: built by one of the two
//! source parsers, serialized into the fixed target layout.
use vstd::prelude::*;

use crate::color::Color;
use crate::color::ColorError;
use crate::color::spec_color_from_string;
use crate::color::spec_to_hex;
use crate::plist::XmlElement;
use crate::plist::count_named_children;
use crate::plist::named_children;
use crate::plist::parse_xml_document;
use crate::plist::plist_input_check;
use crate::plist::plist_input_ok;
use crate::plist::plist_root_of;
use crate::plist::spec_real_to_u8;
use crate::plist::spec_text;
use crate::plist::elem_text;
use crate::plist::nth_named_child;
use crate::plist::parse_real_byte;
use crate::text::split_on;
use crate::text::split_str;
use crate::text::str_eq;

verus! {

/// All channels zero: the value every slot starts from.
pub open spec fn spec_black() -> Color {
    Color { red: 0, green: 0, blue: 0 }
}

/// The normalized scheme: foreground, background, eight base ANSI colors
/// and their eight bright variants. Every slot always holds a color;
/// unset slots keep the default black.
#[derive(Debug, Clone, Copy, PartialEq, Eq, Structural)]
pub struct ColorScheme {
    pub foreground: Color,
    pub background: Color,
    pub black: Color,
    pub red: Color,
    pub green: Color,
    pub yellow: Color,
    pub blue: Color,
    pub magenta: Color,
    pub cyan: Color,
    pub white: Color,
    pub bright_black: Color,
    pub bright_red: Color,
    pub bright_green: Color,
    pub bright_yellow: Color,
    pub bright_blue: Color,
    pub bright_magenta: Color,
    pub bright_cyan: Color,
    pub bright_white: Color,
}

/// The scheme with every slot black.
pub open spec fn spec_default_scheme() -> ColorScheme {
    ColorScheme {
        foreground: spec_black(),
        background: spec_black(),
        black: spec_black(),
        red: spec_black(),
        green: spec_black(),
        yellow: spec_black(),
        blue: spec_black(),
        magenta: spec_black(),
        cyan: spec_black(),
        white: spec_black(),
        bright_black: spec_black(),
        bright_red: spec_black(),
        bright_green: spec_black(),
        bright_yellow: spec_black(),
        bright_blue: spec_black(),
        bright_magenta: spec_black(),
        bright_cyan: spec_black(),
        bright_white: spec_black(),
    }
}

impl Default for ColorScheme {
    /// Every slot defaults to black.
    fn default() -> (s: Self)
        ensures
            s == spec_default_scheme(),
    {
        let z = Color { red: 0, green: 0, blue: 0 };
        ColorScheme {
            foreground: z,
            background: z,
            black: z,
            red: z,
            green: z,
            yellow: z,
            blue: z,
            magenta: z,
            cyan: z,
            white: z,
            bright_black: z,
            bright_red: z,
            bright_green: z,
            bright_yellow: z,
            bright_blue: z,
            bright_magenta: z,
            bright_cyan: z,
            bright_white: z,
        }
    }
}

/// The eighteen names the key/value format recognizes.
pub open spec fn is_mintty_color_name(name: Seq<char>) -> bool {
    ||| name == "ForegroundColour"@
    ||| name == "BackgroundColour"@
    ||| name == "Black"@
    ||| name == "Red"@
    ||| name == "Green"@
    ||| name == "Yellow"@
    ||| name == "Blue"@
    ||| name == "Magenta"@
    ||| name == "Cyan"@
    ||| name == "White"@
    ||| name == "BoldBlack"@
    ||| name == "BoldRed"@
    ||| name == "BoldGreen"@
    ||| name == "BoldYellow"@
    ||| name == "BoldBlue"@
    ||| name == "BoldMagenta"@
    ||| name == "BoldCyan"@
    ||| name == "BoldWhite"@
}

/// The slot a recognized key/value name assigns, or nothing for an
/// unrecognized name.
pub open spec fn apply_mintty_name(sch: ColorScheme, name: Seq<char>, c: Color) -> Option<
    ColorScheme,
> {
    if name == "ForegroundColour"@ {
        Some(ColorScheme { foreground: c, ..sch })
    } else if name == "BackgroundColour"@ {
        Some(ColorScheme { background: c, ..sch })
    } else if name == "Black"@ {
        Some(ColorScheme { black: c, ..sch })
    } else if name == "Red"@ {
        Some(ColorScheme { red: c, ..sch })
    } else if name == "Green"@ {
        Some(ColorScheme { green: c, ..sch })
    } else if name == "Yellow"@ {
        Some(ColorScheme { yellow: c, ..sch })
    } else if name == "Blue"@ {
        Some(ColorScheme { blue: c, ..sch })
    } else if name == "Magenta"@ {
        Some(ColorScheme { magenta: c, ..sch })
    } else if name == "Cyan"@ {
        Some(ColorScheme { cyan: c, ..sch })
    } else if name == "White"@ {
        Some(ColorScheme { white: c, ..sch })
    } else if name == "BoldBlack"@ {
        Some(ColorScheme { bright_black: c, ..sch })
    } else if name == "BoldRed"@ {
        Some(ColorScheme { bright_red: c, ..sch })
    } else if name == "BoldGreen"@ {
        Some(ColorScheme { bright_green: c, ..sch })
    } else if name == "BoldYellow"@ {
        Some(ColorScheme { bright_yellow: c, ..sch })
    } else if name == "BoldBlue"@ {
        Some(ColorScheme { bright_blue: c, ..sch })
    } else if name == "BoldMagenta"@ {
        Some(ColorScheme { bright_magenta: c, ..sch })
    } else if name == "BoldCyan"@ {
        Some(ColorScheme { bright_cyan: c, ..sch })
    } else if name == "BoldWhite"@ {
        Some(ColorScheme { bright_white: c, ..sch })
    } else {
        None
    }
}

/// What one `Name=Value` line does to the scheme: exactly one `=`, a
/// valid color value, and a recognized name; anything else is fatal.
pub open spec fn spec_process_line(sch: ColorScheme, line: Seq<char>) -> Result<
    ColorScheme,
    ColorError,
> {
    let parts = split_on(line, '=');
    if parts.len() != 2 {
        Err(ColorError::InvalidFormat)
    } else {
        match spec_color_from_string(parts[1]) {
            Err(e) => Err(e),
            Ok(c) => match apply_mintty_name(sch, parts[0], c) {
                Some(s2) => Ok(s2),
                None => Err(ColorError::InvalidFormat),
            },
        }
    }
}

/// Folds the lines over the scheme in order; the first failing line
/// aborts the whole parse.
pub open spec fn spec_process_lines(sch: ColorScheme, lines: Seq<Seq<char>>) -> Result<
    ColorScheme,
    ColorError,
>
    decreases lines.len(),
{
    if lines.len() == 0 {
        Ok(sch)
    } else {
        match spec_process_line(sch, lines[0]) {
            Err(e) => Err(e),
            Ok(s2) => spec_process_lines(s2, lines.drop_first()),
        }
    }
}

/// One trailing carriage return is stripped from a line.
pub open spec fn strip_cr(l: Seq<char>) -> Seq<char> {
    if l.len() > 0 && l.last() == '\r' {
        l.drop_last()
    } else {
        l
    }
}

/// The lines of the text: the fields between newlines, with a final
/// empty field dropped, and one trailing carriage return stripped from
/// every newline-terminated line. A final line that no newline ends
/// keeps a bare trailing carriage return.
pub open spec fn spec_lines(s: Seq<char>) -> Seq<Seq<char>> {
    let raw = split_on(s, '\n');
    if raw.last().len() == 0 {
        raw.drop_last().map_values(|l: Seq<char>| strip_cr(l))
    } else {
        raw.drop_last().map_values(|l: Seq<char>| strip_cr(l)).push(raw.last())
    }
}

/// What parsing the whole key/value text yields.
pub open spec fn spec_from_minttyrc(s: Seq<char>) -> Result<ColorScheme, ColorError> {
    spec_process_lines(spec_default_scheme(), spec_lines(s))
}

impl ColorScheme {
    /// Parses the key/value text format: one `Name=Value` assignment per
    /// line, eighteen recognized names, values of three comma-separated
    /// decimal 0-255 fields. The first bad line aborts the parse.
    pub fn from_minttyrc(content: &str) -> (r: Result<Self, ColorError>)
        ensures
            r == spec_from_minttyrc(content@),
    {
        let ghost all_lines = spec_lines(content@);
        let mut scheme = ColorScheme::default();
        let mut raw = split_str(content, '\n');
        proof {
            crate::text::lemma_split_on_nonempty(content@, '\n');
            assert(forall|k: int|
                0 <= k < raw@.len() ==> raw@.map_values(|p: String| p@)[k] == (
                #[trigger] raw@[k])@);
        }
        let nraw = raw.len();
        let mut ends_nl = false;
        if raw[nraw - 1].as_str().unicode_len() == 0 {
            raw.pop();
            ends_nl = true;
        }
        proof {
            assert(forall|k: int|
                0 <= k < raw@.len() ==> raw@.map_values(|p: String| p@)[k] == (
                #[trigger] raw@[k])@);
            assert forall|k: int| 0 <= k < raw@.len() implies #[trigger] all_lines[k] == (
            if ends_nl || k < raw@.len() - 1 {
                strip_cr(raw@[k]@)
            } else {
                raw@[k]@
            }) by {
                let kept = split_on(content@, '\n').drop_last();
                if k < kept.len() {
                    assert(kept.map_values(|l: Seq<char>| strip_cr(l))[k] == strip_cr(kept[k]));
                }
            }
            assert(all_lines.len() == raw@.len());
        }
        let n = raw.len();
        let mut idx: usize = 0;
        proof {
            assert(all_lines.skip(0) =~= all_lines);
        }
        while idx < n
            invariant
                n == raw@.len(),
                idx <= n,
                all_lines.len() == n,
                forall|k: int|
                    0 <= k < n ==> #[trigger] all_lines[k] == (if ends_nl || k < n - 1 {
                        strip_cr(raw@[k]@)
                    } else {
                        raw@[k]@
                    }),
                spec_from_minttyrc(content@) == spec_process_lines(
                    scheme,
                    all_lines.skip(idx as int),
                ),
            decreases n - idx,
        {
            let line_str: &String = &raw[idx];
            let llen = line_str.as_str().unicode_len();
            let terminated = ends_nl || idx + 1 < n;
            let line: &str = if terminated && llen > 0 && line_str.as_str().get_char(llen - 1)
                == '\r' {
                proof {
                    assert(line_str@.drop_last() =~= line_str@.subrange(0, llen - 1));
                }
                line_str.as_str().substring_char(0, llen - 1)
            } else {
                line_str.as_str()
            };
            proof {
                assert(line@ == all_lines[idx as int]);
                assert(all_lines.skip(idx as int)[0] == all_lines[idx as int]);
                assert(all_lines.skip(idx as int).drop_first() =~= all_lines.skip(idx + 1));
            }
            let parts = split_str(line, '=');
            proof {
                assert(forall|k: int|
                    0 <= k < parts@.len() ==> parts@.map_values(|p: String| p@)[k] == (
                    #[trigger] parts@[k])@);
            }
            if parts.len() != 2 {
                return Err(ColorError::InvalidFormat);
            }
            let c = match Color::from_string(parts[1].as_str()) {
                Ok(c) => c,
                Err(e) => {
                    return Err(e);
                },
            };
            let name = parts[0].as_str();
            if str_eq(name, "ForegroundColour") {
                scheme.foreground = c;
            } else if str_eq(name, "BackgroundColour") {
                scheme.background = c;
            } else if str_eq(name, "Black") {
                scheme.black = c;
            } else if str_eq(name, "Red") {
                scheme.red = c;
            } else if str_eq(name, "Green") {
                scheme.green = c;
            } else if str_eq(name, "Yellow") {
                scheme.yellow = c;
            } else if str_eq(name, "Blue") {
                scheme.blue = c;
            } else if str_eq(name, "Magenta") {
                scheme.magenta = c;
            } else if str_eq(name, "Cyan") {
                scheme.cyan = c;
            } else if str_eq(name, "White") {
                scheme.white = c;
            } else if str_eq(name, "BoldBlack") {
                scheme.bright_black = c;
            } else if str_eq(name, "BoldRed") {
                scheme.bright_red = c;
            } else if str_eq(name, "BoldGreen") {
                scheme.bright_green = c;
            } else if str_eq(name, "BoldYellow") {
                scheme.bright_yellow = c;
            } else if str_eq(name, "BoldBlue") {
                scheme.bright_blue = c;
            } else if str_eq(name, "BoldMagenta") {
                scheme.bright_magenta = c;
            } else if str_eq(name, "BoldCyan") {
                scheme.bright_cyan = c;
            } else if str_eq(name, "BoldWhite") {
                scheme.bright_white = c;
            } else {
                return Err(ColorError::InvalidFormat);
            }
            idx += 1;
        }
        proof {
            assert(all_lines.skip(n as int) =~= Seq::<Seq<char>>::empty());
        }
        Ok(scheme)
    }
}

/// The eighteen top-level key names the tree format recognizes.
pub open spec fn is_iterm_color_name(name: Seq<char>) -> bool {
    ||| name == "Ansi 0 Color"@
    ||| name == "Ansi 1 Color"@
    ||| name == "Ansi 2 Color"@
    ||| name == "Ansi 3 Color"@
    ||| name == "Ansi 4 Color"@
    ||| name == "Ansi 5 Color"@
    ||| name == "Ansi 6 Color"@
    ||| name == "Ansi 7 Color"@
    ||| name == "Ansi 8 Color"@
    ||| name == "Ansi 9 Color"@
    ||| name == "Ansi 10 Color"@
    ||| name == "Ansi 11 Color"@
    ||| name == "Ansi 12 Color"@
    ||| name == "Ansi 13 Color"@
    ||| name == "Ansi 14 Color"@
    ||| name == "Ansi 15 Color"@
    ||| name == "Background Color"@
    ||| name == "Foreground Color"@
}

/// The slot a recognized tree-format key assigns; an unrecognized key
/// leaves the scheme unchanged.
pub open spec fn apply_iterm_name(sch: ColorScheme, name: Seq<char>, c: Color) -> ColorScheme {
    if name == "Ansi 0 Color"@ {
        ColorScheme { black: c, ..sch }
    } else if name == "Ansi 1 Color"@ {
        ColorScheme { red: c, ..sch }
    } else if name == "Ansi 2 Color"@ {
        ColorScheme { green: c, ..sch }
    } else if name == "Ansi 3 Color"@ {
        ColorScheme { yellow: c, ..sch }
    } else if name == "Ansi 4 Color"@ {
        ColorScheme { blue: c, ..sch }
    } else if name == "Ansi 5 Color"@ {
        ColorScheme { magenta: c, ..sch }
    } else if name == "Ansi 6 Color"@ {
        ColorScheme { cyan: c, ..sch }
    } else if name == "Ansi 7 Color"@ {
        ColorScheme { white: c, ..sch }
    } else if name == "Ansi 8 Color"@ {
        ColorScheme { bright_black: c, ..sch }
    } else if name == "Ansi 9 Color"@ {
        ColorScheme { bright_red: c, ..sch }
    } else if name == "Ansi 10 Color"@ {
        ColorScheme { bright_green: c, ..sch }
    } else if name == "Ansi 11 Color"@ {
        ColorScheme { bright_yellow: c, ..sch }
    } else if name == "Ansi 12 Color"@ {
        ColorScheme { bright_blue: c, ..sch }
    } else if name == "Ansi 13 Color"@ {
        ColorScheme { bright_magenta: c, ..sch }
    } else if name == "Ansi 14 Color"@ {
        ColorScheme { bright_cyan: c, ..sch }
    } else if name == "Ansi 15 Color"@ {
        ColorScheme { bright_white: c, ..sch }
    } else if name == "Background Color"@ {
        ColorScheme { background: c, ..sch }
    } else if name == "Foreground Color"@ {
        ColorScheme { foreground: c, ..sch }
    } else {
        sch
    }
}

/// The channel a component name selects; any other name is fatal.
pub open spec fn spec_component_step(c: Color, name: Seq<char>, v: u8) -> Option<Color> {
    if name == "Red Component"@ {
        Some(Color { red: v, ..c })
    } else if name == "Green Component"@ {
        Some(Color { green: v, ..c })
    } else if name == "Blue Component"@ {
        Some(Color { blue: v, ..c })
    } else {
        None
    }
}

/// Folds one color container's component pairs over a color, starting
/// from black: each pair names a channel and gives its scaled value.
pub open spec fn spec_build_color(
    ckeys: Seq<XmlElement>,
    cvals: Seq<XmlElement>,
    c: Color,
) -> Result<Color, ColorError>
    decreases ckeys.len(),
{
    if ckeys.len() == 0 || cvals.len() == 0 {
        Ok(c)
    } else {
        match spec_text(ckeys[0]) {
            None => Err(ColorError::InvalidFormat),
            Some(name) => match spec_text(cvals[0]) {
                None => Err(ColorError::InvalidFormat),
                Some(vtext) => match spec_real_to_u8(vtext) {
                    Err(e) => Err(e),
                    Ok(v) => match spec_component_step(c, name, v) {
                        None => Err(ColorError::InvalidFormat),
                        Some(c2) => spec_build_color(
                            ckeys.drop_first(),
                            cvals.drop_first(),
                            c2,
                        ),
                    },
                },
            },
        }
    }
}

/// Folds the paired key and container elements over the scheme: each
/// key's text selects a slot for the color its container builds, and
/// unrecognized keys change nothing.
pub open spec fn spec_process_pairs(
    keys: Seq<XmlElement>,
    vals: Seq<XmlElement>,
    sch: ColorScheme,
) -> Result<ColorScheme, ColorError>
    decreases keys.len(),
{
    if keys.len() == 0 || vals.len() == 0 {
        Ok(sch)
    } else {
        match spec_text(keys[0]) {
            None => Err(ColorError::InvalidFormat),
            Some(name) => match spec_build_color(
                named_children(vals[0].children@, "key"@),
                named_children(vals[0].children@, "real"@),
                spec_black(),
            ) {
                Err(e) => Err(e),
                Ok(c) => spec_process_pairs(
                    keys.drop_first(),
                    vals.drop_first(),
                    apply_iterm_name(sch, name, c),
                ),
            },
        }
    }
}

/// What building a scheme from a parsed document tree yields: the first
/// nested container's key elements paired positionally with its
/// container elements.
pub open spec fn spec_scheme_from_plist(root: XmlElement) -> Result<ColorScheme, ColorError> {
    let dicts = named_children(root.children@, "dict"@);
    if dicts.len() == 0 {
        Err(ColorError::InvalidFormat)
    } else {
        spec_process_pairs(
            named_children(dicts[0].children@, "key"@),
            named_children(dicts[0].children@, "dict"@),
            spec_default_scheme(),
        )
    }
}

/// What parsing the tree-format text yields: whatever tree the document
/// parser produces, processed pair by pair. Text that does not parse is
/// structurally invalid, as is text beyond the machine bounds the
/// parser is trusted under (see `plist_input_ok`).
pub open spec fn spec_from_iterm(s: Seq<char>) -> Result<ColorScheme, ColorError> {
    if !plist_input_ok(s) {
        Err(ColorError::InvalidFormat)
    } else {
        match plist_root_of(s) {
            None => Err(ColorError::InvalidFormat),
            Some(root) => spec_scheme_from_plist(root),
        }
    }
}

impl ColorScheme {
    /// Builds a scheme from an already-parsed document tree.
    #[verifier::rlimit(30)]
    pub fn scheme_from_plist(root: &XmlElement) -> (r: Result<Self, ColorError>)
        ensures
            r == spec_scheme_from_plist(*root),
    {
        let root_dict = match nth_named_child(&root.children, "dict", 0) {
            Some(d) => d,
            None => {
                return Err(ColorError::InvalidFormat);
            },
        };
        let ghost keys = named_children(root_dict.children@, "key"@);
        let ghost vals = named_children(root_dict.children@, "dict"@);
        let klen = count_named_children(&root_dict.children, "key");
        let vlen = count_named_children(&root_dict.children, "dict");
        let n = if klen < vlen {
            klen
        } else {
            vlen
        };
        let mut scheme = ColorScheme::default();
        let mut k: usize = 0;
        proof {
            assert(keys.skip(0) =~= keys);
            assert(vals.skip(0) =~= vals);
        }
        while k < n
            invariant
                keys == named_children(root_dict.children@, "key"@),
                vals == named_children(root_dict.children@, "dict"@),
                klen == keys.len(),
                vlen == vals.len(),
                n == if klen < vlen {
                    klen
                } else {
                    vlen
                },
                k <= n,
                spec_scheme_from_plist(*root) == spec_process_pairs(
                    keys.skip(k as int),
                    vals.skip(k as int),
                    scheme,
                ),
            decreases n - k,
        {
            proof {
                assert(keys.skip(k as int)[0] == keys[k as int]);
                assert(vals.skip(k as int)[0] == vals[k as int]);
                assert(keys.skip(k as int).drop_first() =~= keys.skip(k + 1));
                assert(vals.skip(k as int).drop_first() =~= vals.skip(k + 1));
            }
            let key_e = match nth_named_child(&root_dict.children, "key", k) {
                Some(e) => e,
                None => {
                    proof {
                        assert(false);
                    }
                    return Err(ColorError::InvalidFormat);
                },
            };
            let val_e = match nth_named_child(&root_dict.children, "dict", k) {
                Some(e) => e,
                None => {
                    proof {
                        assert(false);
                    }
                    return Err(ColorError::InvalidFormat);
                },
            };
            let name_s = match elem_text(key_e) {
                Some(s) => s,
                None => {
                    return Err(ColorError::InvalidFormat);
                },
            };
            let ghost ckeys = named_children(val_e.children@, "key"@);
            let ghost cvals = named_children(val_e.children@, "real"@);
            let cklen = count_named_children(&val_e.children, "key");
            let cvlen = count_named_children(&val_e.children, "real");
            let m = if cklen < cvlen {
                cklen
            } else {
                cvlen
            };
            let mut color = Color { red: 0, green: 0, blue: 0 };
            let mut j: usize = 0;
            proof {
                assert(ckeys.skip(0) =~= ckeys);
                assert(cvals.skip(0) =~= cvals);
            }
            while j < m
                invariant
                    cklen == ckeys.len(),
                    cvlen == cvals.len(),
                    m == if cklen < cvlen {
                        cklen
                    } else {
                        cvlen
                    },
                    j <= m,
                    ckeys == named_children(val_e.children@, "key"@),
                    cvals == named_children(val_e.children@, "real"@),
                    spec_build_color(ckeys, cvals, spec_black()) == spec_build_color(
                        ckeys.skip(j as int),
                        cvals.skip(j as int),
                        color,
                    ),
                    spec_scheme_from_plist(*root) == spec_process_pairs(
                        keys.skip(k as int),
                        vals.skip(k as int),
                        scheme,
                    ),
                    keys.skip(k as int).len() > 0,
                    vals.skip(k as int).len() > 0,
                    keys.skip(k as int)[0] == keys[k as int],
                    vals.skip(k as int)[0] == vals[k as int],
                    *val_e == vals[k as int],
                    spec_text(keys[k as int]) == Some(name_s@),
                decreases m - j,
            {
                proof {
                    assert(ckeys.skip(j as int)[0] == ckeys[j as int]);
                    assert(cvals.skip(j as int)[0] == cvals[j as int]);
                    assert(ckeys.skip(j as int).drop_first() =~= ckeys.skip(j + 1));
                    assert(cvals.skip(j as int).drop_first() =~= cvals.skip(j + 1));
                }
                let ckey_e = match nth_named_child(&val_e.children, "key", j) {
                    Some(e) => e,
                    None => {
                        proof {
                            assert(false);
                        }
                        return Err(ColorError::InvalidFormat);
                    },
                };
                let cval_e = match nth_named_child(&val_e.children, "real", j) {
                    Some(e) => e,
                    None => {
                        proof {
                            assert(false);
                        }
                        return Err(ColorError::InvalidFormat);
                    },
                };
                let cname = match elem_text(ckey_e) {
                    Some(s) => s,
                    None => {
                        return Err(ColorError::InvalidFormat);
                    },
                };
                let vtext = match elem_text(cval_e) {
                    Some(s) => s,
                    None => {
                        return Err(ColorError::InvalidFormat);
                    },
                };
                let v = match parse_real_byte(vtext.as_str()) {
                    Ok(v) => v,
                    Err(e) => {
                        return Err(e);
                    },
                };
                if str_eq(cname.as_str(), "Red Component") {
                    color.red = v;
                } else if str_eq(cname.as_str(), "Green Component") {
                    color.green = v;
                } else if str_eq(cname.as_str(), "Blue Component") {
                    color.blue = v;
                } else {
                    return Err(ColorError::InvalidFormat);
                }
                j += 1;
            }
            proof {
                assert(spec_build_color(ckeys.skip(m as int), cvals.skip(m as int), color)
                    == Ok::<Color, ColorError>(color));
            }
            if str_eq(name_s.as_str(), "Ansi 0 Color") {
                scheme.black = color;
            } else if str_eq(name_s.as_str(), "Ansi 1 Color") {
                scheme.red = color;
            } else if str_eq(name_s.as_str(), "Ansi 2 Color") {
                scheme.green = color;
            } else if str_eq(name_s.as_str(), "Ansi 3 Color") {
                scheme.yellow = color;
            } else if str_eq(name_s.as_str(), "Ansi 4 Color") {
                scheme.blue = color;
            } else if str_eq(name_s.as_str(), "Ansi 5 Color") {
                scheme.magenta = color;
            } else if str_eq(name_s.as_str(), "Ansi 6 Color") {
                scheme.cyan = color;
            } else if str_eq(name_s.as_str(), "Ansi 7 Color") {
                scheme.white = color;
            } else if str_eq(name_s.as_str(), "Ansi 8 Color") {
                scheme.bright_black = color;
            } else if str_eq(name_s.as_str(), "Ansi 9 Color") {
                scheme.bright_red = color;
            } else if str_eq(name_s.as_str(), "Ansi 10 Color") {
                scheme.bright_green = color;
            } else if str_eq(name_s.as_str(), "Ansi 11 Color") {
                scheme.bright_yellow = color;
            } else if str_eq(name_s.as_str(), "Ansi 12 Color") {
                scheme.bright_blue = color;
            } else if str_eq(name_s.as_str(), "Ansi 13 Color") {
                scheme.bright_magenta = color;
            } else if str_eq(name_s.as_str(), "Ansi 14 Color") {
                scheme.bright_cyan = color;
            } else if str_eq(name_s.as_str(), "Ansi 15 Color") {
                scheme.bright_white = color;
            } else if str_eq(name_s.as_str(), "Background Color") {
                scheme.background = color;
            } else if str_eq(name_s.as_str(), "Foreground Color") {
                scheme.foreground = color;
            }
            k += 1;
        }
        proof {
            assert(spec_process_pairs(keys.skip(n as int), vals.skip(n as int), scheme)
                == Ok::<ColorScheme, ColorError>(scheme));
        }
        Ok(scheme)
    }

    /// Parses the tree-format text: the document is parsed into a tree
    /// and its first nested container is read as positional key and
    /// container pairs. A document beyond the parser's machine bounds
    /// is rejected as invalid up front.
    pub fn from_iterm(content: &str) -> (r: Result<Self, ColorError>)
        ensures
            r == spec_from_iterm(content@),
    {
        if !plist_input_check(content) {
            return Err(ColorError::InvalidFormat);
        }
        match parse_xml_document(content) {
            None => Err(ColorError::InvalidFormat),
            Some(root) => Self::scheme_from_plist(&root),
        }
    }
}

/// The fixed serialized layout: three labeled sections, background and
/// foreground first, then the eight base colors and the eight bright
/// colors in the fixed order, each rendered in hexadecimal and quoted.
pub open spec fn spec_to_yaml(s: ColorScheme) -> Seq<char> {
    "colors:\n  # Default colors\n  primary:\n    background: '"@ + spec_to_hex(s.background)
        + "'\n    foreground: '"@ + spec_to_hex(s.foreground)
        + "'\n\n  # Normal colors\n  normal:\n    black:   '"@ + spec_to_hex(s.black)
        + "'\n    red:     '"@ + spec_to_hex(s.red) + "'\n    green:   '"@ + spec_to_hex(s.green)
        + "'\n    yellow:  '"@ + spec_to_hex(s.yellow) + "'\n    blue:    '"@ + spec_to_hex(s.blue)
        + "'\n    magenta: '"@ + spec_to_hex(s.magenta) + "'\n    cyan:    '"@ + spec_to_hex(
        s.cyan,
    ) + "'\n    white:   '"@ + spec_to_hex(s.white)
        + "'\n\n  # Bright colors\n  bright:\n    black:   '"@ + spec_to_hex(s.bright_black)
        + "'\n    red:     '"@ + spec_to_hex(s.bright_red) + "'\n    green:   '"@ + spec_to_hex(
        s.bright_green,
    ) + "'\n    yellow:  '"@ + spec_to_hex(s.bright_yellow) + "'\n    blue:    '"@ + spec_to_hex(
        s.bright_blue,
    ) + "'\n    magenta: '"@ + spec_to_hex(s.bright_magenta) + "'\n    cyan:    '"@ + spec_to_hex(
        s.bright_cyan,
    ) + "'\n    white:   '"@ + spec_to_hex(s.bright_white) + "'\n"@
}

impl ColorScheme {
    /// Serializes the scheme into the fixed target layout. Total and
    /// deterministic: the output is a function of the slot values alone.
    pub fn to_yaml(&self) -> (r: String)
        ensures
            r@ == spec_to_yaml(*self),
    {
        let mut out = String::from_str("colors:\n  # Default colors\n  primary:\n    background: '");
        out.append(self.background.to_hex().as_str());
        out.append("'\n    foreground: '");
        out.append(self.foreground.to_hex().as_str());
        out.append("'\n\n  # Normal colors\n  normal:\n    black:   '");
        out.append(self.black.to_hex().as_str());
        out.append("'\n    red:     '");
        out.append(self.red.to_hex().as_str());
        out.append("'\n    green:   '");
        out.append(self.green.to_hex().as_str());
        out.append("'\n    yellow:  '");
        out.append(self.yellow.to_hex().as_str());
        out.append("'\n    blue:    '");
        out.append(self.blue.to_hex().as_str());
        out.append("'\n    magenta: '");
        out.append(self.magenta.to_hex().as_str());
        out.append("'\n    cyan:    '");
        out.append(self.cyan.to_hex().as_str());
        out.append("'\n    white:   '");
        out.append(self.white.to_hex().as_str());
        out.append("'\n\n  # Bright colors\n  bright:\n    black:   '");
        out.append(self.bright_black.to_hex().as_str());
        out.append("'\n    red:     '");
        out.append(self.bright_red.to_hex().as_str());
        out.append("'\n    green:   '");
        out.append(self.bright_green.to_hex().as_str());
        out.append("'\n    yellow:  '");
        out.append(self.bright_yellow.to_hex().as_str());
        out.append("'\n    blue:    '");
        out.append(self.bright_blue.to_hex().as_str());
        out.append("'\n    magenta: '");
        out.append(self.bright_magenta.to_hex().as_str());
        out.append("'\n    cyan:    '");
        out.append(self.bright_cyan.to_hex().as_str());
        out.append("'\n    white:   '");
        out.append(self.bright_white.to_hex().as_str());
        out.append("'\n");
        out
    }
}

/// Law: in the tree format, a leading pair whose key text is not one of
/// the eighteen recognized color names raises no error and alters no
/// slot, provided its own components build; processing simply moves on
/// to the remaining pairs.
pub proof fn lemma_iterm_unknown_key_skipped(
    keys: Seq<XmlElement>,
    vals: Seq<XmlElement>,
    sch: ColorScheme,
)
    requires
        keys.len() > 0,
        vals.len() > 0,
        spec_text(keys[0]) is Some,
        !is_iterm_color_name(spec_text(keys[0]).unwrap()),
        spec_build_color(
            named_children(vals[0].children@, "key"@),
            named_children(vals[0].children@, "real"@),
            spec_black(),
        ) is Ok,
    ensures
        spec_process_pairs(keys, vals, sch) == spec_process_pairs(
            keys.drop_first(),
            vals.drop_first(),
            sch,
        ),
{
}

/// Law: in the tree format, a pair whose key text is not one of the
/// eighteen recognized color names raises no error and alters no slot,
/// wherever among the pairs it stands: processing equals that of the
/// same pairs with the unrecognized pair removed, provided its own
/// components build.
pub proof fn lemma_iterm_unknown_key_removed(
    keys: Seq<XmlElement>,
    vals: Seq<XmlElement>,
    sch: ColorScheme,
    i: int,
)
    requires
        0 <= i < keys.len(),
        i < vals.len(),
        spec_text(keys[i]) is Some,
        !is_iterm_color_name(spec_text(keys[i]).unwrap()),
        spec_build_color(
            named_children(vals[i].children@, "key"@),
            named_children(vals[i].children@, "real"@),
            spec_black(),
        ) is Ok,
    ensures
        spec_process_pairs(keys, vals, sch) == spec_process_pairs(
            keys.remove(i),
            vals.remove(i),
            sch,
        ),
    decreases i,
{
    if i == 0 {
        lemma_iterm_unknown_key_skipped(keys, vals, sch);
        assert(keys.remove(0) =~= keys.drop_first());
        assert(vals.remove(0) =~= vals.drop_first());
    } else {
        let rk = keys.remove(i);
        let rv = vals.remove(i);
        assert(rk[0] == keys[0]);
        assert(rv[0] == vals[0]);
        match spec_text(keys[0]) {
            None => {},
            Some(name) => {
                let bc = spec_build_color(
                    named_children(vals[0].children@, "key"@),
                    named_children(vals[0].children@, "real"@),
                    spec_black(),
                );
                match bc {
                    Err(_) => {},
                    Ok(c) => {
                        let sch2 = apply_iterm_name(sch, name, c);
                        assert(keys.drop_first()[i - 1] == keys[i]);
                        assert(vals.drop_first()[i - 1] == vals[i]);
                        lemma_iterm_unknown_key_removed(
                            keys.drop_first(),
                            vals.drop_first(),
                            sch2,
                            i - 1,
                        );
                        assert(rk.drop_first() =~= keys.drop_first().remove(i - 1));
                        assert(rv.drop_first() =~= vals.drop_first().remove(i - 1));
                    },
                }
            },
        }
    }
}

/// Law: a `Name=Value` line whose value parses but whose name is not one
/// of the eighteen recognized key/value names is rejected as invalid.
pub proof fn lemma_mintty_unknown_key_rejected(sch: ColorScheme, line: Seq<char>)
    requires
        split_on(line, '=').len() == 2,
        spec_color_from_string(split_on(line, '=')[1]) is Ok,
        !is_mintty_color_name(split_on(line, '=')[0]),
    ensures
        spec_process_line(sch, line) == Err::<ColorScheme, ColorError>(ColorError::InvalidFormat),
{
}

/// Law: when every line splits into a name and a parsable value, one
/// unrecognized name anywhere makes the whole key/value parse fail with
/// `InvalidFormat` — unlike the tree format, where such a key is
/// silently skipped.
pub proof fn lemma_mintty_unknown_key_fatal(sch: ColorScheme, lines: Seq<Seq<char>>, k: int)
    requires
        0 <= k < lines.len(),
        forall|j: int| 0 <= j < lines.len() ==> (#[trigger] split_on(lines[j], '=')).len() == 2,
        forall|j: int|
            0 <= j < lines.len() ==> spec_color_from_string(
                (#[trigger] split_on(lines[j], '='))[1],
            ) is Ok,
        !is_mintty_color_name(split_on(lines[k], '=')[0]),
    ensures
        spec_process_lines(sch, lines) == Err::<ColorScheme, ColorError>(ColorError::InvalidFormat),
    decreases k,
{
    if k == 0 {
        lemma_mintty_unknown_key_rejected(sch, lines[0]);
    } else {
        match spec_process_line(sch, lines[0]) {
            Err(_) => {},
            Ok(s2) => {
                assert forall|j: int|
                    0 <= j < lines.drop_first().len() implies (#[trigger] split_on(
                    lines.drop_first()[j],
                    '=',
                )).len() == 2 && spec_color_from_string(
                    split_on(lines.drop_first()[j], '=')[1],
                ) is Ok by {
                    assert(lines.drop_first()[j] == lines[j + 1]);
                }
                assert(lines.drop_first()[k - 1] == lines[k]);
                lemma_mintty_unknown_key_fatal(s2, lines.drop_first(), k - 1);
            },
        }
    }
}

} // verus!
