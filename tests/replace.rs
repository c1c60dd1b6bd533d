use colorutil::color::{parse_format, parse_params, Arithmetic, Color, Format, Model};
use colorutil::config::{
    autoload_name, AutoLoad, ConfigBase, Palette, PaletteBase, PaletteOrFile, PalettesBase,
};
use colorutil::parse::replace_colors;
use colorutil::table::NameMap;
use colorutil::Error;
use palette::{Hsla, Hsva, IntoColor, Srgba};

/// Single-precision arithmetic on colors, through palette.
struct Floats;

fn num(text: &str) -> f32 {
    text.parse::<f32>().unwrap_or(f32::NAN)
}

fn as_srgba(c: &Color) -> Srgba {
    match c {
        Color::Srgb { red, green, blue } => Srgba::<u8>::new(*red, *green, *blue, 255).into_format(),
        Color::Rgba { red, green, blue, alpha } => {
            Srgba::<u8>::new(*red, *green, *blue, *alpha).into_format()
        }
        Color::Fractional { model, first, second, third, alpha } => {
            let (x, y, z, a) = (num(first), num(second), num(third), num(alpha));
            match model {
                Model::Rgb => Srgba::new(x, y, z, a),
                Model::Hsl => Hsla::new(x, y, z, a).into_color(),
                Model::Hsv => Hsva::new(x, y, z, a).into_color(),
            }
        }
    }
}

fn as_hsla(c: &Color) -> Hsla {
    match c {
        Color::Fractional { model: Model::Hsl, first, second, third, alpha } => {
            Hsla::new(num(first), num(second), num(third), num(alpha))
        }
        Color::Fractional { model: Model::Hsv, first, second, third, alpha } => {
            Hsva::new(num(first), num(second), num(third), num(alpha)).into_color()
        }
        _ => as_srgba(c).into_color(),
    }
}

fn as_hsva(c: &Color) -> Hsva {
    match c {
        Color::Fractional { model: Model::Hsv, first, second, third, alpha } => {
            Hsva::new(num(first), num(second), num(third), num(alpha))
        }
        Color::Fractional { model: Model::Hsl, first, second, third, alpha } => {
            Hsla::new(num(first), num(second), num(third), num(alpha)).into_color()
        }
        _ => as_srgba(c).into_color(),
    }
}

impl Arithmetic for Floats {
    fn to_bytes(&self, color: &Color) -> (u8, u8, u8, u8) {
        as_srgba(color).into_format::<u8, u8>().into_components()
    }

    fn to_components(&self, color: &Color, model: Model) -> (String, String, String, String) {
        match model {
            Model::Rgb => {
                let (r, g, b, a) = as_srgba(color).into_components();
                (r.to_string(), g.to_string(), b.to_string(), a.to_string())
            }
            Model::Hsl => {
                let (h, s, l, a) = as_hsla(color).into_components();
                (h.into_inner().to_string(), s.to_string(), l.to_string(), a.to_string())
            }
            Model::Hsv => {
                let (h, s, v, a) = as_hsva(color).into_components();
                (h.into_inner().to_string(), s.to_string(), v.to_string(), a.to_string())
            }
        }
    }
}

fn palette_of(pairs: &[(&str, &str)]) -> Palette {
    let mut p = Palette::new();
    for (k, v) in pairs {
        p.insert(k.to_string(), v.to_string());
    }
    p
}

fn base(inherits: &[&str], colors: &[(&str, &str)]) -> PaletteBase {
    PaletteBase {
        inherits: inherits.iter().map(|s| s.to_string()).collect(),
        colors: palette_of(colors),
    }
}

fn bases(items: Vec<(&str, PaletteBase)>) -> PalettesBase {
    let mut m: PalettesBase = NameMap::new();
    for (k, v) in items {
        m.insert(k.to_string(), v);
    }
    m
}

fn value(p: &Palette, k: &str) -> Option<String> {
    p.get(k).cloned()
}

#[test]
fn test_replace_colors() {
    let prefix = "${";
    let suffix = "}";
    let colors = palette_of(&[
        ("white", "white"),
        ("black", "black"),
        ("transparent", "#00000000"),
        ("mid", "rgb(128, 128, 128)"),
        ("mid2", "frgb(0.5, 0.5, 0.5)"),
        ("rgb", "rgb(1, 2, 3)"),
        ("rgba", "rgba(1, 2, 3, 255)"),
        ("argb", "argb(1, 2, 3, 255)"),
        ("hsl", "hsl(360, 1.0, 0.5)"),
        ("hsla", "hsla(360, 1.0, 0.5, 1.0)"),
        ("hsv", "hsv(360, 1.0, 0.5)"),
        ("hsva", "hsva(360, 1.0, 0.5, 1.0)"),
    ]);

    let src = r#"
white: ${white:hex}
black: ${black:hex}
transparent: ${transparent:hex}
mid: ${mid:frgb}
mid2: ${mid2:fargb}
rgb: ${rgb:rgb}
rgba: ${rgba:rgba}
argb: ${argb:argb}
hsl: ${hsl:hsl}
hsla: ${hsla:hsla}
hsv: ${hsv:hsv}
hsva: ${hsva:hsva}
"#;
    let result = replace_colors(src, prefix, suffix, &colors, &Floats).unwrap();

    println!("{}", result);
}

#[test]
fn byte_markers_are_exact() {
    let colors = palette_of(&[
        ("white", "white"),
        ("black", "black"),
        ("transparent", "#00000000"),
        ("rgb", "rgb(1, 2, 3)"),
        ("rgba", "rgba(1, 2, 3, 255)"),
        ("argb", "argb(1, 2, 3, 255)"),
    ]);
    let src = "w=${white:hex} b=${black:hexa} t=${transparent:ahex} x=${rgb:rgb} y=${rgba:rgba} z=${argb:argb}";
    let out = replace_colors(src, "${", "}", &colors, &Floats).unwrap();
    assert_eq!(out, "w=#FFFFFF b=#000000FF t=#00000000 x=1, 2, 3 y=1, 2, 3, 255 z=1, 2, 3, 255");
}

#[test]
fn hex_round_trip_keeps_the_code() {
    let p = Palette::new();
    for code in ["#000000", "#FFFFFF", "#0A1B2C", "#7F8081", "#C0FFEE"] {
        assert_eq!(parse_format(code, "hex", &p, &Floats).unwrap(), code);
    }
}

#[test]
fn hex_lower_case_comes_back_upper_case() {
    let p = Palette::new();
    assert_eq!(parse_format("#c0ffee", "hex", &p, &Floats).unwrap(), "#C0FFEE");
}

#[test]
fn hex_with_alpha_and_no_short_forms() {
    let p = Palette::new();
    assert_eq!(parse_format("#11223344", "hexa", &p, &Floats).unwrap(), "#11223344");
    assert_eq!(parse_format("#11223344", "ahex", &p, &Floats).unwrap(), "#44112233");
    assert_eq!(parse_format("#112233", "hexa", &p, &Floats).unwrap(), "#112233FF");
    assert_eq!(
        parse_format("#abc", "hex", &p, &Floats),
        Err(Error::FailedToParseColor("#abc".to_string()))
    );
    assert_eq!(
        parse_format("#+f+f+f", "hex", &p, &Floats),
        Err(Error::FailedToParseColor("#+f+f+f".to_string()))
    );
}

#[test]
fn bad_hex_code_is_rejected() {
    let p = Palette::new();
    assert_eq!(
        parse_format("#12345", "hex", &p, &Floats),
        Err(Error::FailedToParseColor("#12345".to_string()))
    );
    assert_eq!(
        parse_format("#gg0000", "hex", &p, &Floats),
        Err(Error::FailedToParseColor("#gg0000".to_string()))
    );
}

#[test]
fn functional_rgb_formats() {
    let p = Palette::new();
    assert_eq!(parse_format("rgb(1, 2, 3)", "rgb", &p, &Floats).unwrap(), "1, 2, 3");
    assert_eq!(parse_format("rgb(1, 2, 3)", "hex", &p, &Floats).unwrap(), "#010203");
}

#[test]
fn argb_equals_rgba_reordered() {
    let p = Palette::new();
    let a = Color::from_str("argb(255, 1, 2, 3)", &p).unwrap();
    let b = Color::from_str("rgba(1, 2, 3, 255)", &p).unwrap();
    assert_eq!(a, b);
    assert_eq!(a, Color::Rgba { red: 1, green: 2, blue: 3, alpha: 255 });
}

#[test]
fn fractional_alpha_first_is_moved_last() {
    let p = Palette::new();
    let a = Color::from_str("fargb(0.25, 0.5, 0.75, 1.0)", &p).unwrap();
    let b = Color::from_str("frgba(0.5, 0.75, 1.0, 0.25)", &p).unwrap();
    assert_eq!(a, b);
    let c = Color::from_str("hsl(120, 0.5, 0.5)", &p).unwrap();
    assert_eq!(
        c,
        Color::Fractional {
            model: Model::Hsl,
            first: "120".to_string(),
            second: "0.5".to_string(),
            third: "0.5".to_string(),
            alpha: "1".to_string(),
        }
    );
}

#[test]
fn parse_params_reads_bytes() {
    assert_eq!(parse_params("rgb(1, +2,  3 )", 3).unwrap(), vec![1, 2, 3]);
    assert_eq!(
        parse_params("rgb(1, 2)", 3),
        Err(Error::FailedToParseColorParams("rgb(1, 2)".to_string()))
    );
    assert_eq!(
        parse_params("rgb(1, 2, 256)", 3),
        Err(Error::FailedToParseColorParams("rgb(1, 2, 256)".to_string()))
    );
    assert_eq!(
        parse_params("rgb(1, 2, x)", 3),
        Err(Error::FailedToParseColorParams("rgb(1, 2, x)".to_string()))
    );
    assert_eq!(
        parse_params("rgb 1, 2, 3", 3),
        Err(Error::FailedToParseColorParams("rgb 1, 2, 3".to_string()))
    );
}

#[test]
fn malformed_functional_literals_fail() {
    let p = Palette::new();
    assert_eq!(
        parse_format("rgb(1, 2, 3, 4)", "hex", &p, &Floats),
        Err(Error::FailedToParseColorParams("rgb(1, 2, 3, 4)".to_string()))
    );
    assert_eq!(
        parse_format("hsl(1, x, 3)", "hex", &p, &Floats),
        Err(Error::FailedToParseColorParams("hsl(1, x, 3)".to_string()))
    );
}

#[test]
fn named_and_unknown_literals() {
    let p = Palette::new();
    assert_eq!(parse_format("crimson", "hex", &p, &Floats).unwrap(), "#DC143C");
    assert_eq!(parse_format("white", "rgba", &p, &Floats).unwrap(), "255, 255, 255, 255");
    assert_eq!(
        parse_format("notacolor", "hex", &p, &Floats),
        Err(Error::FailedToParseColor("notacolor".to_string()))
    );
}

#[test]
fn palette_variables_are_followed() {
    let p = palette_of(&[("a", "$b"), ("b", "#102030")]);
    assert_eq!(parse_format("$a", "hex", &p, &Floats).unwrap(), "#102030");
    assert_eq!(
        parse_format("$missing", "hex", &p, &Floats),
        Err(Error::FailedToParseColor("$missing".to_string()))
    );
}

#[test]
fn palette_variable_cycle_is_an_error() {
    let p = palette_of(&[("a", "$b"), ("b", "$a")]);
    assert_eq!(
        parse_format("$a", "hex", &p, &Floats),
        Err(Error::CyclicReference("a".to_string()))
    );
}

#[test]
fn substitution_with_named_white() {
    let p = palette_of(&[("white", "white")]);
    assert_eq!(replace_colors("c: ${white:hex}", "${", "}", &p, &Floats).unwrap(), "c: #FFFFFF");
}

#[test]
fn substitution_of_functional_mid_gray() {
    let p = palette_of(&[("mid", "rgb(128, 128, 128)")]);
    assert_eq!(replace_colors("${mid:rgb}", "${", "}", &p, &Floats).unwrap(), "128, 128, 128");
}

#[test]
fn unterminated_marker_reports_its_offset() {
    let p = palette_of(&[("white", "white")]);
    assert_eq!(
        replace_colors("${white:hex", "${", "}", &p, &Floats),
        Err(Error::FailedToFindSuffix(0))
    );
    assert_eq!(
        replace_colors("ab ${white:hex} ${white:hex", "${", "}", &p, &Floats),
        Err(Error::FailedToFindSuffix(16))
    );
    assert_eq!(
        replace_colors("é ${white:hex", "${", "}", &p, &Floats),
        Err(Error::FailedToFindSuffix(3))
    );
}

#[test]
fn unknown_format_is_named() {
    let p = palette_of(&[("white", "white")]);
    assert_eq!(
        replace_colors("${white:bogus}", "${", "}", &p, &Floats),
        Err(Error::FailedToParseFormat("bogus".to_string()))
    );
}

#[test]
fn marker_closes_at_first_suffix() {
    let p = palette_of(&[("a", "#010203")]);
    assert_eq!(replace_colors("${a:hex} b }", "${", "}", &p, &Floats).unwrap(), "#010203 b }");
}

#[test]
fn marker_errors() {
    let p = palette_of(&[("white", "white")]);
    assert_eq!(
        replace_colors("x ${white} y", "${", "}", &p, &Floats),
        Err(Error::FailedToParseValue("white".to_string()))
    );
    assert_eq!(
        replace_colors("${black:hex}", "${", "}", &p, &Floats),
        Err(Error::FailedToGetColor("black:hex".to_string()))
    );
}

#[test]
fn text_without_markers_is_copied() {
    let p = Palette::new();
    assert_eq!(replace_colors("", "${", "}", &p, &Floats).unwrap(), "");
    assert_eq!(replace_colors("plain } text", "${", "}", &p, &Floats).unwrap(), "plain } text");
}

#[test]
fn long_markers() {
    let p = palette_of(&[("w", "white")]);
    assert_eq!(replace_colors("<<w:rgb>>!", "<<", ">>", &p, &Floats).unwrap(), "255, 255, 255!");
}

#[test]
fn first_ancestor_in_declared_order_wins() {
    let pals = bases(vec![
        ("A", base(&[], &[("k", "1")])),
        ("B", base(&[], &[("k", "2")])),
        ("C", base(&["A", "B"], &[])),
    ]);
    let c = base(&["A", "B"], &[]).parse("C", &pals).unwrap();
    assert_eq!(value(&c, "k"), Some("1".to_string()));
}

#[test]
fn local_color_always_wins() {
    let pals = bases(vec![
        ("A", base(&[], &[("k", "1")])),
        ("B", base(&[], &[("k", "2")])),
    ]);
    let c = base(&["A", "B"], &[("k", "3")]).parse("C", &pals).unwrap();
    assert_eq!(value(&c, "k"), Some("3".to_string()));
}

#[test]
fn missing_ancestor_names_both() {
    let pals = bases(vec![]);
    assert_eq!(
        base(&["ghost"], &[]).parse("D", &pals).err(),
        Some(Error::NoInherit("ghost".to_string(), "D".to_string()))
    );
}

#[test]
fn ancestors_in_depth_first_preorder() {
    let pals = bases(vec![
        ("A", base(&["X"], &[])),
        ("B", base(&["X"], &[])),
        ("X", base(&[], &[])),
    ]);
    let all = base(&["A", "B"], &[]).all_inherits("C", &pals).unwrap();
    assert_eq!(all, vec!["A".to_string(), "X".to_string(), "B".to_string()]);
}

#[test]
fn inheritance_cycle_is_an_error() {
    let pals = bases(vec![("A", base(&["B"], &[])), ("B", base(&["A"], &[]))]);
    assert_eq!(
        base(&["B"], &[]).all_inherits("A", &pals),
        Err(Error::InheritanceCycle("A".to_string()))
    );
}

#[test]
fn config_resolves_declared_and_autoloaded() {
    let mut declared: NameMap<PaletteOrFile> = NameMap::new();
    declared.insert("main".to_string(), PaletteOrFile::Palette(base(&["extra"], &[("a", "red")])));
    declared.insert("file".to_string(), PaletteOrFile::File("file.toml".to_string()));
    let files = bases(vec![("file.toml", base(&[], &[("f", "blue")]))]);
    let autoloaded = bases(vec![
        ("extra", base(&[], &[("a", "green"), ("b", "black")])),
        ("main", base(&[], &[("z", "white")])),
    ]);
    let config = ConfigBase {
        prefix: "${".to_string(),
        suffix: "}".to_string(),
        palette: "main".to_string(),
        autoload: AutoLoad::All(false),
        palettes: declared,
    }
    .parse(autoloaded, &files)
    .unwrap();
    assert_eq!(config.prefix, "${");
    let main = config.palettes.get("main").unwrap();
    assert_eq!(value(main, "a"), Some("red".to_string()));
    assert_eq!(value(main, "b"), Some("black".to_string()));
    assert_eq!(value(main, "z"), None);
    let file = config.palettes.get("file").unwrap();
    assert_eq!(value(file, "f"), Some("blue".to_string()));
    assert!(config.palettes.get("extra").is_some());
}

#[test]
fn config_with_unread_file_fails() {
    let mut declared: NameMap<PaletteOrFile> = NameMap::new();
    declared.insert("file".to_string(), PaletteOrFile::File("gone.toml".to_string()));
    let result = ConfigBase {
        prefix: "${".to_string(),
        suffix: "}".to_string(),
        palette: "file".to_string(),
        autoload: AutoLoad::Specific(vec![]),
        palettes: declared,
    }
    .parse(bases(vec![]), &bases(vec![]));
    assert_eq!(result.err(), Some(Error::NotFile("gone.toml".to_string())));
}

#[test]
fn palette_or_file_parse() {
    let files = bases(vec![("p.toml", base(&["x"], &[]))]);
    let read = PaletteOrFile::File("p.toml".to_string()).parse(&files).unwrap();
    assert_eq!(read.inherits, vec!["x".to_string()]);
    let inline = PaletteOrFile::Palette(base(&[], &[("c", "red")])).parse(&files).unwrap();
    assert_eq!(value(&inline.colors, "c"), Some("red".to_string()));
}

#[test]
fn format_names() {
    assert_eq!(Format::from_name("ahsv"), Some(Format::Ahsv));
    assert_eq!(Format::from_name("HEX"), None);
}

#[test]
fn fractional_formats_go_through_arithmetic() {
    let p = Palette::new();
    assert_eq!(parse_format("frgb(0.5, 0.5, 0.5)", "fargb", &p, &Floats).unwrap(), "1, 0.5, 0.5, 0.5");
    assert_eq!(parse_format("hsl(360, 1.0, 0.5)", "hsl", &p, &Floats).unwrap(), "360, 1, 0.5");
    assert_eq!(parse_format("hsl(0, 1.0, 0.5)", "hex", &p, &Floats).unwrap(), "#FF0000");
}

#[test]
fn insert_replaces_a_name() {
    let mut p = Palette::new();
    p.insert("a".to_string(), "1".to_string());
    p.insert("a".to_string(), "2".to_string());
    assert_eq!(p.len(), 1);
    assert_eq!(value(&p, "a"), Some("2".to_string()));
}

#[test]
fn autoload_names_palette_files() {
    assert_eq!(autoload_name("dark.toml"), Some("dark".to_string()));
    assert_eq!(autoload_name("a.b.toml"), Some("a.b".to_string()));
    assert_eq!(autoload_name("config.toml"), None);
    assert_eq!(autoload_name(".toml"), None);
    assert_eq!(autoload_name("notes.txt"), None);
}

#[test]
fn palette_outside_the_set_resolves() {
    let pals = bases(vec![("A", base(&[], &[("k", "1")]))]);
    let c = base(&["A"], &[]);
    assert_eq!(c.all_inherits("C", &pals).unwrap(), vec!["A".to_string()]);
    let resolved = c.parse("C", &pals).unwrap();
    assert_eq!(value(&resolved, "k"), Some("1".to_string()));
}

#[test]
fn self_reference_through_one_variable() {
    let p = palette_of(&[("a", "$a")]);
    assert_eq!(
        parse_format("$$a", "hex", &p, &Floats),
        Err(Error::CyclicReference("a".to_string()))
    );
}

#[test]
fn fractional_parameters_read_as_written() {
    let p = Palette::new();
    let c = Color::from_str("ahsv(0.5, 10, +1e-1, .25)", &p).unwrap();
    assert_eq!(
        c,
        Color::Fractional {
            model: Model::Hsv,
            first: "10".to_string(),
            second: "+1e-1".to_string(),
            third: ".25".to_string(),
            alpha: "0.5".to_string(),
        }
    );
    assert!(Color::from_str("frgb(inf, NaN, -Infinity)", &p).is_ok());
    for bad in ["frgb(1, 2, 3 4)", "frgb(1., ., 3)", "frgb(1e, 2, 3)", "frgb(1, 2, 3, 4)"] {
        assert_eq!(
            Color::from_str(bad, &p),
            Err(Error::FailedToParseColorParams(bad.to_string()))
        );
    }
}

#[test]
fn fractional_layouts() {
    let p = Palette::new();
    assert_eq!(parse_format("white", "hsla", &p, &Floats).unwrap(), "0, 0, 1, 1");
    assert_eq!(parse_format("white", "ahsv", &p, &Floats).unwrap(), "1, 0, 0, 1");
    assert_eq!(parse_format("rgba(255, 0, 0, 255)", "fargb", &p, &Floats).unwrap(), "1, 1, 0, 0");
    assert_eq!(parse_format("hsla(0, 1.0, 0.5, 0.5)", "ahsl", &p, &Floats).unwrap(), "0.5, 0, 1, 0.5");
}
