//! Colors read from text in a fixed set of notations and written back in a fixed
//! set of formats.
use vstd::prelude::*;
use crate::config::Palette;
use crate::error::{Error, ErrorView};
use crate::table::{listed, names_of, same_text};
use crate::text::{
    chars_of, decimal, hex2, hex_value, index_in, index_of, lemma_hex_char_value,
    lemma_index_of_bounds, push_decimal, push_hex2, split, starts_with, trim, trim_bounds,
};

verus! {

broadcast use vstd::string::group_string_axioms;

/// The color models whose components are fractional numbers.
#[derive(Clone, Copy, Debug, PartialEq, Eq, Structural)]
pub enum Model {
    Rgb,
    Hsl,
    Hsv,
}

/// A color in the form in which it was written.
///
/// Fractional components are kept as the text of the single-precision numbers they
/// write; the library leaves arithmetic on them to an [`Arithmetic`].
#[derive(Clone, Debug, PartialEq, Eq)]
pub enum Color {
    /// Red, green and blue bytes with no alpha, as a color keyword gives them.
    Srgb { red: u8, green: u8, blue: u8 },
    /// Red, green, blue and alpha bytes.
    Rgba { red: u8, green: u8, blue: u8, alpha: u8 },
    /// Three components of `model` and an alpha, each the text of a fractional number.
    Fractional { model: Model, first: String, second: String, third: String, alpha: String },
}

/// `Color` with its texts as characters.
pub enum ColorView {
    Srgb { red: u8, green: u8, blue: u8 },
    Rgba { red: u8, green: u8, blue: u8, alpha: u8 },
    Fractional {
        model: Model,
        first: Seq<char>,
        second: Seq<char>,
        third: Seq<char>,
        alpha: Seq<char>,
    },
}

impl View for Color {
    type V = ColorView;

    open spec fn view(&self) -> ColorView {
        match self {
            Color::Srgb { red, green, blue } => ColorView::Srgb {
                red: *red,
                green: *green,
                blue: *blue,
            },
            Color::Rgba { red, green, blue, alpha } => ColorView::Rgba {
                red: *red,
                green: *green,
                blue: *blue,
                alpha: *alpha,
            },
            Color::Fractional { model, first, second, third, alpha } => ColorView::Fractional {
                model: *model,
                first: first@,
                second: second@,
                third: third@,
                alpha: alpha@,
            },
        }
    }
}

/// The text of the alpha of an opaque color with fractional components.
pub open spec fn opaque() -> Seq<char> {
    seq!['1']
}

/// Arithmetic on fractional numbers, which this library does not do itself. The library
/// lays out every output format; an `Arithmetic` gives only the numbers.
pub trait Arithmetic {
    /// The color's red, green, blue and alpha, as bytes.
    fn to_bytes(&self, color: &Color) -> (u8, u8, u8, u8);

    /// The color's three components in `model`, and its alpha, each written as a number.
    fn to_components(&self, color: &Color, model: Model) -> (String, String, String, String);
}

/// The functional notations, in the order in which they are tried.
#[derive(Clone, Copy, Debug, PartialEq, Eq, Structural)]
pub enum Notation {
    Argb,
    Rgba,
    Rgb,
    Fargb,
    Frgba,
    Frgb,
    Ahsl,
    Hsla,
    Hsl,
    Ahsv,
    Hsva,
    Hsv,
}

/// The output formats.
#[derive(Clone, Copy, Debug, PartialEq, Eq, Structural)]
pub enum Format {
    Hex,
    Hexa,
    Ahex,
    Rgb,
    Rgba,
    Argb,
    Frgb,
    Frgba,
    Fargb,
    Hsl,
    Hsla,
    Ahsl,
    Hsv,
    Hsva,
    Ahsv,
}

pub open spec fn notation_name(n: Notation) -> Seq<char> {
    match n {
        Notation::Argb => "argb"@,
        Notation::Rgba => "rgba"@,
        Notation::Rgb => "rgb"@,
        Notation::Fargb => "fargb"@,
        Notation::Frgba => "frgba"@,
        Notation::Frgb => "frgb"@,
        Notation::Ahsl => "ahsl"@,
        Notation::Hsla => "hsla"@,
        Notation::Hsl => "hsl"@,
        Notation::Ahsv => "ahsv"@,
        Notation::Hsva => "hsva"@,
        Notation::Hsv => "hsv"@,
    }
}

/// The notation tried in place `i`.
pub open spec fn notation_at(i: int) -> Notation {
    if i == 0 {
        Notation::Argb
    } else if i == 1 {
        Notation::Rgba
    } else if i == 2 {
        Notation::Rgb
    } else if i == 3 {
        Notation::Fargb
    } else if i == 4 {
        Notation::Frgba
    } else if i == 5 {
        Notation::Frgb
    } else if i == 6 {
        Notation::Ahsl
    } else if i == 7 {
        Notation::Hsla
    } else if i == 8 {
        Notation::Hsl
    } else if i == 9 {
        Notation::Ahsv
    } else if i == 10 {
        Notation::Hsva
    } else {
        Notation::Hsv
    }
}

/// The number of notations.
pub const NOTATIONS: usize = 12;

/// How many parameters a notation takes.
pub open spec fn arity(n: Notation) -> nat {
    match n {
        Notation::Rgb | Notation::Frgb | Notation::Hsl | Notation::Hsv => 3,
        _ => 4,
    }
}

/// Whether the notation writes the alpha first.
pub open spec fn alpha_first(n: Notation) -> bool {
    match n {
        Notation::Argb | Notation::Fargb | Notation::Ahsl | Notation::Ahsv => true,
        _ => false,
    }
}

/// Whether the notation's parameters are bytes.
pub open spec fn byte_notation(n: Notation) -> bool {
    match n {
        Notation::Argb | Notation::Rgba | Notation::Rgb => true,
        _ => false,
    }
}

/// The model of a notation with fractional parameters.
pub open spec fn fractional_model(n: Notation) -> Model {
    match n {
        Notation::Ahsl | Notation::Hsla | Notation::Hsl => Model::Hsl,
        Notation::Ahsv | Notation::Hsva | Notation::Hsv => Model::Hsv,
        _ => Model::Rgb,
    }
}

/// Whether `s` opens with the notation's name and `(`.
pub open spec fn opens(s: Seq<char>, n: Notation) -> bool {
    let p = notation_name(n).push('(');
    p.len() <= s.len() && s.take(p.len() as int) == p
}

/// The first notation from place `i` on that `s` opens with.
pub open spec fn notation_from(s: Seq<char>, i: int) -> Option<Notation>
    decreases 12 - i,
{
    if i < 0 || i >= 12 {
        None
    } else if opens(s, notation_at(i)) {
        Some(notation_at(i))
    } else {
        notation_from(s, i + 1)
    }
}

/// The functional notation that `s` is written in.
pub open spec fn notation_of(s: Seq<char>) -> Option<Notation> {
    notation_from(s, 0)
}

/// The parameters of a functional literal: the pieces between the first `(` and the
/// first `)`, parted by commas and trimmed.
pub open spec fn params_of(s: Seq<char>) -> Option<Seq<Seq<char>>> {
    match (index_of(s, '('), index_of(s, ')')) {
        (Some(a), Some(b)) => if a < b {
            Some(split(s.subrange(a + 1, b), ',').map_values(|t: Seq<char>| trim(t)))
        } else {
            None
        },
        _ => None,
    }
}

/// Whether every character of `t` is a decimal digit.
pub open spec fn all_digits(t: Seq<char>) -> bool {
    forall|i: int| 0 <= i < t.len() ==> '0' <= #[trigger] t[i] <= '9'
}

/// The number that the decimal digits `t` write.
pub open spec fn digits_value(t: Seq<char>) -> nat
    decreases t.len(),
{
    if t.len() == 0 {
        0
    } else {
        digits_value(t.drop_last()) * 10 + (t.last() as nat - '0' as nat) as nat
    }
}

/// The byte that `t` writes in decimal, with an optional `+`, as `u8::from_str` reads it.
pub open spec fn byte_value(t: Seq<char>) -> Option<u8> {
    let d = unsigned_digits(t);
    if d.len() > 0 && all_digits(d) && digits_value(d) <= 255 {
        Some(digits_value(d) as u8)
    } else {
        None
    }
}

/// `t` without a leading `+`.
pub open spec fn unsigned_digits(t: Seq<char>) -> Seq<char> {
    if t.len() > 0 && t[0] == '+' {
        t.drop_first()
    } else {
        t
    }
}

/// `t` without one leading `+` or `-`.
pub open spec fn unsigned(t: Seq<char>) -> Seq<char> {
    if t.len() > 0 && (t[0] == '+' || t[0] == '-') {
        t.drop_first()
    } else {
        t
    }
}

/// The upper case of the letters that the words `inf`, `infinity` and `nan` use.
pub open spec fn upper_of(c: char) -> char {
    if c == 'a' {
        'A'
    } else if c == 'f' {
        'F'
    } else if c == 'i' {
        'I'
    } else if c == 'n' {
        'N'
    } else if c == 't' {
        'T'
    } else if c == 'y' {
        'Y'
    } else {
        c
    }
}

/// Whether `t` spells the lower-case word `w` in any case.
pub open spec fn spells(t: Seq<char>, w: Seq<char>) -> bool {
    t.len() == w.len() && forall|i: int| 0 <= i < t.len() ==> #[trigger] t[i] == w[i] || t[i] == upper_of(w[i])
}

/// The earlier of two positions.
pub open spec fn earliest(a: Option<int>, b: Option<int>) -> Option<int> {
    match (a, b) {
        (Some(x), Some(y)) => Some(if x < y { x } else { y }),
        (Some(x), None) => Some(x),
        (None, y) => y,
    }
}

/// Whether `m` is the digits of a number: digits, with at most one `.` among them.
pub open spec fn mantissa_text(m: Seq<char>) -> bool {
    match index_of(m, '.') {
        None => m.len() > 0 && all_digits(m),
        Some(d) => all_digits(m.take(d)) && all_digits(m.skip(d + 1)) && (d > 0 || m.len() > d + 1),
    }
}

/// Whether `u` is a number without sign: a mantissa, then perhaps `e` or `E` and a
/// signed exponent.
pub open spec fn number_text(u: Seq<char>) -> bool {
    match earliest(index_of(u, 'e'), index_of(u, 'E')) {
        None => mantissa_text(u),
        Some(e) => mantissa_text(u.take(e)) && unsigned(u.skip(e + 1)).len() > 0 && all_digits(
            unsigned(u.skip(e + 1)),
        ),
    }
}

/// Whether `t` reads as a single-precision number, by the grammar that `f32::from_str`
/// documents: a sign, then `inf`, `infinity` or `nan` in any case, or a number.
pub open spec fn float_text(t: Seq<char>) -> bool {
    let u = unsigned(t);
    spells(u, seq!['i', 'n', 'f']) || spells(u, seq!['i', 'n', 'f', 'i', 'n', 'i', 't', 'y'])
        || spells(u, seq!['n', 'a', 'n']) || number_text(u)
}

fn upper_char(c: char) -> (r: char)
    ensures
        r == upper_of(c),
{
    if c == 'a' {
        'A'
    } else if c == 'f' {
        'F'
    } else if c == 'i' {
        'I'
    } else if c == 'n' {
        'N'
    } else if c == 't' {
        'T'
    } else if c == 'y' {
        'Y'
    } else {
        c
    }
}

/// Whether `t[a..b]` is all decimal digits.
fn digits_in(t: &Vec<char>, a: usize, b: usize) -> (r: bool)
    requires
        a <= b <= t@.len(),
    ensures
        r == all_digits(t@.subrange(a as int, b as int)),
{
    let mut i: usize = a;
    while i < b
        invariant
            a <= i <= b <= t@.len(),
            forall|j: int| a <= j < i ==> '0' <= #[trigger] t@[j] <= '9',
        decreases b - i,
    {
        if t[i] < '0' || t[i] > '9' {
            assert(t@.subrange(a as int, b as int)[i - a] == t@[i as int]);
            return false;
        }
        i = i + 1;
    }
    assert forall|j: int| 0 <= j < b - a implies '0' <= #[trigger] t@.subrange(a as int, b as int)[j] <= '9' by {
        assert(t@.subrange(a as int, b as int)[j] == t@[a + j]);
    }
    true
}

/// Whether `t[a..b]` spells the lower-case word `w` in any case.
fn spells_in(t: &Vec<char>, a: usize, b: usize, w: &Vec<char>) -> (r: bool)
    requires
        a <= b <= t@.len(),
    ensures
        r == spells(t@.subrange(a as int, b as int), w@),
{
    let ghost u = t@.subrange(a as int, b as int);
    if b - a != w.len() {
        return false;
    }
    let mut i: usize = 0;
    while i < w.len()
        invariant
            u == t@.subrange(a as int, b as int),
            b - a == w@.len(),
            a <= b <= t@.len(),
            i <= w@.len(),
            forall|j: int| 0 <= j < i ==> #[trigger] u[j] == w@[j] || u[j] == upper_of(w@[j]),
        decreases w@.len() - i,
    {
        let c = t[a + i];
        assert(u[i as int] == c);
        if c != w[i] && c != upper_char(w[i]) {
            return false;
        }
        i = i + 1;
    }
    true
}

/// Whether `t[a..b]` is the digits of a number.
fn mantissa_in(t: &Vec<char>, a: usize, b: usize) -> (r: bool)
    requires
        a <= b <= t@.len(),
    ensures
        r == mantissa_text(t@.subrange(a as int, b as int)),
{
    let ghost m = t@.subrange(a as int, b as int);
    match index_in(t, '.', a, b) {
        None => b > a && digits_in(t, a, b),
        Some(d) => {
            proof {
                lemma_index_of_bounds(m, '.');
                assert(m.take(d - a) =~= t@.subrange(a as int, d as int));
                assert(m.skip(d - a + 1) =~= t@.subrange(d + 1, b as int));
            }
            digits_in(t, a, d) && digits_in(t, d + 1, b) && (d > a || b > d + 1)
        },
    }
}

/// Whether `t[a..b]` reads as a single-precision number.
#[verifier::rlimit(40)]
fn float_in(t: &Vec<char>, a: usize, b: usize) -> (r: bool)
    requires
        a <= b <= t@.len(),
    ensures
        r == float_text(t@.subrange(a as int, b as int)),
{
    let ghost whole = t@.subrange(a as int, b as int);
    let start: usize = if a < b && (t[a] == '+' || t[a] == '-') {
        a + 1
    } else {
        a
    };
    let ghost u = t@.subrange(start as int, b as int);
    assert(u =~= unsigned(whole));
    let mut inf: Vec<char> = Vec::new();
    inf.push('i');
    inf.push('n');
    inf.push('f');
    let mut nan: Vec<char> = Vec::new();
    nan.push('n');
    nan.push('a');
    nan.push('n');
    let mut infinity: Vec<char> = Vec::new();
    infinity.push('i');
    infinity.push('n');
    infinity.push('f');
    infinity.push('i');
    infinity.push('n');
    infinity.push('i');
    infinity.push('t');
    infinity.push('y');
    assert(inf@ =~= seq!['i', 'n', 'f']);
    assert(nan@ =~= seq!['n', 'a', 'n']);
    assert(infinity@ =~= seq!['i', 'n', 'f', 'i', 'n', 'i', 't', 'y']);
    if spells_in(t, start, b, &inf) || spells_in(t, start, b, &infinity) || spells_in(t, start, b, &nan) {
        return true;
    }
    number_in(t, start, b)
}

/// Whether `t[a..b]` is a number without sign.
fn number_in(t: &Vec<char>, a: usize, b: usize) -> (r: bool)
    requires
        a <= b <= t@.len(),
    ensures
        r == number_text(t@.subrange(a as int, b as int)),
{
    let ghost u = t@.subrange(a as int, b as int);
    let lower = index_in(t, 'e', a, b);
    let upper = index_in(t, 'E', a, b);
    proof {
        lemma_index_of_bounds(u, 'e');
        lemma_index_of_bounds(u, 'E');
    }
    let mark: Option<usize> = match (lower, upper) {
        (Some(x), Some(y)) => Some(if x < y { x } else { y }),
        (Some(x), None) => Some(x),
        (None, y) => y,
    };
    match mark {
        None => mantissa_in(t, a, b),
        Some(e) => {
            proof {
                assert(u.take(e - a) =~= t@.subrange(a as int, e as int));
                assert(u.skip(e - a + 1) =~= t@.subrange(e + 1, b as int));
            }
            if !mantissa_in(t, a, e) {
                return false;
            }
            let x: usize = if e + 1 < b && (t[e + 1] == '+' || t[e + 1] == '-') {
                e + 2
            } else {
                e + 1
            };
            assert(t@.subrange(x as int, b as int) =~= unsigned(t@.subrange(e + 1, b as int)));
            x < b && digits_in(t, x, b)
        },
    }
}

/// The bytes that all of `toks` write.
pub open spec fn bytes_of(toks: Seq<Seq<char>>) -> Option<Seq<u8>> {
    if forall|i: int| 0 <= i < toks.len() ==> (#[trigger] byte_value(toks[i])) is Some {
        Some(toks.map_values(|t: Seq<char>| byte_value(t)->0))
    } else {
        None
    }
}

/// The `n` byte parameters of a functional literal.
pub open spec fn byte_params(s: Seq<char>, n: nat) -> Option<Seq<u8>> {
    match params_of(s) {
        Some(toks) => if toks.len() == n {
            bytes_of(toks)
        } else {
            None
        },
        None => None,
    }
}

/// The color that byte parameters `v` of notation `n` give.
pub open spec fn byte_color(n: Notation, v: Seq<u8>) -> ColorView {
    match n {
        Notation::Argb => ColorView::Rgba { red: v[1], green: v[2], blue: v[3], alpha: v[0] },
        Notation::Rgba => ColorView::Rgba { red: v[0], green: v[1], blue: v[2], alpha: v[3] },
        _ => ColorView::Rgba { red: v[0], green: v[1], blue: v[2], alpha: 255 },
    }
}

/// The color that fractional parameters `t` of notation `n` give: in component order, the
/// alpha moved last where the notation writes it first, and opaque where it has none.
pub open spec fn fractional_color(n: Notation, t: Seq<Seq<char>>) -> ColorView {
    let model = fractional_model(n);
    if arity(n) == 3 {
        ColorView::Fractional { model, first: t[0], second: t[1], third: t[2], alpha: opaque() }
    } else if alpha_first(n) {
        ColorView::Fractional { model, first: t[1], second: t[2], third: t[3], alpha: t[0] }
    } else {
        ColorView::Fractional { model, first: t[0], second: t[1], third: t[2], alpha: t[3] }
    }
}

/// Whether `s` is a hex code: `#` and six or eight hexadecimal digits.
pub open spec fn hex_literal(s: Seq<char>) -> bool {
    (s.len() == 7 || s.len() == 9) && s[0] == '#' && forall|i: int|
        1 <= i < s.len() ==> (#[trigger] hex_value(s[i])) is Some
}

/// A hexadecimal field as `u8::from_str_radix(t, 16)` reads one of one or two characters.
pub open spec fn hex_field(t: Seq<char>) -> Option<u8> {
    let d = if t.len() > 0 && t[0] == '+' {
        t.drop_first()
    } else {
        t
    };
    if d.len() == 1 {
        match hex_value(d[0]) {
            Some(x) => Some(x as u8),
            None => None,
        }
    } else if d.len() == 2 {
        match (hex_value(d[0]), hex_value(d[1])) {
            (Some(x), Some(y)) => Some((16 * x + y) as u8),
            _ => None,
        }
    } else {
        None
    }
}

/// The digits of a hex code, without a leading `#`.
pub open spec fn hex_digits(s: Seq<char>) -> Seq<char> {
    if s.len() > 0 && s[0] == '#' {
        s.drop_first()
    } else {
        s
    }
}

/// Field `i` of width `w` in `c`; a one-digit field counts seventeen times.
pub open spec fn hex_part(c: Seq<char>, i: int, w: int) -> Option<u8> {
    match hex_field(c.subrange(i * w, i * w + w)) {
        Some(x) => if w == 1 {
            Some((x * 17) as u8)
        } else {
            Some(x)
        },
        None => None,
    }
}

/// A hex code with alpha (`#RRGGBBAA` or `#RGBA`), as palette's `Rgba<_, u8>` reads it.
pub open spec fn hex_rgba(s: Seq<char>) -> Option<(u8, u8, u8, u8)> {
    let c = hex_digits(s);
    let w = if c.len() == 8 {
        2
    } else {
        1
    };
    if c.len() != 8 && c.len() != 4 {
        None
    } else {
        match (hex_part(c, 0, w), hex_part(c, 1, w), hex_part(c, 2, w), hex_part(c, 3, w)) {
            (Some(r), Some(g), Some(b), Some(a)) => Some((r, g, b, a)),
            _ => None,
        }
    }
}

/// A hex code without alpha (`#RRGGBB` or `#RGB`), as palette's `Rgb<_, u8>` reads it.
pub open spec fn hex_rgb(s: Seq<char>) -> Option<(u8, u8, u8)> {
    let c = hex_digits(s);
    let w = if c.len() == 6 {
        2
    } else {
        1
    };
    if c.len() != 6 && c.len() != 3 {
        None
    } else {
        match (hex_part(c, 0, w), hex_part(c, 1, w), hex_part(c, 2, w)) {
            (Some(r), Some(g), Some(b)) => Some((r, g, b)),
            _ => None,
        }
    }
}

/// The red, green and blue of a color keyword, as palette's table of named colors has them.
pub uninterp spec fn named_color(name: Seq<char>) -> Option<(u8, u8, u8)>;

/// Relies on palette's `FromStr` for `Rgba<_, u8>`: it reads a hex code of four or eight
/// digits, with or without `#`, each field by `u8::from_str_radix`. On a code that is not
/// ASCII it may slice inside a character and panic, so only ASCII is passed.
#[verifier::external_body]
fn parse_hex_rgba(s: &str) -> (r: Option<(u8, u8, u8, u8)>)
    requires
        vstd::string::is_ascii(s),
    ensures
        r == hex_rgba(s@),
{
    <palette::rgb::Rgba<palette::encoding::Srgb, u8> as std::str::FromStr>::from_str(s).ok().map(
        |c| c.into_components(),
    )
}

/// Relies on palette's `FromStr` for `Rgb<_, u8>`: it reads a hex code of three or six
/// digits, with or without `#`, each field by `u8::from_str_radix`. On a code that is not
/// ASCII it may slice inside a character and panic, so only ASCII is passed.
#[verifier::external_body]
fn parse_hex_rgb(s: &str) -> (r: Option<(u8, u8, u8)>)
    requires
        vstd::string::is_ascii(s),
    ensures
        r == hex_rgb(s@),
{
    <palette::rgb::Rgb<palette::encoding::Srgb, u8> as std::str::FromStr>::from_str(s).ok().map(
        |c| c.into_components(),
    )
}

/// Relies on `palette::named::from_str`: the color that a keyword names, looked up in a
/// fixed table; the result depends on the name alone.
#[verifier::external_body]
fn lookup_named(name: &str) -> (r: Option<(u8, u8, u8)>)
    ensures
        r == named_color(name@),
{
    palette::named::from_str(name).map(|c| c.into_components())
}

/// The name of a notation.
fn notation_text(n: Notation) -> (r: &'static str)
    ensures
        r@ == notation_name(n),
{
    match n {
        Notation::Argb => "argb",
        Notation::Rgba => "rgba",
        Notation::Rgb => "rgb",
        Notation::Fargb => "fargb",
        Notation::Frgba => "frgba",
        Notation::Frgb => "frgb",
        Notation::Ahsl => "ahsl",
        Notation::Hsla => "hsla",
        Notation::Hsl => "hsl",
        Notation::Ahsv => "ahsv",
        Notation::Hsva => "hsva",
        Notation::Hsv => "hsv",
    }
}

/// The notation tried in place `i`.
fn notation_in_place(i: usize) -> (r: Notation)
    ensures
        r == notation_at(i as int),
{
    match i {
        0 => Notation::Argb,
        1 => Notation::Rgba,
        2 => Notation::Rgb,
        3 => Notation::Fargb,
        4 => Notation::Frgba,
        5 => Notation::Frgb,
        6 => Notation::Ahsl,
        7 => Notation::Hsla,
        8 => Notation::Hsl,
        9 => Notation::Ahsv,
        10 => Notation::Hsva,
        _ => Notation::Hsv,
    }
}

/// The functional notation that `s` is written in.
pub fn find_notation(s: &Vec<char>) -> (r: Option<Notation>)
    ensures
        r == notation_of(s@),
{
    let mut i: usize = 0;
    while i < NOTATIONS
        invariant
            i <= 12,
            notation_of(s@) == notation_from(s@, i as int),
        decreases 12 - i,
    {
        let n = notation_in_place(i);
        let mut p = chars_of(notation_text(n));
        p.push('(');
        if starts_with(s, &p) {
            assert(s@.take(p@.len() as int) == s@.subrange(0, p@.len() as int));
            return Some(n);
        }
        assert(!opens(s@, n)) by {
            if p@.len() <= s@.len() {
                assert(s@.take(p@.len() as int) == s@.subrange(0, p@.len() as int));
            }
        }
        i = i + 1;
    }
    None
}

proof fn lemma_split_step(t: Seq<char>, i: int, sep: char)
    requires
        index_of(t, sep) == Some(i),
        0 <= i < t.len(),
    ensures
        split(t, sep) == seq![t.take(i)] + split(t.skip(i + 1), sep),
{
}

/// The bounds in `s` of each parameter of a functional literal.
fn param_bounds(s: &Vec<char>) -> (r: Option<Vec<(usize, usize)>>)
    ensures
        r is Some == params_of(s@) is Some,
        r matches Some(v) ==> v@.len() == params_of(s@)->0.len() && forall|i: int|
            0 <= i < v@.len() ==> #[trigger] v@[i].0 <= v@[i].1 <= s@.len() && s@.subrange(
                v@[i].0 as int,
                v@[i].1 as int,
            ) == params_of(s@)->0[i],
{
    assert(s@.subrange(0, s@.len() as int) == s@);
    let a = match index_in(s, '(', 0, s.len()) {
        Some(a) => a,
        None => {
            return None;
        },
    };
    let b = match index_in(s, ')', 0, s.len()) {
        Some(b) => b,
        None => {
            return None;
        },
    };
    proof {
        lemma_index_of_bounds(s@, '(');
        lemma_index_of_bounds(s@, ')');
    }
    if b <= a {
        return None;
    }
    let ghost whole = s@.subrange(a + 1, b as int);
    let ghost done: Seq<Seq<char>> = seq![];
    let mut out: Vec<(usize, usize)> = Vec::new();
    let mut pos: usize = a + 1;
    loop
        invariant_except_break
            split(whole, ',') == done + split(s@.subrange(pos as int, b as int), ','),
        invariant
            a < b <= s@.len(),
            a + 1 <= pos <= b,
            whole == s@.subrange(a + 1, b as int),
            out@.len() == done.len(),
            forall|i: int|
                0 <= i < done.len() ==> #[trigger] out@[i].0 <= out@[i].1 <= s@.len()
                    && s@.subrange(out@[i].0 as int, out@[i].1 as int) == trim(done[i]),
        ensures
            split(whole, ',') == done,
            out@.len() == done.len(),
            forall|i: int|
                0 <= i < done.len() ==> #[trigger] out@[i].0 <= out@[i].1 <= s@.len()
                    && s@.subrange(out@[i].0 as int, out@[i].1 as int) == trim(done[i]),
        decreases b - pos,
    {
        let ghost t = s@.subrange(pos as int, b as int);
        proof {
            lemma_index_of_bounds(t, ',');
        }
        match index_in(s, ',', pos, b) {
            Some(c) => {
                let (lo, hi) = trim_bounds(s, pos, c);
                let ghost before = out@;
                out.push((lo, hi));
                proof {
                    assert(forall|i: int| 0 <= i < before.len() ==> out@[i] == before[i]);
                    lemma_split_step(t, c - pos, ',');
                    assert(t.take(c - pos) =~= s@.subrange(pos as int, c as int));
                    assert(t.skip(c - pos + 1) =~= s@.subrange(c + 1, b as int));
                    assert(done.push(t.take(c - pos)) + split(t.skip(c - pos + 1), ',') =~= done
                        + (seq![t.take(c - pos)] + split(t.skip(c - pos + 1), ',')));
                    done = done.push(t.take(c - pos));
                }
                pos = c + 1;
            },
            None => {
                let (lo, hi) = trim_bounds(s, pos, b);
                let ghost before = out@;
                out.push((lo, hi));
                proof {
                    assert(forall|i: int| 0 <= i < before.len() ==> out@[i] == before[i]);
                    assert(split(t, ',') == seq![t]);
                    assert(done + seq![t] =~= done.push(t));
                    done = done.push(t);
                }
                break;
            },
        }
    }
    proof {
        let toks = split(whole, ',').map_values(|t: Seq<char>| trim(t));
        assert(index_of(s@, '(') == Some(a as int));
        assert(index_of(s@, ')') == Some(b as int));
        assert(params_of(s@) == Some(toks));
        assert(out@.len() == toks.len());
        assert forall|i: int| 0 <= i < out@.len() implies #[trigger] out@[i].0 <= out@[i].1
            <= s@.len() && s@.subrange(out@[i].0 as int, out@[i].1 as int) == params_of(s@)->0[i] by {
            assert(toks[i] == trim(done[i]));
            assert(0 <= i < done.len());
            assert(s@.subrange(out@[i].0 as int, out@[i].1 as int) == trim(done[i]));
        }
    }
    Some(out)
}

proof fn lemma_digits_prefix(t: Seq<char>, k: int)
    requires
        0 <= k < t.len(),
    ensures
        t.take(k + 1).drop_last() == t.take(k),
        t.take(k + 1).last() == t[k],
{
    assert(t.take(k + 1).drop_last() =~= t.take(k));
}

/// The byte that `s[lo..hi]` writes in decimal.
fn byte_in(s: &Vec<char>, lo: usize, hi: usize) -> (r: Option<u8>)
    requires
        lo <= hi <= s@.len(),
    ensures
        r == byte_value(s@.subrange(lo as int, hi as int)),
{
    let ghost t = s@.subrange(lo as int, hi as int);
    let start: usize = if lo < hi && s[lo] == '+' {
        lo + 1
    } else {
        lo
    };
    let ghost d = s@.subrange(start as int, hi as int);
    assert(d =~= unsigned_digits(t));
    if start == hi {
        return None;
    }
    let mut acc: u32 = 0;
    let mut k: usize = start;
    while k < hi
        invariant
            start <= k <= hi <= s@.len(),
            d == s@.subrange(start as int, hi as int),
            t == s@.subrange(lo as int, hi as int),
            d == unsigned_digits(t),
            acc <= 256,
            acc == (if digits_value(d.take(k - start)) <= 256 {
                digits_value(d.take(k - start))
            } else {
                256
            }),
            all_digits(d.take(k - start)),
        decreases hi - k,
    {
        let c = s[k];
        if c < '0' || c > '9' {
            assert(!all_digits(d)) by {
                assert(d[k - start] == c);
            }
            return None;
        }
        proof {
            lemma_digits_prefix(d, k - start);
            assert(d[k - start] == c);
        }
        let digit = (c as u32) - ('0' as u32);
        let next = acc * 10 + digit;
        acc = if next > 256 {
            256
        } else {
            next
        };
        k = k + 1;
        proof {
            assert forall|i: int| 0 <= i < d.take(k - start).len() implies '0' <= #[trigger] d.take(k - start)[i] <= '9' by {
                if i < k - 1 - start {
                    assert(d.take(k - start)[i] == d.take(k - 1 - start)[i]);
                }
            }
        }
    }
    assert(d.take(k - start) == d);
    if acc > 255 {
        None
    } else {
        Some(acc as u8)
    }
}

/// The `count` byte parameters of the functional literal `text`, such as `rgb(1, 2, 3)`.
pub fn parse_params(text: &str, count: usize) -> (r: Result<Vec<u8>, Error>)
    ensures
        match byte_params(text@, count as nat) {
            Some(v) => r matches Ok(x) && x@ == v,
            None => r matches Err(e) && e@ == ErrorView::FailedToParseColorParams(text@),
        },
{
    let s = chars_of(text);
    let bounds = match param_bounds(&s) {
        Some(b) => b,
        None => {
            return Err(Error::FailedToParseColorParams(text.to_owned()));
        },
    };
    let ghost toks = params_of(s@)->0;
    if bounds.len() != count {
        return Err(Error::FailedToParseColorParams(text.to_owned()));
    }
    let mut out: Vec<u8> = Vec::new();
    let mut i: usize = 0;
    while i < bounds.len()
        invariant
            s@ == text@,
            count == bounds@.len(),
            params_of(s@) == Some(toks),
            bounds@.len() == toks.len(),
            forall|j: int|
                0 <= j < toks.len() ==> #[trigger] bounds@[j].0 <= bounds@[j].1 <= s@.len()
                    && s@.subrange(bounds@[j].0 as int, bounds@[j].1 as int) == toks[j],
            i <= bounds@.len(),
            out@.len() == i,
            forall|j: int| 0 <= j < i ==> byte_value(#[trigger] toks[j]) == Some(out@[j]),
        decreases bounds@.len() - i,
    {
        let (lo, hi) = bounds[i];
        assert(bounds@[i as int].0 <= bounds@[i as int].1);
        match byte_in(&s, lo, hi) {
            Some(v) => {
                out.push(v);
            },
            None => {
                assert(byte_value(toks[i as int]) is None);
                return Err(Error::FailedToParseColorParams(text.to_owned()));
            },
        }
        i = i + 1;
    }
    assert(out@ =~= toks.map_values(|t: Seq<char>| byte_value(t)->0));
    Ok(out)
}

/// `s` without the `$` signs at its start.
pub open spec fn strip_dollars(s: Seq<char>) -> Seq<char>
    decreases s.len(),
{
    if s.len() > 0 && s[0] == '$' {
        strip_dollars(s.drop_first())
    } else {
        s
    }
}

/// A result of reading a color, seen through views.
pub open spec fn color_result(r: Result<Color, Error>) -> Result<ColorView, ErrorView> {
    match r {
        Ok(c) => Ok(c@),
        Err(e) => Err(e@),
    }
}

/// What the color text `s` reads as against `pal`, while the palette variables in
/// `visiting` are being read. (Those are distinct names of `pal`, so they are never as many
/// as its entries while one more is to be read: that bound ends the reading.)
pub open spec fn parse_model(s: Seq<char>, pal: Palette, visiting: Seq<Seq<char>>) -> Result<
    ColorView,
    ErrorView,
>
    decreases pal.entries@.len() - visiting.len(),
{
    match notation_of(s) {
        Some(n) => if byte_notation(n) {
            match byte_params(s, arity(n)) {
                Some(v) => Ok(byte_color(n, v)),
                None => Err(ErrorView::FailedToParseColorParams(s)),
            }
        } else {
            match params_of(s) {
                Some(t) => if t.len() == arity(n) && forall|i: int|
                    0 <= i < t.len() ==> float_text(#[trigger] t[i]) {
                    Ok(fractional_color(n, t))
                } else {
                    Err(ErrorView::FailedToParseColorParams(s))
                },
                None => Err(ErrorView::FailedToParseColorParams(s)),
            }
        },
        None => if s.len() > 0 && s[0] == '#' {
            if !hex_literal(s) {
                Err(ErrorView::FailedToParseColor(s))
            } else {
                match hex_rgba(s) {
                    Some(q) => Ok(ColorView::Rgba { red: q.0, green: q.1, blue: q.2, alpha: q.3 }),
                    None => match hex_rgb(s) {
                        Some(t) => Ok(ColorView::Rgba { red: t.0, green: t.1, blue: t.2, alpha: 255 }),
                        None => Err(ErrorView::FailedToParseColor(s)),
                    },
                }
            }
        } else if s.len() > 0 && s[0] == '$' {
            let name = strip_dollars(s);
            match pal.lookup(name) {
                None => Err(ErrorView::FailedToParseColor(s)),
                Some(v) => if visiting.contains(name) || visiting.len() >= pal.entries@.len() {
                    Err(ErrorView::CyclicReference(name))
                } else {
                    parse_model(v@, pal, visiting.push(name))
                },
            }
        } else {
            match named_color(s) {
                Some(t) => Ok(ColorView::Srgb { red: t.0, green: t.1, blue: t.2 }),
                None => Err(ErrorView::FailedToParseColor(s)),
            }
        },
    }
}

proof fn lemma_strip_dollars(s: Seq<char>, k: int)
    requires
        0 <= k <= s.len(),
        forall|j: int| 0 <= j < k ==> s[j] == '$',
        k == s.len() || s[k] != '$',
    ensures
        strip_dollars(s) == s.skip(k),
    decreases k,
{
    if k > 0 {
        lemma_strip_dollars(s.drop_first(), k - 1);
        assert(s.drop_first().skip(k - 1) =~= s.skip(k));
    } else {
        assert(s.skip(0) =~= s);
    }
}

fn arity_of(n: Notation) -> (r: usize)
    ensures
        r == arity(n),
{
    match n {
        Notation::Rgb | Notation::Frgb | Notation::Hsl | Notation::Hsv => 3,
        _ => 4,
    }
}

impl Color {
    /// Reads a color written as a functional literal, a hex code, a palette variable
    /// (`$name`) or a color keyword.
    pub fn from_str(s: &str, palette: &Palette) -> (r: Result<Color, Error>)
        ensures
            color_result(r) == parse_model(s@, *palette, seq![]),
    {
        let mut visiting: Vec<String> = Vec::new();
        assert(names_of(visiting@) =~= seq![]);
        Self::read(s, palette, &mut visiting)
    }

    fn read(s: &str, palette: &Palette, visiting: &mut Vec<String>) -> (r: Result<Color, Error>)
        requires
            names_of(old(visiting)@).no_duplicates(),
            forall|i: int| 0 <= i < old(visiting)@.len() ==> palette.lookup(#[trigger] names_of(old(visiting)@)[i]) is Some,
        ensures
            color_result(r) == parse_model(s@, *palette, names_of(old(visiting)@)),
            final(visiting)@ == old(visiting)@,
        decreases palette.entries@.len() - old(visiting)@.len(),
    {
        let chars = chars_of(s);
        match find_notation(&chars) {
            Some(n) => {
                if matches!(n, Notation::Argb | Notation::Rgba | Notation::Rgb) {
                    match parse_params(s, arity_of(n)) {
                        Ok(v) => {
                            let c = match n {
                                Notation::Argb => Color::Rgba {
                                    red: v[1],
                                    green: v[2],
                                    blue: v[3],
                                    alpha: v[0],
                                },
                                Notation::Rgba => Color::Rgba {
                                    red: v[0],
                                    green: v[1],
                                    blue: v[2],
                                    alpha: v[3],
                                },
                                _ => Color::Rgba { red: v[0], green: v[1], blue: v[2], alpha: 255 },
                            };
                            Ok(c)
                        },
                        Err(e) => Err(e),
                    }
                } else {
                    read_fractional(s, &chars, n)
                }
            },
            None => {
                if chars.len() > 0 && chars[0] == '#' {
                    if !hex_digits_follow(&chars) {
                        return Err(Error::FailedToParseColor(s.to_owned()));
                    }
                    proof {
                        assert forall|i: int| 0 <= i < s@.len() implies '\0' <= #[trigger] s@[i] <= '\u{7f}' by {
                            if i > 0 {
                                assert(hex_value(s@[i]) is Some);
                            }
                        }
                    }
                    match parse_hex_rgba(s) {
                        Some(q) => Ok(Color::Rgba { red: q.0, green: q.1, blue: q.2, alpha: q.3 }),
                        None => match parse_hex_rgb(s) {
                            Some(t) => Ok(Color::Rgba { red: t.0, green: t.1, blue: t.2, alpha: 255 }),
                            None => Err(Error::FailedToParseColor(s.to_owned())),
                        },
                    }
                } else if chars.len() > 0 && chars[0] == '$' {
                    let mut k: usize = 0;
                    while k < chars.len() && chars[k] == '$'
                        invariant
                            k <= chars@.len(),
                            forall|j: int| 0 <= j < k ==> chars@[j] == '$',
                        decreases chars@.len() - k,
                    {
                        k = k + 1;
                    }
                    proof {
                        lemma_strip_dollars(s@, k as int);
                    }
                    let name = s.substring_char(k, chars.len());
                    assert(name@ == strip_dollars(s@));
                    match palette.get(name) {
                        None => Err(Error::FailedToParseColor(s.to_owned())),
                        Some(v) => {
                            if listed(visiting, name) {
                                return Err(Error::CyclicReference(name.to_owned()));
                            }
                            let ghost before = visiting@;
                            visiting.push(name.to_owned());
                            assert(names_of(visiting@) =~= names_of(before).push(name@));
                            proof {
                                let now = names_of(visiting@);
                                assert forall|a: int, b: int| 0 <= a < b < now.len() implies now[a] != now[b] by {
                                    if b == now.len() - 1 {
                                        assert(now[a] == names_of(before)[a]);
                                    }
                                }
                                assert forall|j: int| 0 <= j < now.len() implies palette.lookup(#[trigger] now[j]) is Some by {
                                    if j < now.len() - 1 {
                                        assert(now[j] == names_of(before)[j]);
                                    }
                                }
                                crate::table::lemma_distinct_names_fit(*palette, now);
                            }
                            let r = Self::read(v.as_str(), palette, visiting);
                            visiting.pop();
                            assert(visiting@ =~= before);
                            r
                        },
                    }
                } else {
                    match lookup_named(s) {
                        Some(t) => Ok(Color::Srgb { red: t.0, green: t.1, blue: t.2 }),
                        None => Err(Error::FailedToParseColor(s.to_owned())),
                    }
                }
            },
        }
    }
}

/// Whether `s` is `#` and six or eight hexadecimal digits.
fn hex_digits_follow(s: &Vec<char>) -> (r: bool)
    ensures
        r == hex_literal(s@),
{
    if (s.len() != 7 && s.len() != 9) || s[0] != '#' {
        return false;
    }
    let mut i: usize = 1;
    while i < s.len()
        invariant
            1 <= i <= s@.len(),
            forall|j: int| 1 <= j < i ==> (#[trigger] hex_value(s@[j])) is Some,
        decreases s@.len() - i,
    {
        let c = s[i];
        if !(('0' <= c && c <= '9') || ('a' <= c && c <= 'f') || ('A' <= c && c <= 'F')) {
            assert(hex_value(s@[i as int]) is None);
            return false;
        }
        i = i + 1;
    }
    true
}

/// Reads a functional literal of a notation with fractional parameters.
fn read_fractional(s: &str, chars: &Vec<char>, n: Notation) -> (r: Result<Color, Error>)
    requires
        chars@ == s@,
        !byte_notation(n),
    ensures
        color_result(r) == (match params_of(s@) {
            Some(t) => if t.len() == arity(n) && forall|i: int|
                0 <= i < t.len() ==> float_text(#[trigger] t[i]) {
                Ok(fractional_color(n, t))
            } else {
                Err(ErrorView::FailedToParseColorParams(s@))
            },
            None => Err(ErrorView::FailedToParseColorParams(s@)),
        }),
{
    let bounds = match param_bounds(chars) {
        Some(b) => b,
        None => {
            return Err(Error::FailedToParseColorParams(s.to_owned()));
        },
    };
    let ghost toks = params_of(s@)->0;
    let count = arity_of(n);
    if bounds.len() != count {
        return Err(Error::FailedToParseColorParams(s.to_owned()));
    }
    let mut texts: Vec<String> = Vec::new();
    let mut i: usize = 0;
    while i < count
        invariant
            chars@ == s@,
            params_of(s@) == Some(toks),
            bounds@.len() == count,
            count == toks.len(),
            forall|j: int|
                0 <= j < toks.len() ==> #[trigger] bounds@[j].0 <= bounds@[j].1 <= s@.len()
                    && s@.subrange(bounds@[j].0 as int, bounds@[j].1 as int) == toks[j],
            i <= count,
            texts@.len() == i,
            forall|j: int| 0 <= j < i ==> (#[trigger] texts@[j])@ == toks[j] && float_text(toks[j]),
        decreases count - i,
    {
        let (lo, hi) = bounds[i];
        assert(bounds@[i as int].0 <= bounds@[i as int].1 <= s@.len());
        assert(s@.subrange(lo as int, hi as int) == toks[i as int]);
        if !float_in(chars, lo, hi) {
            return Err(Error::FailedToParseColorParams(s.to_owned()));
        }
        assert(float_text(toks[i as int]));
        let text = s.substring_char(lo, hi).to_owned();
        let ghost before = texts@;
        texts.push(text);
        proof {
            assert forall|j: int| 0 <= j < i + 1 implies (#[trigger] texts@[j])@ == toks[j]
                && float_text(toks[j]) by {
                if j < i {
                    assert(texts@[j] == before[j]);
                }
            }
        }
        i = i + 1;
    }
    let model = match n {
        Notation::Ahsl | Notation::Hsla | Notation::Hsl => Model::Hsl,
        Notation::Ahsv | Notation::Hsva | Notation::Hsv => Model::Hsv,
        _ => Model::Rgb,
    };
    proof {
        reveal_strlit("1");
        assert("1"@ =~= opaque());
    }
    let c = if count == 3 {
        Color::Fractional {
            model,
            first: texts[0].clone(),
            second: texts[1].clone(),
            third: texts[2].clone(),
            alpha: String::from_str("1"),
        }
    } else if matches!(n, Notation::Fargb | Notation::Ahsl | Notation::Ahsv) {
        Color::Fractional {
            model,
            first: texts[1].clone(),
            second: texts[2].clone(),
            third: texts[3].clone(),
            alpha: texts[0].clone(),
        }
    } else {
        Color::Fractional {
            model,
            first: texts[0].clone(),
            second: texts[1].clone(),
            third: texts[2].clone(),
            alpha: texts[3].clone(),
        }
    };
    proof {
        assert(texts@[0]@ == toks[0]);
        assert(texts@[1]@ == toks[1]);
        assert(texts@[2]@ == toks[2]);
        if count == 4 {
            assert(texts@[3]@ == toks[3]);
        }
    }
    assert(c@ == fractional_color(n, toks));
    Ok(c)
}

/// The name of an output format.
pub open spec fn format_name(f: Format) -> Seq<char> {
    match f {
        Format::Hex => "hex"@,
        Format::Hexa => "hexa"@,
        Format::Ahex => "ahex"@,
        Format::Rgb => "rgb"@,
        Format::Rgba => "rgba"@,
        Format::Argb => "argb"@,
        Format::Frgb => "frgb"@,
        Format::Frgba => "frgba"@,
        Format::Fargb => "fargb"@,
        Format::Hsl => "hsl"@,
        Format::Hsla => "hsla"@,
        Format::Ahsl => "ahsl"@,
        Format::Hsv => "hsv"@,
        Format::Hsva => "hsva"@,
        Format::Ahsv => "ahsv"@,
    }
}

/// The output format named `s`.
pub open spec fn format_named(s: Seq<char>) -> Option<Format> {
    if s == "hex"@ {
        Some(Format::Hex)
    } else if s == "hexa"@ {
        Some(Format::Hexa)
    } else if s == "ahex"@ {
        Some(Format::Ahex)
    } else if s == "rgb"@ {
        Some(Format::Rgb)
    } else if s == "rgba"@ {
        Some(Format::Rgba)
    } else if s == "argb"@ {
        Some(Format::Argb)
    } else if s == "frgb"@ {
        Some(Format::Frgb)
    } else if s == "frgba"@ {
        Some(Format::Frgba)
    } else if s == "fargb"@ {
        Some(Format::Fargb)
    } else if s == "hsl"@ {
        Some(Format::Hsl)
    } else if s == "hsla"@ {
        Some(Format::Hsla)
    } else if s == "ahsl"@ {
        Some(Format::Ahsl)
    } else if s == "hsv"@ {
        Some(Format::Hsv)
    } else if s == "hsva"@ {
        Some(Format::Hsva)
    } else if s == "ahsv"@ {
        Some(Format::Ahsv)
    } else {
        None
    }
}

/// Whether a format writes bytes.
pub open spec fn byte_format(f: Format) -> bool {
    match f {
        Format::Hex | Format::Hexa | Format::Ahex | Format::Rgb | Format::Rgba | Format::Argb => true,
        _ => false,
    }
}

/// The red, green, blue and alpha bytes of a color that has them.
pub open spec fn color_bytes(c: ColorView) -> Option<(u8, u8, u8, u8)> {
    match c {
        ColorView::Srgb { red, green, blue } => Some((red, green, blue, 255)),
        ColorView::Rgba { red, green, blue, alpha } => Some((red, green, blue, alpha)),
        ColorView::Fractional { .. } => None,
    }
}

/// The model that a format with fractional components writes in.
pub open spec fn format_model(f: Format) -> Model {
    match f {
        Format::Hsl | Format::Hsla | Format::Ahsl => Model::Hsl,
        Format::Hsv | Format::Hsva | Format::Ahsv => Model::Hsv,
        _ => Model::Rgb,
    }
}

/// Components `c` (three of the model, then alpha) written in the fractional format `f`:
/// three, or four with the alpha last, or four with the alpha first.
pub open spec fn fraction_text(f: Format, c: (Seq<char>, Seq<char>, Seq<char>, Seq<char>)) -> Seq<
    char,
> {
    let (x, y, z, a) = c;
    match f {
        Format::Frgb | Format::Hsl | Format::Hsv => x + comma() + y + comma() + z,
        Format::Frgba | Format::Hsla | Format::Hsva => x + comma() + y + comma() + z + comma() + a,
        _ => a + comma() + x + comma() + y + comma() + z,
    }
}

/// Whether `t` has the layout of format `f`, whatever the numbers in it.
pub open spec fn laid_out(f: Format, t: Seq<char>) -> bool {
    if byte_format(f) {
        exists|b: (u8, u8, u8, u8)| t == #[trigger] byte_text(f, b)
    } else {
        exists|c: (Seq<char>, Seq<char>, Seq<char>, Seq<char>)| t == #[trigger] fraction_text(f, c)
    }
}

/// The separator of decimal components.
pub open spec fn comma() -> Seq<char> {
    seq![',', ' ']
}

/// Bytes `b` (red, green, blue, alpha) written in the byte format `f`.
pub open spec fn byte_text(f: Format, b: (u8, u8, u8, u8)) -> Seq<char> {
    let (r, g, bl, a) = b;
    match f {
        Format::Hex => seq!['#'] + hex2(r) + hex2(g) + hex2(bl),
        Format::Hexa => seq!['#'] + hex2(r) + hex2(g) + hex2(bl) + hex2(a),
        Format::Ahex => seq!['#'] + hex2(a) + hex2(r) + hex2(g) + hex2(bl),
        Format::Rgb => decimal(r as nat) + comma() + decimal(g as nat) + comma() + decimal(
            bl as nat,
        ),
        Format::Rgba => decimal(r as nat) + comma() + decimal(g as nat) + comma() + decimal(
            bl as nat,
        ) + comma() + decimal(a as nat),
        Format::Argb => decimal(a as nat) + comma() + decimal(r as nat) + comma() + decimal(
            g as nat,
        ) + comma() + decimal(bl as nat),
        _ => seq![],
    }
}

impl Format {
    /// The output format named `name`.
    pub fn from_name(name: &str) -> (r: Option<Format>)
        ensures
            r == format_named(name@),
    {
        if same_text(name, "hex") {
            Some(Format::Hex)
        } else if same_text(name, "hexa") {
            Some(Format::Hexa)
        } else if same_text(name, "ahex") {
            Some(Format::Ahex)
        } else if same_text(name, "rgb") {
            Some(Format::Rgb)
        } else if same_text(name, "rgba") {
            Some(Format::Rgba)
        } else if same_text(name, "argb") {
            Some(Format::Argb)
        } else if same_text(name, "frgb") {
            Some(Format::Frgb)
        } else if same_text(name, "frgba") {
            Some(Format::Frgba)
        } else if same_text(name, "fargb") {
            Some(Format::Fargb)
        } else if same_text(name, "hsl") {
            Some(Format::Hsl)
        } else if same_text(name, "hsla") {
            Some(Format::Hsla)
        } else if same_text(name, "ahsl") {
            Some(Format::Ahsl)
        } else if same_text(name, "hsv") {
            Some(Format::Hsv)
        } else if same_text(name, "hsva") {
            Some(Format::Hsva)
        } else if same_text(name, "ahsv") {
            Some(Format::Ahsv)
        } else {
            None
        }
    }
}

/// Writes bytes `b` (red, green, blue, alpha) in the byte format `f`.
fn write_bytes(f: Format, b: (u8, u8, u8, u8)) -> (r: String)
    requires
        byte_format(f),
    ensures
        r@ == byte_text(f, b),
{
    let (red, green, blue, alpha) = b;
    proof {
        reveal_strlit("#");
        reveal_strlit(", ");
    }
    let mut out = String::new();
    match f {
        Format::Hex | Format::Hexa | Format::Ahex => {
            out.append("#");
            if matches!(f, Format::Ahex) {
                push_hex2(&mut out, alpha);
            }
            push_hex2(&mut out, red);
            push_hex2(&mut out, green);
            push_hex2(&mut out, blue);
            if matches!(f, Format::Hexa) {
                push_hex2(&mut out, alpha);
            }
        },
        _ => {
            if matches!(f, Format::Argb) {
                push_decimal(&mut out, alpha);
                out.append(", ");
            }
            push_decimal(&mut out, red);
            out.append(", ");
            push_decimal(&mut out, green);
            out.append(", ");
            push_decimal(&mut out, blue);
            if matches!(f, Format::Rgba) {
                out.append(", ");
                push_decimal(&mut out, alpha);
            }
        },
    }
    assert(out@ =~= byte_text(f, b));
    out
}

/// Writes components `c` in the fractional format `f`.
fn write_fraction(f: Format, c: (String, String, String, String)) -> (r: String)
    requires
        !byte_format(f),
    ensures
        r@ == fraction_text(f, (c.0@, c.1@, c.2@, c.3@)),
{
    let (x, y, z, a) = c;
    proof {
        reveal_strlit(", ");
    }
    let mut out = String::new();
    if matches!(f, Format::Fargb | Format::Ahsl | Format::Ahsv) {
        out.append(a.as_str());
        out.append(", ");
    }
    out.append(x.as_str());
    out.append(", ");
    out.append(y.as_str());
    out.append(", ");
    out.append(z.as_str());
    if matches!(f, Format::Frgba | Format::Hsla | Format::Hsva) {
        out.append(", ");
        out.append(a.as_str());
    }
    assert(out@ =~= fraction_text(f, (x@, y@, z@, a@)));
    out
}

impl Color {
    /// The red, green, blue and alpha bytes of a color that has them.
    pub fn bytes(&self) -> (r: Option<(u8, u8, u8, u8)>)
        ensures
            r == color_bytes(self@),
    {
        match self {
            Color::Srgb { red, green, blue } => Some((*red, *green, *blue, 255)),
            Color::Rgba { red, green, blue, alpha } => Some((*red, *green, *blue, *alpha)),
            Color::Fractional { .. } => None,
        }
    }

    /// Writes the color in `format`. The layout is the format's own; a color with bytes
    /// in a byte format is written here in full, and otherwise `arith` gives the numbers.
    pub fn render<A: Arithmetic>(&self, format: Format, arith: &A) -> (r: String)
        ensures
            laid_out(format, r@),
            byte_format(format) && color_bytes(self@) is Some ==> r@ == byte_text(
                format,
                color_bytes(self@)->0,
            ),
    {
        if matches!(
            format,
            Format::Hex | Format::Hexa | Format::Ahex | Format::Rgb | Format::Rgba | Format::Argb
        ) {
            let b = match self.bytes() {
                Some(b) => b,
                None => arith.to_bytes(self),
            };
            let r = write_bytes(format, b);
            assert(r@ == byte_text(format, b));
            r
        } else {
            let model = match format {
                Format::Hsl | Format::Hsla | Format::Ahsl => Model::Hsl,
                Format::Hsv | Format::Hsva | Format::Ahsv => Model::Hsv,
                _ => Model::Rgb,
            };
            let c = arith.to_components(self, model);
            let ghost v = (c.0@, c.1@, c.2@, c.3@);
            let r = write_fraction(format, c);
            assert(r@ == fraction_text(format, v));
            r
        }
    }

    /// Writes the color in the format named `format`.
    pub fn to_format<A: Arithmetic>(&self, format: &str, arith: &A) -> (r: Result<String, Error>)
        ensures
            match format_named(format@) {
                None => r matches Err(e) && e@ == ErrorView::FailedToParseFormat(format@),
                Some(f) => r matches Ok(t) && laid_out(f, t@) && (byte_format(f) && color_bytes(
                    self@,
                ) is Some ==> t@ == byte_text(f, color_bytes(self@)->0)),
            },
    {
        match Format::from_name(format) {
            Some(f) => Ok(self.render(f, arith)),
            None => Err(Error::FailedToParseFormat(format.to_owned())),
        }
    }
}

/// What reading a color text and writing it in a format comes to.
pub enum Outcome {
    /// The result, fixed by the text, the format and the palette.
    Exact(Result<Seq<char>, ErrorView>),
    /// Text in the layout of the format, with numbers that fractional arithmetic gives.
    LaidOut(Format),
}

/// Whether `r` is a result that `o` allows.
pub open spec fn admits(o: Outcome, r: Result<Seq<char>, ErrorView>) -> bool {
    match o {
        Outcome::Exact(x) => r == x,
        Outcome::LaidOut(f) => r matches Ok(t) && laid_out(f, t),
    }
}

/// What reading `raw` against `pal` and writing it in the format named `fmt` comes to.
pub open spec fn convert_model(raw: Seq<char>, fmt: Seq<char>, pal: Palette) -> Outcome {
    match parse_model(raw, pal, seq![]) {
        Err(e) => Outcome::Exact(Err(e)),
        Ok(c) => match format_named(fmt) {
            None => Outcome::Exact(Err(ErrorView::FailedToParseFormat(fmt))),
            Some(f) => if byte_format(f) && color_bytes(c) is Some {
                Outcome::Exact(Ok(byte_text(f, color_bytes(c)->0)))
            } else {
                Outcome::LaidOut(f)
            },
        },
    }
}

/// Reads the color text `src_color` against `palette` and writes it in the format named
/// `format`.
pub fn parse_format<A: Arithmetic>(src_color: &str, format: &str, palette: &Palette, arith: &A) -> (r:
    Result<String, Error>)
    ensures
        admits(convert_model(src_color@, format@, *palette), crate::error::text_result(r)),
{
    let color = match Color::from_str(src_color, palette) {
        Ok(c) => c,
        Err(e) => {
            return Err(e);
        },
    };
    color.to_format(format, arith)
}

/// The hex code `#RRGGBB` of red, green and blue bytes, upper case.
pub open spec fn hex_code(r: u8, g: u8, b: u8) -> Seq<char> {
    byte_text(Format::Hex, (r, g, b, 255))
}

proof fn lemma_hex2_field(x: u8)
    ensures
        hex_field(hex2(x)) == Some(x),
        hex_value(hex2(x)[0]) is Some,
        hex_value(hex2(x)[1]) is Some,
{
    lemma_hex_char_value(x as int / 16);
    lemma_hex_char_value(x as int % 16);
    let t = hex2(x);
    assert(t[0] != '+');
}

proof fn lemma_notation_from_none(s: Seq<char>, i: int)
    requires
        0 <= i <= 12,
        s.len() > 0,
        s[0] != 'a' && s[0] != 'r' && s[0] != 'f' && s[0] != 'h',
    ensures
        notation_from(s, i) is None,
    decreases 12 - i,
{
    if i < 12 {
        reveal_strlit("argb");
        reveal_strlit("rgba");
        reveal_strlit("rgb");
        reveal_strlit("fargb");
        reveal_strlit("frgba");
        reveal_strlit("frgb");
        reveal_strlit("ahsl");
        reveal_strlit("hsla");
        reveal_strlit("hsl");
        reveal_strlit("ahsv");
        reveal_strlit("hsva");
        reveal_strlit("hsv");
        let p = notation_name(notation_at(i)).push('(');
        if p.len() <= s.len() && s.take(p.len() as int) == p {
            assert(s.take(p.len() as int)[0] == s[0]);
        }
        lemma_notation_from_none(s, i + 1);
    }
}

/// No functional notation opens a text whose first character starts none of their names,
/// such as a hex code or a palette variable.
pub proof fn lemma_no_notation(s: Seq<char>)
    requires
        s.len() > 0,
        s[0] != 'a' && s[0] != 'r' && s[0] != 'f' && s[0] != 'h',
    ensures
        notation_of(s) is None,
{
    lemma_notation_from_none(s, 0);
}

/// Reading the hex code of any red, green and blue bytes and writing it as `hex` gives the
/// same code back.
pub proof fn lemma_hex_round_trip(r: u8, g: u8, b: u8, pal: Palette)
    ensures
        convert_model(hex_code(r, g, b), "hex"@, pal) == Outcome::Exact(
            Ok::<Seq<char>, ErrorView>(hex_code(r, g, b)),
        ),
{
    let s = hex_code(r, g, b);
    assert(s.len() == 7);
    assert(s[0] == '#');
    lemma_no_notation(s);
    lemma_hex2_field(r);
    lemma_hex2_field(g);
    lemma_hex2_field(b);
    let c = hex_digits(s);
    assert(c =~= hex2(r) + hex2(g) + hex2(b));
    assert(c.subrange(0, 2) =~= hex2(r));
    assert(c.subrange(2, 4) =~= hex2(g));
    assert(c.subrange(4, 6) =~= hex2(b));
    assert(hex_literal(s)) by {
        assert forall|i: int| 1 <= i < s.len() implies (#[trigger] hex_value(s[i])) is Some by {
            if i == 1 || i == 2 {
                assert(s[i] == hex2(r)[i - 1]);
            } else if i == 3 || i == 4 {
                assert(s[i] == hex2(g)[i - 3]);
            } else {
                assert(s[i] == hex2(b)[i - 5]);
            }
        }
    }
    assert(hex_rgba(s) is None);
    assert(hex_rgb(s) == Some((r, g, b)));
    assert(parse_model(s, pal, seq![]) == Ok::<ColorView, ErrorView>(
        ColorView::Rgba { red: r, green: g, blue: b, alpha: 255 },
    ));
    assert(format_named("hex"@) == Some(Format::Hex));
}

/// Fills the template `src`: the markers between `prefix` and `suffix` are replaced by
/// colors of `palette`, as `replace_colors` does.
pub fn parse_text<A: Arithmetic>(
    src: &str,
    prefix: &str,
    suffix: &str,
    palette: &Palette,
    arith: &A,
) -> (r: Result<String, Error>)
    requires
        prefix@.len() > 0,
        suffix@.len() > 0,
    ensures
        exists|answers: Seq<Result<Seq<char>, ErrorView>>|
            crate::parse::fill(src@, prefix@, suffix@, *palette, 0, answers) == Some(
                crate::error::text_result(r),
            ),
{
    crate::parse::replace_colors(src, prefix, suffix, palette, arith)
}

} // verus!
