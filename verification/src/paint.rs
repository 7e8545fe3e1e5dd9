//! Terminal escape codes for styled text, as the `colored` crate writes them.

use crate::styles::{Color, Style, StyleView, Styles};
use colored::Color as TermColor;
use colored::ColoredString;
use colored::Style as TermStyle;
use colored::Styles as TermStyles;
use vstd::prelude::*;
use vstd::std_specs::convert::FromSpecImpl;

verus! {

/// `colored::Color`, with its variants: the same sixteen names and the
/// triple of channels.
#[verifier::external_type_specification]
pub struct ExTermColor(TermColor);

/// `colored::Styles`, with its variants: one for each decoration, and one
/// for none.
#[verifier::external_type_specification]
pub struct ExTermStyles(TermStyles);

/// `colored::Style`, a set of decorations. Nothing is read from it.
#[verifier::external_type_specification]
#[verifier::external_body]
pub struct ExTermStyle(TermStyle);

impl From<Color> for TermColor {
    fn from(value: Color) -> (term: TermColor) {
        match value {
            Color::Black => TermColor::Black,
            Color::Red => TermColor::Red,
            Color::Green => TermColor::Green,
            Color::Yellow => TermColor::Yellow,
            Color::Blue => TermColor::Blue,
            Color::Magenta => TermColor::Magenta,
            Color::Cyan => TermColor::Cyan,
            Color::White => TermColor::White,
            Color::BrightBlack => TermColor::BrightBlack,
            Color::BrightRed => TermColor::BrightRed,
            Color::BrightGreen => TermColor::BrightGreen,
            Color::BrightYellow => TermColor::BrightYellow,
            Color::BrightBlue => TermColor::BrightBlue,
            Color::BrightMagenta => TermColor::BrightMagenta,
            Color::BrightCyan => TermColor::BrightCyan,
            Color::BrightWhite => TermColor::BrightWhite,
            Color::TrueColor { r, g, b } => TermColor::TrueColor { r, g, b },
        }
    }
}

impl FromSpecImpl<Color> for TermColor {
    open spec fn obeys_from_spec() -> bool {
        true
    }

    open spec fn from_spec(value: Color) -> TermColor {
        term_color(value)
    }
}

/// The color of the terminal library that stands for `color`: the one of
/// the same name, or of the same three channels.
pub open spec fn term_color(color: Color) -> TermColor {
    match color {
        Color::Black => TermColor::Black,
        Color::Red => TermColor::Red,
        Color::Green => TermColor::Green,
        Color::Yellow => TermColor::Yellow,
        Color::Blue => TermColor::Blue,
        Color::Magenta => TermColor::Magenta,
        Color::Cyan => TermColor::Cyan,
        Color::White => TermColor::White,
        Color::BrightBlack => TermColor::BrightBlack,
        Color::BrightRed => TermColor::BrightRed,
        Color::BrightGreen => TermColor::BrightGreen,
        Color::BrightYellow => TermColor::BrightYellow,
        Color::BrightBlue => TermColor::BrightBlue,
        Color::BrightMagenta => TermColor::BrightMagenta,
        Color::BrightCyan => TermColor::BrightCyan,
        Color::BrightWhite => TermColor::BrightWhite,
        Color::TrueColor { r, g, b } => TermColor::TrueColor { r, g, b },
    }
}

impl From<Styles> for TermStyles {
    fn from(value: Styles) -> (term: TermStyles) {
        match value {
            Styles::Bold => TermStyles::Bold,
            Styles::Dimmed => TermStyles::Dimmed,
            Styles::Underline => TermStyles::Underline,
            Styles::Reversed => TermStyles::Reversed,
            Styles::Italic => TermStyles::Italic,
            Styles::Blink => TermStyles::Blink,
            Styles::Hidden => TermStyles::Hidden,
            Styles::Strikethrough => TermStyles::Strikethrough,
        }
    }
}

impl FromSpecImpl<Styles> for TermStyles {
    open spec fn obeys_from_spec() -> bool {
        true
    }

    open spec fn from_spec(value: Styles) -> TermStyles {
        term_decoration(value)
    }
}

/// The decoration of the terminal library that stands for `decoration`: the
/// one of the same name.
pub open spec fn term_decoration(decoration: Styles) -> TermStyles {
    match decoration {
        Styles::Bold => TermStyles::Bold,
        Styles::Dimmed => TermStyles::Dimmed,
        Styles::Underline => TermStyles::Underline,
        Styles::Reversed => TermStyles::Reversed,
        Styles::Italic => TermStyles::Italic,
        Styles::Blink => TermStyles::Blink,
        Styles::Hidden => TermStyles::Hidden,
        Styles::Strikethrough => TermStyles::Strikethrough,
    }
}

/// What `colored` writes for text with decorations and colors while colors
/// are switched on: an escape sequence for them, the text, and the reset
/// sequence. The order and number of `decorations` make no difference, and
/// `truecolor` says whether the terminal is taken to show 24-bit colors.
pub uninterp spec fn escaped(
    text: Seq<char>,
    decorations: Seq<TermStyles>,
    foreground: Option<TermColor>,
    background: Option<TermColor>,
    truecolor: bool,
) -> Seq<char>;

/// `colored::ColoredString` written through its `Display`. The contract
/// claims that text without decoration and without color comes back
/// unchanged, and that other text comes back either unchanged, where the
/// process has colors switched off, or as [`escaped`]. Whether colors are
/// on, and whether 24-bit colors are, is the environment's choice.
#[verifier::external_body]
fn paint(
    text: &str,
    decorations: Vec<TermStyles>,
    foreground: Option<TermColor>,
    background: Option<TermColor>,
) -> (painted: String)
    ensures
        decorations@.len() == 0 && foreground is None && background is None ==> painted@
            == text@,
        painted@ == text@ || exists|truecolor: bool|
            painted@ == escaped(text@, decorations@, foreground, background, truecolor),
{
    let mut colored = ColoredString::from(text);
    colored.style = decorations.into_iter().collect();
    colored.fgcolor = foreground;
    colored.bgcolor = background;
    colored.to_string()
}

/// The decorations of the terminal library that stand for `decorations`.
pub open spec fn term_decorations(decorations: Seq<Styles>) -> Seq<TermStyles> {
    decorations.map_values(|decoration: Styles| term_decoration(decoration))
}

/// The color of the terminal library that stands for `color`, if there is one.
pub open spec fn term_color_of(color: Option<Color>) -> Option<TermColor> {
    match color {
        Some(color) => Some(term_color(color)),
        None => None,
    }
}

/// Whether `painted` is text in a style as the terminal library writes it:
/// the bare text where the style is plain or colors are off, and else the
/// text within the escape sequences of exactly that style.
pub open spec fn shows(painted: Seq<char>, text: Seq<char>, style: StyleView) -> bool {
    &&& style.is_plain() ==> painted == text
    &&& painted == text || exists|truecolor: bool|
        painted == escaped(
            text,
            term_decorations(style.styles),
            term_color_of(style.foreground),
            term_color_of(style.background),
            truecolor,
        )
}

/// The text as the terminal library writes it in `style`: within the escape
/// codes of the decorations and colors of `style` where colors are on, and
/// bare where they are off or the style is plain.
pub fn encode(text: &str, style: &Style) -> (painted: String)
    ensures
        shows(painted@, text@, style@),
{
    let mut decorations: Vec<TermStyles> = Vec::new();
    let mut i: usize = 0;
    while i < style.styles.len()
        invariant
            i <= style.styles.len(),
            decorations@ == term_decorations(style.styles@.take(i as int)),
        decreases style.styles.len() - i,
    {
        decorations.push(TermStyles::from(style.styles[i]));
        assert(style.styles@.take(i + 1) == style.styles@.take(i as int).push(style.styles@[i as int]));
        i += 1;
    }
    assert(style.styles@.take(i as int) == style.styles@);
    let foreground = match style.foreground {
        Some(color) => Some(TermColor::from(color)),
        None => None,
    };
    let background = match style.background {
        Some(color) => Some(TermColor::from(color)),
        None => None,
    };
    assert(foreground == term_color_of(style.foreground));
    assert(background == term_color_of(style.background));
    let painted = paint(text, decorations, foreground, background);
    proof {
        if painted@ != text@ {
            let truecolor = choose|truecolor: bool|
                painted@ == escaped(text@, decorations@, foreground, background, truecolor);
            assert(painted@ == escaped(
                text@,
                term_decorations(style@.styles),
                term_color_of(style@.foreground),
                term_color_of(style@.background),
                truecolor,
            ));
        }
    }
    painted
}

} // verus!
