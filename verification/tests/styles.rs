use colored::Colorize;
use colored_markup::paint::encode;
use colored_markup::styles::{Color, Style, Styles};

fn only(decoration: Styles) -> Style {
    Style::new(Some(vec![decoration]), None, None)
}

#[test]
fn test_styles() {
    colored::control::set_override(true);
    assert_eq!(encode("hello", &only(Styles::Bold)), "hello".bold().to_string());
    assert_eq!(encode("hello", &only(Styles::Dimmed)), "hello".dimmed().to_string());
    assert_eq!(encode("hello", &only(Styles::Underline)), "hello".underline().to_string());
    assert_eq!(encode("hello", &only(Styles::Reversed)), "hello".reversed().to_string());
    assert_eq!(encode("hello", &only(Styles::Italic)), "hello".italic().to_string());
    assert_eq!(encode("hello", &only(Styles::Blink)), "hello".blink().to_string());
    assert_eq!(encode("hello", &only(Styles::Hidden)), "hello".hidden().to_string());
    assert_eq!(
        encode("hello", &only(Styles::Strikethrough)),
        "hello".strikethrough().to_string()
    );
}

#[test]
fn every_decoration_has_its_code() {
    colored::control::set_override(true);
    assert_eq!(encode("x", &only(Styles::Bold)), "\u{1b}[1mx\u{1b}[0m");
    assert_eq!(encode("x", &only(Styles::Dimmed)), "\u{1b}[2mx\u{1b}[0m");
    assert_eq!(encode("x", &only(Styles::Italic)), "\u{1b}[3mx\u{1b}[0m");
    assert_eq!(encode("x", &only(Styles::Underline)), "\u{1b}[4mx\u{1b}[0m");
    assert_eq!(encode("x", &only(Styles::Blink)), "\u{1b}[5mx\u{1b}[0m");
    assert_eq!(encode("x", &only(Styles::Reversed)), "\u{1b}[7mx\u{1b}[0m");
    assert_eq!(encode("x", &only(Styles::Hidden)), "\u{1b}[8mx\u{1b}[0m");
    assert_eq!(encode("x", &only(Styles::Strikethrough)), "\u{1b}[9mx\u{1b}[0m");
}

#[test]
fn every_palette_color_has_its_codes() {
    colored::control::set_override(true);
    let colors = [
        (Color::Black, 30),
        (Color::Red, 31),
        (Color::Green, 32),
        (Color::Yellow, 33),
        (Color::Blue, 34),
        (Color::Magenta, 35),
        (Color::Cyan, 36),
        (Color::White, 37),
        (Color::BrightBlack, 90),
        (Color::BrightRed, 91),
        (Color::BrightGreen, 92),
        (Color::BrightYellow, 93),
        (Color::BrightBlue, 94),
        (Color::BrightMagenta, 95),
        (Color::BrightCyan, 96),
        (Color::BrightWhite, 97),
    ];
    for (color, code) in colors {
        assert_eq!(
            encode("x", &Style::new(None, Some(color), None)),
            format!("\u{1b}[{}mx\u{1b}[0m", code)
        );
        assert_eq!(
            encode("x", &Style::new(None, None, Some(color))),
            format!("\u{1b}[{}mx\u{1b}[0m", code + 10)
        );
    }
}

#[test]
fn true_color_goes_to_the_terminal_library_as_it_is() {
    colored::control::set_override(true);
    let style = Style::new(None, Some(Color::TrueColor { r: 1, g: 2, b: 3 }), None);
    assert_eq!(encode("x", &style), "x".truecolor(1, 2, 3).to_string());
    let style = Style::new(None, None, Some(Color::TrueColor { r: 250, g: 128, b: 114 }));
    assert_eq!(encode("x", &style), "x".on_truecolor(250, 128, 114).to_string());
}

#[test]
fn decorations_and_colors_together() {
    colored::control::set_override(true);
    let style = Style::new(
        Some(vec![Styles::Underline, Styles::Bold, Styles::Bold]),
        Some(Color::Red),
        Some(Color::Yellow),
    );
    assert_eq!(encode("x", &style), "\u{1b}[1;4;43;31mx\u{1b}[0m");
    assert_eq!(encode("x", &style), "x".underline().bold().red().on_yellow().to_string());
}

#[test]
fn plain_text_is_left_alone() {
    colored::control::set_override(true);
    assert_eq!(encode("hello", &Style::default()), "hello");
    assert_eq!(encode("", &Style::default()), "");
    assert_eq!(encode("<b>\u{1b}[0m", &Style::new(None, None, None)), "<b>\u{1b}[0m");
}

#[test]
fn style_new_takes_no_list_for_none() {
    let style = Style::new(None, Some(Color::Red), Some(Color::Blue));
    assert_eq!(style.styles, vec![]);
    assert_eq!(style.foreground, Some(Color::Red));
    assert_eq!(style.background, Some(Color::Blue));
    assert_eq!(Style::new(None, None, None), Style::default());
}

#[test]
fn merge_lays_the_inner_style_over_the_outer() {
    let outer = Style::new(Some(vec![Styles::Underline]), Some(Color::Yellow), Some(Color::Black));
    let inner = Style::new(Some(vec![Styles::Bold]), Some(Color::Red), None);
    assert_eq!(
        outer.merge(inner),
        Style::new(
            Some(vec![Styles::Underline, Styles::Bold]),
            Some(Color::Red),
            Some(Color::Black)
        )
    );
    assert_eq!(outer.merge(Style::default()), outer);
    assert_eq!(Style::default().merge(outer.clone()), outer);
}

#[test]
fn resolve_folds_the_stack_from_the_outside_in() {
    let outer = Style::new(Some(vec![Styles::Underline]), Some(Color::Yellow), Some(Color::Black));
    let middle = Style::new(Some(vec![Styles::Underline]), None, Some(Color::White));
    let inner = Style::new(Some(vec![Styles::Bold]), Some(Color::Red), None);
    let stack = vec![outer.clone(), middle.clone(), inner.clone()];
    assert_eq!(
        Style::resolve(&stack),
        Style::new(
            Some(vec![Styles::Underline, Styles::Underline, Styles::Bold]),
            Some(Color::Red),
            Some(Color::White)
        )
    );
    assert_eq!(Style::resolve(&stack), outer.merge(middle).merge(inner));
    assert_eq!(Style::resolve(&vec![]), Style::default());
}

#[test]
fn styles_differ_by_order_of_decorations() {
    let one = Style::new(Some(vec![Styles::Bold, Styles::Italic]), None, None);
    let two = Style::new(Some(vec![Styles::Italic, Styles::Bold]), None, None);
    assert_ne!(one, two);
    assert!(one.same(&one.clone()));
    assert!(!one.same(&two));
}
