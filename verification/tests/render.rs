use colored_markup::markup::MarkupError;
use colored_markup::render::join;
use colored_markup::styles::{Color, Style, Styles};
use colored_markup::stylesheet::StyleSheet;
use colored_markup::Styled;

#[test]
fn test_format_markup() {
    colored::control::set_override(true);
    let stylesheet = StyleSheet::parse("red { foreground: red }").unwrap();
    let s = format!("Mode: <red>mode</red>");
    let result = stylesheet.render(&s).unwrap();
    assert_eq!(result, "Mode: \u{1b}[31mmode\u{1b}[0m");
}

#[test]
fn test_styled() {
    colored::control::set_override(true);
    let stylesheet: StyleSheet = StyleSheet::parse("red { foreground: red }").unwrap();
    let result = "Mode: <red>mode</red>".styled(&stylesheet);
    assert_eq!(result, "Mode: \u{1b}[31mmode\u{1b}[0m");
}

#[test]
fn test_styled_2() {
    colored::control::set_override(true);
    let stylesheet: StyleSheet = StyleSheet::parse("red { foreground: red }").unwrap();
    let result = "Mode: <red>mode</red>".to_string().styled(&stylesheet);
    assert_eq!(result, "Mode: \u{1b}[31mmode\u{1b}[0m");
}

#[test]
fn test_stylesheet_new() {
    let styles = vec![("alert", vec![Styles::Bold], Some(Color::Red), None)];
    let expectation = StyleSheet::new(&styles);
    assert_eq!(StyleSheet::new(&styles), expectation);
}

#[test]
fn test_stylesheet() {
    let styles = vec![("alert", Style::new(None, Some(Color::Red), None))];
    let expectation = StyleSheet::new_internal(&styles);
    assert_eq!(
        StyleSheet::parse("alert{foreground:red}").unwrap(),
        expectation
    );
}

#[test]
fn test_no_styles_template() {
    let template = StyleSheet::new(&[]);
    let result = template.render("Hello <bold>World</bold><em></em>!");
    assert_eq!(result.unwrap(), "Hello World!");
}

#[test]
fn unmatched_closing_tag_is_an_error() {
    let sheet = StyleSheet::new(&[]);
    assert_eq!(sheet.render("</x>"), Err(MarkupError::UnmatchedClosingTag));
}

#[test]
fn markup_without_tags_comes_back_unchanged() {
    colored::control::set_override(true);
    let sheet = StyleSheet::parse("b { styles: bold } red { foreground: red }").unwrap();
    for text in ["", "plain", "1 < 2 > 0", "<not a tag>", "ünï <cödé/>"] {
        assert_eq!(sheet.render(text).unwrap(), text);
    }
}

#[test]
fn only_a_foreground() {
    colored::control::set_override(true);
    let sheet = StyleSheet::parse("red{foreground:red}").unwrap();
    assert_eq!(sheet.render("<red>x</red>").unwrap(), "\u{1b}[31mx\u{1b}[0m");
}

#[test]
fn inner_foreground_overrides_outer() {
    colored::control::set_override(true);
    let sheet = StyleSheet::new(&[
        ("outer", vec![], Some(Color::Yellow), None),
        ("inner", vec![], Some(Color::Red), None),
    ]);
    assert_eq!(
        sheet.render("<outer>A<inner>B</inner>C</outer>").unwrap(),
        "\u{1b}[33mA\u{1b}[0m\u{1b}[31mB\u{1b}[0m\u{1b}[33mC\u{1b}[0m"
    );
}

#[test]
fn inner_tag_without_color_keeps_the_outer_color() {
    colored::control::set_override(true);
    let sheet = StyleSheet::new(&[
        ("outer", vec![], Some(Color::Yellow), Some(Color::Blue)),
        ("inner", vec![Styles::Bold], None, None),
    ]);
    assert_eq!(
        sheet.render("<outer><inner>B</inner></outer>").unwrap(),
        "\u{1b}[1;44;33mB\u{1b}[0m"
    );
}

#[test]
fn decorations_accumulate() {
    colored::control::set_override(true);
    let sheet = StyleSheet::new(&[
        ("outer", vec![Styles::Underline], None, None),
        ("inner", vec![Styles::Bold], None, None),
    ]);
    assert_eq!(
        sheet.render("<outer>A<inner>B</inner></outer>").unwrap(),
        "\u{1b}[4mA\u{1b}[0m\u{1b}[1;4mB\u{1b}[0m"
    );
    let runs = sheet.render_to_colored_string("<outer>A<inner>B</inner></outer>").unwrap();
    assert_eq!(runs.len(), 2);
    assert_eq!(runs[0].text, "A");
    assert_eq!(runs[0].style, Style::new(Some(vec![Styles::Underline]), None, None));
    assert_eq!(runs[1].text, "B");
    assert_eq!(
        runs[1].style,
        Style::new(Some(vec![Styles::Underline, Styles::Bold]), None, None)
    );
}

#[test]
fn a_decoration_named_twice_is_listed_twice() {
    let sheet = StyleSheet::parse("b { styles: bold }").unwrap();
    let runs = sheet.render_to_colored_string("<b><b>x</b></b>").unwrap();
    assert_eq!(runs[0].style, Style::new(Some(vec![Styles::Bold, Styles::Bold]), None, None));
}

#[test]
fn unknown_tags_change_nothing() {
    colored::control::set_override(true);
    let sheet = StyleSheet::parse("red { foreground: red }").unwrap();
    assert_eq!(
        sheet.render("<x>a<red>b<y>c</y></red></x>").unwrap(),
        "a\u{1b}[31mb\u{1b}[0m\u{1b}[31mc\u{1b}[0m"
    );
}

#[test]
fn a_closing_tag_closes_whatever_is_open() {
    colored::control::set_override(true);
    let sheet = StyleSheet::parse("a { foreground: red } b { foreground: blue }").unwrap();
    assert_eq!(
        sheet.render("<a>x</b>y").unwrap(),
        "\u{1b}[31mx\u{1b}[0my"
    );
}

#[test]
fn tags_left_open_are_no_error() {
    colored::control::set_override(true);
    let sheet = StyleSheet::parse("a { styles: italic }").unwrap();
    assert_eq!(sheet.render("<a>x").unwrap(), "\u{1b}[3mx\u{1b}[0m");
}

#[test]
fn a_closing_tag_too_many_is_an_error_wherever_it_stands() {
    let sheet = StyleSheet::parse("a { styles: italic }").unwrap();
    assert_eq!(sheet.render("<a>x</a></a>y"), Err(MarkupError::UnmatchedClosingTag));
    assert_eq!(sheet.render("x</a><a>"), Err(MarkupError::UnmatchedClosingTag));
    assert!(sheet.render_to_colored_string("</a>").is_err());
}

#[test]
fn reset_sequences_in_styled_text_are_followed_by_the_style() {
    colored::control::set_override(true);
    let sheet = StyleSheet::parse("red { foreground: red }").unwrap();
    assert_eq!(
        sheet.render("<red>a\u{1b}[0mb</red>").unwrap(),
        "\u{1b}[31ma\u{1b}[0m\u{1b}[31mb\u{1b}[0m"
    );
}

#[test]
fn balanced_markup_leaves_nothing_open() {
    let sheet = StyleSheet::parse("a { styles: italic } b { foreground: blue }").unwrap();
    for markup in ["", "x", "<a>x</a>", "<a><b>x</b>y</a><c></c>", "<a></a><b></b>"] {
        assert!(colored_markup::markup::Markup::parse(markup).unwrap().is_valid());
        assert!(sheet.render(markup).is_ok());
        let one_more = format!("{}</a>", markup);
        assert_eq!(sheet.render(&one_more), Err(MarkupError::UnmatchedClosingTag));
    }
    assert!(sheet.render("<a><b>x</b>y</a><c></a>").is_ok());
}

#[test]
fn pieces_are_joined_in_order() {
    assert_eq!(join(&vec![]), "");
    assert_eq!(join(&vec!["a".to_string()]), "a");
    assert_eq!(
        join(&vec!["a".to_string(), "".to_string(), "\u{1b}[1mb\u{1b}[0m".to_string(), "ç".to_string()]),
        "a\u{1b}[1mb\u{1b}[0mç"
    );
}
