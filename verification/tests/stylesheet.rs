use colored_markup::styles::{Color, Style, Styles};
use colored_markup::stylesheet::StyleSheet;
use colored_markup::stylesheet_parse::{parse, ParseError};

fn rule(name: &str, styles: Vec<Styles>, fg: Option<Color>, bg: Option<Color>) -> (&str, Style) {
    (name, Style::new(Some(styles), fg, bg))
}

#[test]
fn parses_all_three_declarations() {
    let rules = parse("alert { foreground: red; background: bright-blue; styles: bold underline }");
    assert_eq!(
        rules,
        Ok(vec![rule(
            "alert",
            vec![Styles::Bold, Styles::Underline],
            Some(Color::Red),
            Some(Color::BrightBlue)
        )])
    );
}

#[test]
fn declarations_may_come_in_any_order() {
    let rules = parse("x{styles:italic;background:cyan;foreground:white}");
    assert_eq!(
        rules,
        Ok(vec![rule("x", vec![Styles::Italic], Some(Color::White), Some(Color::Cyan))])
    );
}

#[test]
fn semicolons_are_optional() {
    let rules = parse("x { foreground: green background: black styles: blink hidden }");
    assert_eq!(
        rules,
        Ok(vec![rule(
            "x",
            vec![Styles::Blink, Styles::Hidden],
            Some(Color::Green),
            Some(Color::Black)
        )])
    );
}

#[test]
fn decorations_end_at_the_next_key() {
    let rules = parse("x { styles: bold dimmed foreground: blue }");
    assert_eq!(
        rules,
        Ok(vec![rule("x", vec![Styles::Bold, Styles::Dimmed], Some(Color::Blue), None)])
    );
}

#[test]
fn white_space_between_tokens_does_not_count() {
    let spread = parse("\n\talert\r\n{\n  foreground\t:\n red\n ;\n}\n\n");
    let tight = parse("alert{foreground:red;}");
    assert_eq!(spread, Ok(vec![rule("alert", vec![], Some(Color::Red), None)]));
    assert_eq!(spread, tight);
}

#[test]
fn empty_block_is_a_rule_without_effect() {
    assert_eq!(parse("quiet {}"), Ok(vec![rule("quiet", vec![], None, None)]));
    assert_eq!(parse("quiet {}").unwrap()[0].1, Style::default());
}

#[test]
fn several_rules_keep_their_order() {
    let rules = parse("a { foreground: red } b-2 { styles: reversed } c {}");
    assert_eq!(
        rules,
        Ok(vec![
            rule("a", vec![], Some(Color::Red), None),
            rule("b-2", vec![Styles::Reversed], None, None),
            rule("c", vec![], None, None),
        ])
    );
}

#[test]
fn every_decoration_has_its_name() {
    let rules = parse(
        "all { styles: bold dimmed underline reversed italic blink hidden strikethrough }",
    );
    assert_eq!(
        rules,
        Ok(vec![rule(
            "all",
            vec![
                Styles::Bold,
                Styles::Dimmed,
                Styles::Underline,
                Styles::Reversed,
                Styles::Italic,
                Styles::Blink,
                Styles::Hidden,
                Styles::Strikethrough,
            ],
            None,
            None
        )])
    );
}

#[test]
fn every_palette_color_has_its_name() {
    let names = [
        ("black", Color::Black),
        ("red", Color::Red),
        ("green", Color::Green),
        ("yellow", Color::Yellow),
        ("blue", Color::Blue),
        ("magenta", Color::Magenta),
        ("cyan", Color::Cyan),
        ("white", Color::White),
        ("bright-black", Color::BrightBlack),
        ("bright-red", Color::BrightRed),
        ("bright-green", Color::BrightGreen),
        ("bright-yellow", Color::BrightYellow),
        ("bright-blue", Color::BrightBlue),
        ("bright-magenta", Color::BrightMagenta),
        ("bright-cyan", Color::BrightCyan),
        ("bright-white", Color::BrightWhite),
    ];
    for (name, color) in names {
        let source = format!("x {{ foreground: {} }}", name);
        assert_eq!(parse(&source), Ok(vec![rule("x", vec![], Some(color), None)]));
    }
}

#[test]
fn color_names_ignore_case() {
    assert_eq!(
        parse("x { foreground: RED; background: Bright-Red }"),
        Ok(vec![rule("x", vec![], Some(Color::Red), Some(Color::BrightRed))])
    );
}

#[test]
fn hexadecimal_colors() {
    assert_eq!(
        parse("x { foreground: #ff8000; background: #0A1b2C }"),
        Ok(vec![rule(
            "x",
            vec![],
            Some(Color::TrueColor { r: 255, g: 128, b: 0 }),
            Some(Color::TrueColor { r: 10, g: 27, b: 44 })
        )])
    );
}

#[test]
fn a_repeated_declaration_replaces_the_earlier_one() {
    assert_eq!(
        parse("x { foreground: red; styles: bold; foreground: blue; styles: italic }"),
        Ok(vec![rule("x", vec![Styles::Italic], Some(Color::Blue), None)])
    );
}

#[test]
fn later_rule_of_a_name_wins() {
    let sheet = StyleSheet::parse("x { foreground: red; styles: bold } x { foreground: blue }")
        .unwrap();
    let expectation = StyleSheet::new(&[("x", vec![], Some(Color::Blue), None)]);
    assert_eq!(sheet, expectation);
    assert_eq!(sheet.get("x"), Some(&Style::new(None, Some(Color::Blue), None)));
}

#[test]
fn later_entry_of_a_name_wins_in_new() {
    let sheet = StyleSheet::new(&[
        ("x", vec![Styles::Bold], Some(Color::Red), None),
        ("y", vec![], None, None),
        ("x", vec![], None, Some(Color::Blue)),
    ]);
    assert_eq!(sheet.get("x"), Some(&Style::new(None, None, Some(Color::Blue))));
    assert_eq!(sheet.get("y"), Some(&Style::default()));
    assert_eq!(sheet.get("z"), None);
}

#[test]
fn stylesheets_are_equal_whatever_the_order_of_their_rules() {
    let one = StyleSheet::parse("a { foreground: red } b { styles: bold }").unwrap();
    let two = StyleSheet::parse("b { styles: bold } a { foreground: red }").unwrap();
    let three = StyleSheet::parse("a { foreground: red } b { styles: dimmed }").unwrap();
    let four = StyleSheet::parse("a { foreground: red }").unwrap();
    assert_eq!(one, two);
    assert_ne!(one, three);
    assert_ne!(one, four);
    assert_ne!(four, one);
}

#[test]
fn parsing_twice_gives_the_same_stylesheet() {
    let source = "info { foreground: yellow } mode { foreground: red; styles: bold }";
    let first = StyleSheet::parse(source).unwrap();
    let second = StyleSheet::parse(source).unwrap();
    assert_eq!(first, second);
    let markup = "<info>a<mode>b</mode></info>c";
    assert_eq!(first.render(markup), second.render(markup));
}

#[test]
fn no_rules() {
    assert_eq!(parse(""), Err(ParseError::NoRules));
    assert_eq!(parse(" \n\t "), Err(ParseError::NoRules));
}

#[test]
fn expected_name() {
    assert_eq!(parse("{ foreground: red }"), Err(ParseError::ExpectedName { at: 0 }));
    assert_eq!(parse("a {} }"), Err(ParseError::ExpectedName { at: 5 }));
    assert_eq!(parse("Alert {}"), Err(ParseError::ExpectedName { at: 0 }));
    assert_eq!(parse("9lives {}"), Err(ParseError::ExpectedName { at: 0 }));
    assert_eq!(parse("  a#b {}"), Err(ParseError::ExpectedName { at: 2 }));
}

#[test]
fn expected_open_brace() {
    assert_eq!(parse("foreground: red"), Err(ParseError::ExpectedOpenBrace { at: 10 }));
    assert_eq!(parse("alert"), Err(ParseError::ExpectedOpenBrace { at: 5 }));
    assert_eq!(parse("alert other {}"), Err(ParseError::ExpectedOpenBrace { at: 6 }));
}

#[test]
fn unterminated_rule() {
    assert_eq!(parse("a {"), Err(ParseError::UnterminatedRule { at: 3 }));
    assert_eq!(parse("a { foreground: red "), Err(ParseError::UnterminatedRule { at: 20 }));
}

#[test]
fn expected_key() {
    assert_eq!(parse("a { : red }"), Err(ParseError::ExpectedKey { at: 4 }));
    assert_eq!(parse("a { { } }"), Err(ParseError::ExpectedKey { at: 4 }));
    assert_eq!(parse("a { é }"), Err(ParseError::ExpectedKey { at: 4 }));
}

#[test]
fn unknown_key() {
    assert_eq!(
        parse("a { colour: red }"),
        Err(ParseError::UnknownKey { at: 4, token: "colour".to_string() })
    );
    assert_eq!(
        parse("a { Foreground: red }"),
        Err(ParseError::UnknownKey { at: 4, token: "Foreground".to_string() })
    );
    assert_eq!(
        parse("a { foreground: red b { } }"),
        Err(ParseError::UnknownKey { at: 20, token: "b".to_string() })
    );
}

#[test]
fn expected_colon() {
    assert_eq!(parse("a { foreground red }"), Err(ParseError::ExpectedColon { at: 15 }));
    assert_eq!(parse("a { styles }"), Err(ParseError::ExpectedColon { at: 11 }));
}

#[test]
fn unknown_color() {
    assert_eq!(
        parse("a { foreground: mauve }"),
        Err(ParseError::UnknownColor { at: 16, token: "mauve".to_string() })
    );
    assert_eq!(
        parse("a { background: bright red }"),
        Err(ParseError::UnknownColor { at: 16, token: "bright".to_string() })
    );
    assert_eq!(
        parse("a { foreground: #12345 }"),
        Err(ParseError::UnknownColor { at: 16, token: "#12345".to_string() })
    );
    assert_eq!(
        parse("a { foreground: #12345g }"),
        Err(ParseError::UnknownColor { at: 16, token: "#12345g".to_string() })
    );
    assert_eq!(
        parse("a { foreground: }"),
        Err(ParseError::UnknownColor { at: 16, token: "".to_string() })
    );
}

#[test]
fn unknown_decoration() {
    assert_eq!(
        parse("a { styles: bold shiny }"),
        Err(ParseError::UnknownDecoration { at: 17, token: "shiny".to_string() })
    );
    assert_eq!(
        parse("a { styles: Bold }"),
        Err(ParseError::UnknownDecoration { at: 12, token: "Bold".to_string() })
    );
    assert_eq!(
        parse("a { styles: ; }"),
        Err(ParseError::UnknownDecoration { at: 12, token: "".to_string() })
    );
    assert_eq!(
        parse("a { styles: foreground: red }"),
        Err(ParseError::UnknownDecoration { at: 12, token: "foreground".to_string() })
    );
}

#[test]
fn positions_count_characters() {
    assert_eq!(
        parse("a { foreground: röd }"),
        Err(ParseError::UnknownColor { at: 16, token: "r".to_string() })
    );
    assert_eq!(parse("ä {}"), Err(ParseError::ExpectedName { at: 0 }));
}

#[test]
fn stylesheet_parse_reports_the_error() {
    assert_eq!(
        StyleSheet::parse("a { foreground: mauve }"),
        Err(ParseError::UnknownColor { at: 16, token: "mauve".to_string() })
    );
}
