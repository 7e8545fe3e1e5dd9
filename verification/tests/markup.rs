use colored_markup::markup::{Markup, Part};

#[test]
fn test_parse_markup() {
    let markup = Markup::parse("Hello <bold>World</bold><em></em>!").unwrap();
    assert!(markup.is_valid());
    let parts = markup.parts;
    let expectation = vec![
        Part::Text("Hello "),
        Part::OpenTag("bold"),
        Part::Text("World"),
        Part::CloseTag("bold"),
        Part::OpenTag("em"),
        Part::CloseTag("em"),
        Part::Text("!"),
    ];
    assert_eq!(parts, expectation);
}

#[test]
fn test_negative() {
    assert!(!Markup::parse("</oops>").unwrap().is_valid());
    assert!(!Markup::parse("<foo></bar>").unwrap().is_valid());
}

#[test]
fn text_without_tags_is_one_part() {
    assert_eq!(Markup::parse("just text").unwrap().parts, vec![Part::Text("just text")]);
    assert_eq!(Markup::parse("").unwrap().parts, vec![]);
}

#[test]
fn what_is_not_quite_a_tag_is_text() {
    for text in ["<>", "</>", "<A>", "<a1>", "<a-b>", "<a b>", "< a>", "<a", "a>", "<a href>", "1 < 2 > 0", "<é>"] {
        assert_eq!(Markup::parse(text).unwrap().parts, vec![Part::Text(text)]);
    }
}

#[test]
fn a_tag_may_stand_within_what_is_not_a_tag() {
    assert_eq!(
        Markup::parse("<<b>>").unwrap().parts,
        vec![Part::Text("<"), Part::OpenTag("b"), Part::Text(">")]
    );
    assert_eq!(
        Markup::parse("<a</b>").unwrap().parts,
        vec![Part::Text("<a"), Part::CloseTag("b")]
    );
}

#[test]
fn text_beyond_ascii_is_kept() {
    assert_eq!(
        Markup::parse("grüß <b>dich</b> ✓").unwrap().parts,
        vec![
            Part::Text("grüß "),
            Part::OpenTag("b"),
            Part::Text("dich"),
            Part::CloseTag("b"),
            Part::Text(" ✓"),
        ]
    );
}

#[test]
fn tags_left_open_are_still_valid() {
    assert!(Markup::parse("<a><b></b>").unwrap().is_valid());
    assert!(Markup::parse("").unwrap().is_valid());
    assert!(!Markup::parse("<a></a></a>").unwrap().is_valid());
    assert!(!Markup::parse("<a><b></a></b>").unwrap().is_valid());
}
