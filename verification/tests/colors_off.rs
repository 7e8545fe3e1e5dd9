use colored_markup::stylesheet::StyleSheet;

#[test]
fn with_colors_off_only_the_tags_go() {
    colored::control::set_override(false);
    let sheet = StyleSheet::parse("red { foreground: red; styles: bold }").unwrap();
    assert_eq!(sheet.render("Mode: <red>mode</red>").unwrap(), "Mode: mode");
}
