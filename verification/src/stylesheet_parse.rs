//! The stylesheet language.
//!
//! A stylesheet is one or more rules. A rule is a name and a block:
//!
//! ```text
//! name { foreground: red; background: bright-blue; styles: bold underline }
//! ```
//!
//! A name starts with a letter from `a` to `z` and goes on with such letters,
//! digits and `-`. A block holds declarations in any order, each with an
//! optional `;` behind it. A color is one of the sixteen named colors, in any
//! case, or `#` and six hexadecimal digits. White space between tokens does
//! not count.

use crate::styles::{Color, Style, StyleView, Styles};
use vstd::prelude::*;
use vstd::string::StrSliceExecFns;

verus! {

/// Whether `c` is white space between tokens.
pub open spec fn is_space(c: char) -> bool {
    c == ' ' || c == '\t' || c == '\n' || c == '\r'
}

/// Whether `c` can stand in a word: a letter, a digit, `-` or `#`.
pub open spec fn is_word_char(c: char) -> bool {
    ('a' <= c && c <= 'z') || ('A' <= c && c <= 'Z') || ('0' <= c && c <= '9') || c == '-' || c
        == '#'
}

/// The first index from `from` on that holds no white space.
pub open spec fn skip_spaces(source: Seq<char>, from: int) -> int
    decreases source.len() - from,
{
    if 0 <= from < source.len() && is_space(source[from]) {
        skip_spaces(source, from + 1)
    } else {
        from
    }
}

/// The end of the word that starts at `from`: the first index from there on
/// that holds no character of a word.
pub open spec fn word_end(source: Seq<char>, from: int) -> int
    decreases source.len() - from,
{
    if 0 <= from < source.len() && is_word_char(source[from]) {
        word_end(source, from + 1)
    } else {
        from
    }
}

/// White space is skipped forwards, and not past the end.
pub proof fn lemma_skip_spaces(source: Seq<char>, from: int)
    requires
        0 <= from <= source.len(),
    ensures
        from <= skip_spaces(source, from) <= source.len(),
        skip_spaces(source, from) < source.len() ==> !is_space(
            source[skip_spaces(source, from)],
        ),
        forall|at: int| from <= at < skip_spaces(source, from) ==> is_space(source[at]),
    decreases source.len() - from,
{
    if from < source.len() && is_space(source[from]) {
        lemma_skip_spaces(source, from + 1);
    }
}

/// A word ends at or after its start, and not past the end.
pub proof fn lemma_word_end(source: Seq<char>, from: int)
    requires
        0 <= from <= source.len(),
    ensures
        from <= word_end(source, from) <= source.len(),
        word_end(source, from) < source.len() ==> !is_word_char(source[word_end(source, from)]),
        forall|at: int| from <= at < word_end(source, from) ==> is_word_char(source[at]),
    decreases source.len() - from,
{
    if from < source.len() && is_word_char(source[from]) {
        lemma_word_end(source, from + 1);
    }
}

/// The characters of `source`, one by one.
fn characters(source: &str) -> (chars: Vec<char>)
    ensures
        chars@ == source@,
{
    let mut chars: Vec<char> = Vec::new();
    for c in walk: source.chars()
        invariant
            walk.seq() == source@,
            chars@ == walk.seq().take(walk.index() as int),
    {
        chars.push(c);
        assert(walk.seq().take(walk.index() + 1) == walk.seq().take(walk.index() as int).push(c));
    }
    assert(source@.take(source@.len() as int) == source@);
    chars
}

fn space(c: char) -> (yes: bool)
    ensures
        yes == is_space(c),
{
    c == ' ' || c == '\t' || c == '\n' || c == '\r'
}

fn word_char(c: char) -> (yes: bool)
    ensures
        yes == is_word_char(c),
{
    ('a' <= c && c <= 'z') || ('A' <= c && c <= 'Z') || ('0' <= c && c <= '9') || c == '-' || c
        == '#'
}

fn after_spaces(chars: &Vec<char>, from: usize) -> (at: usize)
    requires
        from <= chars.len(),
    ensures
        at == skip_spaces(chars@, from as int),
        from <= at <= chars.len(),
{
    let mut at: usize = from;
    while at < chars.len() && space(chars[at])
        invariant
            from <= at <= chars.len(),
            skip_spaces(chars@, at as int) == skip_spaces(chars@, from as int),
        decreases chars.len() - at,
    {
        at += 1;
    }
    at
}

fn after_word(chars: &Vec<char>, from: usize) -> (at: usize)
    requires
        from <= chars.len(),
    ensures
        at == word_end(chars@, from as int),
        from <= at <= chars.len(),
{
    let mut at: usize = from;
    while at < chars.len() && word_char(chars[at])
        invariant
            from <= at <= chars.len(),
            word_end(chars@, at as int) == word_end(chars@, from as int),
        decreases chars.len() - at,
    {
        at += 1;
    }
    at
}

/// `c` as a small letter where it is a capital from `A` to `Z`, else `c`.
pub open spec fn lowered(c: char) -> char {
    if 'A' <= c && c <= 'Z' {
        ((c as u8) + 32) as char
    } else {
        c
    }
}

/// `word` with every capital from `A` to `Z` as a small letter.
pub open spec fn lowercase(word: Seq<char>) -> Seq<char> {
    word.map_values(|c: char| lowered(c))
}

/// `word` as it is compared with a keyword: in small letters where the case
/// makes no difference, else as it stands.
pub open spec fn folded(word: Seq<char>, fold: bool) -> Seq<char> {
    if fold {
        lowercase(word)
    } else {
        word
    }
}

/// Whether `word` is the key of a declaration.
pub open spec fn is_key(word: Seq<char>) -> bool {
    word == "foreground"@ || word == "background"@ || word == "styles"@
}

/// Whether `word` can name a rule.
pub open spec fn is_rule_name(word: Seq<char>) -> bool {
    &&& word.len() > 0
    &&& 'a' <= word[0] && word[0] <= 'z'
    &&& forall|i: int|
        0 <= i < word.len() ==> ('a' <= #[trigger] word[i] && word[i] <= 'z') || ('0' <= word[i]
            && word[i] <= '9') || word[i] == '-'
}

/// The decoration that `word` names.
pub open spec fn decoration_named(word: Seq<char>) -> Option<Styles> {
    if word == "bold"@ {
        Some(Styles::Bold)
    } else if word == "dimmed"@ {
        Some(Styles::Dimmed)
    } else if word == "underline"@ {
        Some(Styles::Underline)
    } else if word == "reversed"@ {
        Some(Styles::Reversed)
    } else if word == "italic"@ {
        Some(Styles::Italic)
    } else if word == "blink"@ {
        Some(Styles::Blink)
    } else if word == "hidden"@ {
        Some(Styles::Hidden)
    } else if word == "strikethrough"@ {
        Some(Styles::Strikethrough)
    } else {
        None
    }
}

/// The value of a hexadecimal digit.
pub open spec fn hex_value(c: char) -> Option<u8> {
    if '0' <= c && c <= '9' {
        Some((c as u8 - '0' as u8) as u8)
    } else if 'a' <= c && c <= 'f' {
        Some((c as u8 - 'a' as u8 + 10) as u8)
    } else if 'A' <= c && c <= 'F' {
        Some((c as u8 - 'A' as u8 + 10) as u8)
    } else {
        None
    }
}

/// The byte that two hexadecimal digits write.
pub open spec fn hex_byte(high: char, low: char) -> Option<u8> {
    match (hex_value(high), hex_value(low)) {
        (Some(h), Some(l)) => Some((16 * h + l) as u8),
        _ => None,
    }
}

/// The color that `word` writes as `#` and six hexadecimal digits: two each
/// for red, green and blue.
pub open spec fn hex_color(word: Seq<char>) -> Option<Color> {
    if word.len() == 7 && word[0] == '#' {
        match (hex_byte(word[1], word[2]), hex_byte(word[3], word[4]), hex_byte(word[5], word[6])) {
            (Some(r), Some(g), Some(b)) => Some(Color::TrueColor { r, g, b }),
            _ => None,
        }
    } else {
        None
    }
}

/// The color of the palette that `name` names, in small letters.
pub open spec fn palette_color(name: Seq<char>) -> Option<Color> {
    if name == "black"@ {
        Some(Color::Black)
    } else if name == "red"@ {
        Some(Color::Red)
    } else if name == "green"@ {
        Some(Color::Green)
    } else if name == "yellow"@ {
        Some(Color::Yellow)
    } else if name == "blue"@ {
        Some(Color::Blue)
    } else if name == "magenta"@ {
        Some(Color::Magenta)
    } else if name == "cyan"@ {
        Some(Color::Cyan)
    } else if name == "white"@ {
        Some(Color::White)
    } else if name == "bright-black"@ {
        Some(Color::BrightBlack)
    } else if name == "bright-red"@ {
        Some(Color::BrightRed)
    } else if name == "bright-green"@ {
        Some(Color::BrightGreen)
    } else if name == "bright-yellow"@ {
        Some(Color::BrightYellow)
    } else if name == "bright-blue"@ {
        Some(Color::BrightBlue)
    } else if name == "bright-magenta"@ {
        Some(Color::BrightMagenta)
    } else if name == "bright-cyan"@ {
        Some(Color::BrightCyan)
    } else if name == "bright-white"@ {
        Some(Color::BrightWhite)
    } else {
        None
    }
}

/// The color that `word` names: one of the palette, whatever the case of its
/// letters, or one written in hexadecimal digits.
pub open spec fn color_named(word: Seq<char>) -> Option<Color> {
    match palette_color(lowercase(word)) {
        Some(color) => Some(color),
        None => hex_color(word),
    }
}

fn lower(c: char) -> (l: char)
    ensures
        l == lowered(c),
{
    if 'A' <= c && c <= 'Z' {
        ((c as u8) + 32) as char
    } else {
        c
    }
}

/// Whether the characters of `chars` from `start` to `end` are `word`,
/// in small letters if `fold`.
fn word_is(chars: &Vec<char>, start: usize, end: usize, word: &str, fold: bool) -> (same: bool)
    requires
        start <= end <= chars.len(),
    ensures
        same == (folded(chars@.subrange(start as int, end as int), fold) == word@),
{
    let length = word.unicode_len();
    let ghost found = folded(chars@.subrange(start as int, end as int), fold);
    if end - start != length {
        return false;
    }
    let mut k: usize = 0;
    while k < length
        invariant
            k <= length,
            start <= end <= chars.len(),
            length == end - start,
            length == word@.len(),
            found == folded(chars@.subrange(start as int, end as int), fold),
            forall|j: int| 0 <= j < k ==> found[j] == word@[j],
        decreases length - k,
    {
        let c = if fold {
            lower(chars[start + k])
        } else {
            chars[start + k]
        };
        assert(c == found[k as int]);
        if c != word.get_char(k) {
            return false;
        }
        k += 1;
    }
    assert(found =~= word@);
    true
}

fn key(chars: &Vec<char>, start: usize, end: usize) -> (yes: bool)
    requires
        start <= end <= chars.len(),
    ensures
        yes == is_key(chars@.subrange(start as int, end as int)),
{
    word_is(chars, start, end, "foreground", false) || word_is(
        chars,
        start,
        end,
        "background",
        false,
    ) || word_is(chars, start, end, "styles", false)
}

fn rule_name(chars: &Vec<char>, start: usize, end: usize) -> (yes: bool)
    requires
        start <= end <= chars.len(),
    ensures
        yes == is_rule_name(chars@.subrange(start as int, end as int)),
{
    let ghost word = chars@.subrange(start as int, end as int);
    if start == end || !('a' <= chars[start] && chars[start] <= 'z') {
        return false;
    }
    let mut at: usize = start;
    while at < end
        invariant
            start <= at <= end <= chars.len(),
            word == chars@.subrange(start as int, end as int),
            forall|i: int|
                0 <= i < at - start ==> ('a' <= #[trigger] word[i] && word[i] <= 'z') || ('0'
                    <= word[i] && word[i] <= '9') || word[i] == '-',
        decreases end - at,
    {
        let c = chars[at];
        assert(c == word[at - start]);
        if !(('a' <= c && c <= 'z') || ('0' <= c && c <= '9') || c == '-') {
            return false;
        }
        at += 1;
    }
    true
}

fn decoration(chars: &Vec<char>, start: usize, end: usize) -> (found: Option<Styles>)
    requires
        start <= end <= chars.len(),
    ensures
        found == decoration_named(chars@.subrange(start as int, end as int)),
{
    if word_is(chars, start, end, "bold", false) {
        Some(Styles::Bold)
    } else if word_is(chars, start, end, "dimmed", false) {
        Some(Styles::Dimmed)
    } else if word_is(chars, start, end, "underline", false) {
        Some(Styles::Underline)
    } else if word_is(chars, start, end, "reversed", false) {
        Some(Styles::Reversed)
    } else if word_is(chars, start, end, "italic", false) {
        Some(Styles::Italic)
    } else if word_is(chars, start, end, "blink", false) {
        Some(Styles::Blink)
    } else if word_is(chars, start, end, "hidden", false) {
        Some(Styles::Hidden)
    } else if word_is(chars, start, end, "strikethrough", false) {
        Some(Styles::Strikethrough)
    } else {
        None
    }
}

fn hex(c: char) -> (value: Option<u8>)
    ensures
        value == hex_value(c),
{
    if '0' <= c && c <= '9' {
        Some(c as u8 - '0' as u8)
    } else if 'a' <= c && c <= 'f' {
        Some(c as u8 - 'a' as u8 + 10)
    } else if 'A' <= c && c <= 'F' {
        Some(c as u8 - 'A' as u8 + 10)
    } else {
        None
    }
}

fn byte(high: char, low: char) -> (value: Option<u8>)
    ensures
        value == hex_byte(high, low),
{
    match (hex(high), hex(low)) {
        (Some(h), Some(l)) => Some(16 * h + l),
        _ => None,
    }
}

fn hexadecimal(chars: &Vec<char>, start: usize, end: usize) -> (found: Option<Color>)
    requires
        start <= end <= chars.len(),
    ensures
        found == hex_color(chars@.subrange(start as int, end as int)),
{
    if end - start == 7 && chars[start] == '#' {
        let ghost word = chars@.subrange(start as int, end as int);
        assert(forall|i: int| 0 <= i < 7 ==> word[i] == chars@[start + i]);
        match (
            byte(chars[start + 1], chars[start + 2]),
            byte(chars[start + 3], chars[start + 4]),
            byte(chars[start + 5], chars[start + 6]),
        ) {
            (Some(r), Some(g), Some(b)) => Some(Color::TrueColor { r, g, b }),
            _ => None,
        }
    } else {
        None
    }
}

fn palette(chars: &Vec<char>, start: usize, end: usize) -> (found: Option<Color>)
    requires
        start <= end <= chars.len(),
    ensures
        found == palette_color(lowercase(chars@.subrange(start as int, end as int))),
{
    if word_is(chars, start, end, "black", true) {
        Some(Color::Black)
    } else if word_is(chars, start, end, "red", true) {
        Some(Color::Red)
    } else if word_is(chars, start, end, "green", true) {
        Some(Color::Green)
    } else if word_is(chars, start, end, "yellow", true) {
        Some(Color::Yellow)
    } else if word_is(chars, start, end, "blue", true) {
        Some(Color::Blue)
    } else if word_is(chars, start, end, "magenta", true) {
        Some(Color::Magenta)
    } else if word_is(chars, start, end, "cyan", true) {
        Some(Color::Cyan)
    } else if word_is(chars, start, end, "white", true) {
        Some(Color::White)
    } else if word_is(chars, start, end, "bright-black", true) {
        Some(Color::BrightBlack)
    } else if word_is(chars, start, end, "bright-red", true) {
        Some(Color::BrightRed)
    } else if word_is(chars, start, end, "bright-green", true) {
        Some(Color::BrightGreen)
    } else if word_is(chars, start, end, "bright-yellow", true) {
        Some(Color::BrightYellow)
    } else if word_is(chars, start, end, "bright-blue", true) {
        Some(Color::BrightBlue)
    } else if word_is(chars, start, end, "bright-magenta", true) {
        Some(Color::BrightMagenta)
    } else if word_is(chars, start, end, "bright-cyan", true) {
        Some(Color::BrightCyan)
    } else if word_is(chars, start, end, "bright-white", true) {
        Some(Color::BrightWhite)
    } else {
        None
    }
}

fn color(chars: &Vec<char>, start: usize, end: usize) -> (found: Option<Color>)
    requires
        start <= end <= chars.len(),
    ensures
        found == color_named(chars@.subrange(start as int, end as int)),
{
    match palette(chars, start, end) {
        Some(color) => Some(color),
        None => hexadecimal(chars, start, end),
    }
}

/// Why a stylesheet could not be read. `at` counts characters from the start
/// of the source, and `token` is the word that was found there.
#[derive(Debug, PartialEq, Eq)]
pub enum ParseError {
    /// The source holds no rule.
    NoRules,
    /// A rule has to start with its name.
    ExpectedName { at: usize },
    /// After the name of a rule its block has to open with `{`.
    ExpectedOpenBrace { at: usize },
    /// The source ends inside a block.
    UnterminatedRule { at: usize },
    /// A declaration has to start with its key.
    ExpectedKey { at: usize },
    /// The key of a declaration is none of `foreground`, `background`, `styles`.
    UnknownKey { at: usize, token: String },
    /// After the key of a declaration there has to be `:`.
    ExpectedColon { at: usize },
    /// The word names no color.
    UnknownColor { at: usize, token: String },
    /// The word names no decoration.
    UnknownDecoration { at: usize, token: String },
}

/// The mathematical value of a [`ParseError`].
pub ghost enum ParseErrorView {
    NoRules,
    ExpectedName { at: int },
    ExpectedOpenBrace { at: int },
    UnterminatedRule { at: int },
    ExpectedKey { at: int },
    UnknownKey { at: int, token: Seq<char> },
    ExpectedColon { at: int },
    UnknownColor { at: int, token: Seq<char> },
    UnknownDecoration { at: int, token: Seq<char> },
}

impl View for ParseError {
    type V = ParseErrorView;

    open spec fn view(&self) -> ParseErrorView {
        match *self {
            ParseError::NoRules => ParseErrorView::NoRules,
            ParseError::ExpectedName { at } => ParseErrorView::ExpectedName { at: at as int },
            ParseError::ExpectedOpenBrace { at } => ParseErrorView::ExpectedOpenBrace {
                at: at as int,
            },
            ParseError::UnterminatedRule { at } => ParseErrorView::UnterminatedRule {
                at: at as int,
            },
            ParseError::ExpectedKey { at } => ParseErrorView::ExpectedKey { at: at as int },
            ParseError::UnknownKey { at, token } => ParseErrorView::UnknownKey {
                at: at as int,
                token: token@,
            },
            ParseError::ExpectedColon { at } => ParseErrorView::ExpectedColon { at: at as int },
            ParseError::UnknownColor { at, token } => ParseErrorView::UnknownColor {
                at: at as int,
                token: token@,
            },
            ParseError::UnknownDecoration { at, token } => ParseErrorView::UnknownDecoration {
                at: at as int,
                token: token@,
            },
        }
    }
}

/// The list of decorations that starts at `from`, behind those of `seen`,
/// and the index at which it ends. The list has at least one decoration. It
/// ends before the first token that is no word, or that is the key of a
/// declaration; any other word has to name a decoration.
pub open spec fn decorations_from(source: Seq<char>, from: int, seen: Seq<Styles>) -> Result<
    (Seq<Styles>, int),
    ParseErrorView,
>
    decreases source.len() - from,
    when 0 <= from <= source.len()
    via decorations_from_ends
{
    let start = skip_spaces(source, from);
    let end = word_end(source, start);
    let word = source.subrange(start, end);
    match decoration_named(word) {
        Some(decoration) => decorations_from(source, end, seen.push(decoration)),
        None => if seen.len() > 0 && (word.len() == 0 || is_key(word)) {
            Ok((seen, start))
        } else {
            Err(ParseErrorView::UnknownDecoration { at: start, token: word })
        },
    }
}

#[via_fn]
proof fn decorations_from_ends(source: Seq<char>, from: int, seen: Seq<Styles>) {
    let start = skip_spaces(source, from);
    let end = word_end(source, start);
    lemma_skip_spaces(source, from);
    lemma_word_end(source, start);
    lemma_decoration_word(source.subrange(start, end));
}

/// `style` after one more declaration with the key `key`, whose value starts
/// at `from`, and the index at which the value ends. A color replaces the
/// color that `style` had there, and a list of decorations replaces its list.
pub open spec fn declaration_value(
    source: Seq<char>,
    from: int,
    key: Seq<char>,
    style: StyleView,
) -> Result<(StyleView, int), ParseErrorView> {
    if key == "styles"@ {
        match decorations_from(source, from, Seq::empty()) {
            Ok((styles, end)) => Ok((StyleView { styles, ..style }, end)),
            Err(error) => Err(error),
        }
    } else {
        let start = skip_spaces(source, from);
        let end = word_end(source, start);
        let word = source.subrange(start, end);
        match color_named(word) {
            Some(color) => if key == "foreground"@ {
                Ok((StyleView { foreground: Some(color), ..style }, end))
            } else {
                Ok((StyleView { background: Some(color), ..style }, end))
            },
            None => Err(ParseErrorView::UnknownColor { at: start, token: word }),
        }
    }
}

/// `style` after the declarations that start at `from`, up to the `}` that
/// closes the block, and the index behind that `}`.
pub open spec fn declarations_from(source: Seq<char>, from: int, style: StyleView) -> Result<
    (StyleView, int),
    ParseErrorView,
>
    decreases source.len() - from,
    when 0 <= from <= source.len()
    via declarations_from_ends
{
    let start = skip_spaces(source, from);
    let end = word_end(source, start);
    let word = source.subrange(start, end);
    let colon = skip_spaces(source, end);
    if start >= source.len() {
        Err(ParseErrorView::UnterminatedRule { at: start })
    } else if source[start] == '}' {
        Ok((style, start + 1))
    } else if word.len() == 0 {
        Err(ParseErrorView::ExpectedKey { at: start })
    } else if !is_key(word) {
        Err(ParseErrorView::UnknownKey { at: start, token: word })
    } else if !(colon < source.len() && source[colon] == ':') {
        Err(ParseErrorView::ExpectedColon { at: colon })
    } else {
        match declaration_value(source, colon + 1, word, style) {
            Err(error) => Err(error),
            Ok((changed, value_end)) => declarations_from(
                source,
                after_semicolon(source, value_end),
                changed,
            ),
        }
    }
}

#[via_fn]
proof fn declarations_from_ends(source: Seq<char>, from: int, style: StyleView) {
    let start = skip_spaces(source, from);
    let end = word_end(source, start);
    let colon = skip_spaces(source, end);
    lemma_skip_spaces(source, from);
    lemma_word_end(source, start);
    lemma_skip_spaces(source, end);
    if colon < source.len() {
        lemma_declaration_value_end(source, colon + 1, source.subrange(start, end), style);
        match declaration_value(source, colon + 1, source.subrange(start, end), style) {
            Ok((_, value_end)) => {
                lemma_skip_spaces(source, value_end);
            },
            Err(_) => {},
        }
    }
}

/// The index behind the `;` that follows `from`, with white space between
/// them or none, or `from` where no `;` follows.
pub open spec fn after_semicolon(source: Seq<char>, from: int) -> int {
    let at = skip_spaces(source, from);
    if 0 <= at < source.len() && source[at] == ';' {
        at + 1
    } else {
        from
    }
}

/// The rules that start at `from`, behind those of `seen`, up to the end of
/// the source: at least one in all.
pub open spec fn rules_from(
    source: Seq<char>,
    from: int,
    seen: Seq<(Seq<char>, StyleView)>,
) -> Result<Seq<(Seq<char>, StyleView)>, ParseErrorView>
    decreases source.len() - from,
    when 0 <= from <= source.len()
    via rules_from_ends
{
    let start = skip_spaces(source, from);
    let end = word_end(source, start);
    let name = source.subrange(start, end);
    let brace = skip_spaces(source, end);
    if start >= source.len() {
        if seen.len() > 0 {
            Ok(seen)
        } else {
            Err(ParseErrorView::NoRules)
        }
    } else if !is_rule_name(name) {
        Err(ParseErrorView::ExpectedName { at: start })
    } else if !(brace < source.len() && source[brace] == '{') {
        Err(ParseErrorView::ExpectedOpenBrace { at: brace })
    } else {
        match declarations_from(source, brace + 1, StyleView::plain()) {
            Err(error) => Err(error),
            Ok((style, next)) => rules_from(source, next, seen.push((name, style))),
        }
    }
}

#[via_fn]
proof fn rules_from_ends(source: Seq<char>, from: int, seen: Seq<(Seq<char>, StyleView)>) {
    let start = skip_spaces(source, from);
    let end = word_end(source, start);
    let brace = skip_spaces(source, end);
    lemma_skip_spaces(source, from);
    lemma_word_end(source, start);
    lemma_skip_spaces(source, end);
    if brace < source.len() {
        lemma_declarations_end(source, brace + 1, StyleView::plain());
    }
}

/// The rules of a stylesheet, in the order in which the source has them.
pub open spec fn parse_rules(source: Seq<char>) -> Result<
    Seq<(Seq<char>, StyleView)>,
    ParseErrorView,
> {
    rules_from(source, 0, Seq::empty())
}

/// A word that names a decoration is not empty.
pub proof fn lemma_decoration_word(word: Seq<char>)
    ensures
        decoration_named(word) is Some ==> word.len() > 0,
{
    reveal_strlit("bold");
    reveal_strlit("dimmed");
    reveal_strlit("underline");
    reveal_strlit("reversed");
    reveal_strlit("italic");
    reveal_strlit("blink");
    reveal_strlit("hidden");
    reveal_strlit("strikethrough");
}

/// A word that names a color is not empty.
pub proof fn lemma_color_word(word: Seq<char>)
    ensures
        color_named(word) is Some ==> word.len() > 0,
{
    reveal_strlit("black");
    reveal_strlit("red");
    reveal_strlit("green");
    reveal_strlit("yellow");
    reveal_strlit("blue");
    reveal_strlit("magenta");
    reveal_strlit("cyan");
    reveal_strlit("white");
    reveal_strlit("bright-black");
    reveal_strlit("bright-red");
    reveal_strlit("bright-green");
    reveal_strlit("bright-yellow");
    reveal_strlit("bright-blue");
    reveal_strlit("bright-magenta");
    reveal_strlit("bright-cyan");
    reveal_strlit("bright-white");
    assert(lowercase(word).len() == word.len());
}

/// A list of decorations ends behind its start and within the source, and
/// is not empty.
pub proof fn lemma_decorations_end(source: Seq<char>, from: int, seen: Seq<Styles>)
    requires
        0 <= from <= source.len(),
    ensures
        decorations_from(source, from, seen) matches Ok((list, end)) ==> {
            &&& from <= end <= source.len()
            &&& seen.len() == 0 ==> from < end
            &&& list.len() > 0
        },
    decreases source.len() - from,
{
    let start = skip_spaces(source, from);
    let end = word_end(source, start);
    let word = source.subrange(start, end);
    lemma_skip_spaces(source, from);
    lemma_word_end(source, start);
    lemma_decoration_word(word);
    match decoration_named(word) {
        Some(decoration) => {
            lemma_decorations_end(source, end, seen.push(decoration));
        },
        None => {},
    }
}

/// The value of a declaration ends behind its start and within the source.
pub proof fn lemma_declaration_value_end(
    source: Seq<char>,
    from: int,
    key: Seq<char>,
    style: StyleView,
)
    requires
        0 <= from <= source.len(),
    ensures
        declaration_value(source, from, key, style) matches Ok((_, end)) ==> from < end
            <= source.len(),
{
    let start = skip_spaces(source, from);
    let end = word_end(source, start);
    lemma_skip_spaces(source, from);
    lemma_word_end(source, start);
    lemma_color_word(source.subrange(start, end));
    lemma_decorations_end(source, from, Seq::empty());
}

/// A block ends behind its start and within the source.
pub proof fn lemma_declarations_end(source: Seq<char>, from: int, style: StyleView)
    requires
        0 <= from <= source.len(),
    ensures
        declarations_from(source, from, style) matches Ok((_, end)) ==> from < end
            <= source.len(),
    decreases source.len() - from,
{
    let start = skip_spaces(source, from);
    let end = word_end(source, start);
    let word = source.subrange(start, end);
    let colon = skip_spaces(source, end);
    lemma_skip_spaces(source, from);
    lemma_word_end(source, start);
    lemma_skip_spaces(source, end);
    if start < source.len() && source[start] != '}' && word.len() > 0 && is_key(word) && colon
        < source.len() && source[colon] == ':' {
        lemma_declaration_value_end(source, colon + 1, word, style);
        match declaration_value(source, colon + 1, word, style) {
            Err(_) => {},
            Ok((changed, value_end)) => {
                lemma_skip_spaces(source, value_end);
                lemma_declarations_end(source, after_semicolon(source, value_end), changed);
            },
        }
    }
}

/// Whether every entry has a name that can name a rule.
pub open spec fn well_named(rules: Seq<(Seq<char>, StyleView)>) -> bool {
    forall|i: int| 0 <= i < rules.len() ==> is_rule_name((#[trigger] rules[i]).0)
}

/// Rules that are read behind rules with names have names, and there is at
/// least one of them.
pub proof fn lemma_rules_from_named(
    source: Seq<char>,
    from: int,
    seen: Seq<(Seq<char>, StyleView)>,
)
    requires
        0 <= from <= source.len(),
        well_named(seen),
    ensures
        rules_from(source, from, seen) matches Ok(rules) ==> rules.len() > 0 && well_named(rules),
    decreases source.len() - from,
{
    let start = skip_spaces(source, from);
    let end = word_end(source, start);
    let name = source.subrange(start, end);
    let brace = skip_spaces(source, end);
    lemma_skip_spaces(source, from);
    lemma_word_end(source, start);
    lemma_skip_spaces(source, end);
    if start < source.len() && is_rule_name(name) && brace < source.len() && source[brace] == '{' {
        lemma_declarations_end(source, brace + 1, StyleView::plain());
        match declarations_from(source, brace + 1, StyleView::plain()) {
            Err(_) => {},
            Ok((style, next)) => {
                let more = seen.push((name, style));
                assert forall|i: int| 0 <= i < more.len() implies is_rule_name(
                    (#[trigger] more[i]).0,
                ) by {
                    if i < seen.len() {
                        assert(more[i] == seen[i]);
                    }
                }
                lemma_rules_from_named(source, next, more);
            },
        }
    }
}

/// A stylesheet that can be read has at least one rule, and each of its
/// rules has a name: a letter from `a` to `z`, then such letters, digits and
/// `-`.
pub proof fn lemma_parsed_rules_named(source: Seq<char>)
    ensures
        parse_rules(source) matches Ok(rules) ==> rules.len() > 0 && well_named(rules),
{
    lemma_rules_from_named(source, 0, Seq::empty());
}

/// A run of word characters with no word character behind it is one word.
pub proof fn lemma_word_spans(source: Seq<char>, from: int, to: int)
    requires
        0 <= from <= to <= source.len(),
        forall|at: int| from <= at < to ==> is_word_char(source[at]),
        to < source.len() ==> !is_word_char(source[to]),
    ensures
        word_end(source, from) == to,
    decreases to - from,
{
    if from < to {
        lemma_word_spans(source, from + 1, to);
    }
}

/// A name with an empty block behind it is a stylesheet of one rule, which
/// gives the plain style to that name.
pub proof fn lemma_parse_empty_rule(name: Seq<char>)
    requires
        is_rule_name(name),
    ensures
        parse_rules(name + seq!['{', '}']) == Ok::<Seq<(Seq<char>, StyleView)>, ParseErrorView>(
            seq![(name, StyleView::plain())],
        ),
{
    let source = name + seq!['{', '}'];
    let n = name.len() as int;
    assert(source[0] == name[0]);
    assert(skip_spaces(source, 0) == 0);
    assert forall|at: int| 0 <= at < n implies is_word_char(source[at]) by {
        assert(source[at] == name[at]);
    }
    assert(source[n] == '{');
    assert(source[n + 1] == '}');
    lemma_word_spans(source, 0, n);
    assert(source.subrange(0, n) == name);
    assert(skip_spaces(source, n) == n);
    assert(skip_spaces(source, n + 1) == n + 1);
    assert(declarations_from(source, n + 1, StyleView::plain()) == Ok::<
        (StyleView, int),
        ParseErrorView,
    >((StyleView::plain(), n + 2)));
    let one = Seq::<(Seq<char>, StyleView)>::empty().push((name, StyleView::plain()));
    assert(skip_spaces(source, n + 2) == n + 2);
    assert(rules_from(source, n + 2, one) == Ok::<Seq<(Seq<char>, StyleView)>, ParseErrorView>(
        one,
    ));
    assert(one == seq![(name, StyleView::plain())]);
}

/// The word of `source` from `start` to `end`, as a string of its own.
fn token(source: &str, start: usize, end: usize) -> (word: String)
    requires
        start <= end <= source@.len(),
    ensures
        word@ == source@.subrange(start as int, end as int),
{
    source.substring_char(start, end).to_owned()
}

/// Reads a list of decorations that starts at `from`.
fn read_decorations(source: &str, chars: &Vec<char>, from: usize) -> (read: Result<
    (Vec<Styles>, usize),
    ParseError,
>)
    requires
        chars@ == source@,
        from <= chars.len(),
    ensures
        match decorations_from(source@, from as int, Seq::empty()) {
            Ok((list, end)) => read matches Ok((l, e)) && l@ == list && e == end,
            Err(error) => read matches Err(e) && e@ == error,
        },
{
    let mut seen: Vec<Styles> = Vec::new();
    let mut at: usize = from;
    loop
        invariant
            chars@ == source@,
            at <= chars.len(),
            decorations_from(source@, at as int, seen@) == decorations_from(
                source@,
                from as int,
                Seq::empty(),
            ),
        decreases chars.len() - at,
    {
        let start = after_spaces(chars, at);
        let end = after_word(chars, start);
        proof {
            lemma_decoration_word(source@.subrange(start as int, end as int));
        }
        match decoration(chars, start, end) {
            Some(found) => {
                seen.push(found);
                at = end;
            },
            None => {
                if seen.len() > 0 && (start == end || key(chars, start, end)) {
                    return Ok((seen, start));
                } else {
                    return Err(
                        ParseError::UnknownDecoration { at: start, token: token(source, start, end) },
                    );
                }
            },
        }
    }
}

/// Reads the declarations of a block from `from` to the `}` that closes it.
fn read_declarations(source: &str, chars: &Vec<char>, from: usize) -> (read: Result<
    (Style, usize),
    ParseError,
>)
    requires
        chars@ == source@,
        from <= chars.len(),
    ensures
        match declarations_from(source@, from as int, StyleView::plain()) {
            Ok((style, end)) => read matches Ok((s, e)) && s@ == style && e == end,
            Err(error) => read matches Err(e) && e@ == error,
        },
{
    let mut style = Style::default();
    let mut at: usize = from;
    loop
        invariant
            chars@ == source@,
            at <= chars.len(),
            declarations_from(source@, at as int, style@) == declarations_from(
                source@,
                from as int,
                StyleView::plain(),
            ),
        decreases chars.len() - at,
    {
        let start = after_spaces(chars, at);
        if start >= chars.len() {
            return Err(ParseError::UnterminatedRule { at: start });
        }
        if chars[start] == '}' {
            return Ok((style, start + 1));
        }
        let end = after_word(chars, start);
        if start == end {
            return Err(ParseError::ExpectedKey { at: start });
        }
        if !key(chars, start, end) {
            return Err(ParseError::UnknownKey { at: start, token: token(source, start, end) });
        }
        let colon = after_spaces(chars, end);
        if !(colon < chars.len() && chars[colon] == ':') {
            return Err(ParseError::ExpectedColon { at: colon });
        }
        let ghost word = source@.subrange(start as int, end as int);
        proof {
            lemma_declaration_value_end(source@, colon + 1, word, style@);
        }
        let value_end: usize;
        if word_is(chars, start, end, "styles", false) {
            match read_decorations(source, chars, colon + 1) {
                Ok((styles, end)) => {
                    style.styles = styles;
                    value_end = end;
                },
                Err(error) => {
                    return Err(error);
                },
            }
        } else {
            let value_start = after_spaces(chars, colon + 1);
            let end_of_value = after_word(chars, value_start);
            match color(chars, value_start, end_of_value) {
                Some(found) => {
                    if word_is(chars, start, end, "foreground", false) {
                        style.foreground = Some(found);
                    } else {
                        style.background = Some(found);
                    }
                    value_end = end_of_value;
                },
                None => {
                    return Err(
                        ParseError::UnknownColor {
                            at: value_start,
                            token: token(source, value_start, end_of_value),
                        },
                    );
                },
            }
        }
        let semicolon = after_spaces(chars, value_end);
        if semicolon < chars.len() && chars[semicolon] == ';' {
            at = semicolon + 1;
        } else {
            at = value_end;
        }
    }
}

/// The views of the rules that were read, or of the error.
pub open spec fn read_view(read: Result<Vec<(&str, Style)>, ParseError>) -> Result<
    Seq<(Seq<char>, StyleView)>,
    ParseErrorView,
> {
    match read {
        Ok(rules) => Ok(crate::stylesheet::named_view(rules@)),
        Err(error) => Err(error@),
    }
}

/// Reads a stylesheet: its rules in the order in which the source has them,
/// or the first error in it.
pub fn parse<'a>(source: &'a str) -> (read: Result<Vec<(&'a str, Style)>, ParseError>)
    ensures
        read_view(read) == parse_rules(source@),
{
    let chars = characters(source);
    let mut rules: Vec<(&'a str, Style)> = Vec::new();
    let mut at: usize = 0;
    assert(crate::stylesheet::named_view(rules@) == Seq::<(Seq<char>, StyleView)>::empty());
    loop
        invariant
            chars@ == source@,
            at <= chars.len(),
            rules_from(source@, at as int, crate::stylesheet::named_view(rules@)) == parse_rules(
                source@,
            ),
        decreases chars.len() - at,
    {
        let start = after_spaces(&chars, at);
        if start >= chars.len() {
            if rules.len() > 0 {
                return Ok(rules);
            } else {
                return Err(ParseError::NoRules);
            }
        }
        let end = after_word(&chars, start);
        if !rule_name(&chars, start, end) {
            return Err(ParseError::ExpectedName { at: start });
        }
        let brace = after_spaces(&chars, end);
        if !(brace < chars.len() && chars[brace] == '{') {
            return Err(ParseError::ExpectedOpenBrace { at: brace });
        }
        proof {
            lemma_declarations_end(source@, brace + 1, StyleView::plain());
        }
        match read_declarations(source, &chars, brace + 1) {
            Ok((style, next)) => {
                let ghost before = crate::stylesheet::named_view(rules@);
                let name = source.substring_char(start, end);
                rules.push((name, style));
                assert(crate::stylesheet::named_view(rules@) == before.push((name@, style@)));
                at = next;
            },
            Err(error) => {
                return Err(error);
            },
        }
    }
}

} // verus!
