//! Splitting markup into text runs and tags.
//!
//! A tag is `<name>` or `</name>`, where `name` is one or more of the letters
//! `a` to `z`. Whatever does not have that exact shape is text.

use regex::Regex;
use vstd::pervasive::unreached;
use vstd::prelude::*;

verus! {

/// One piece of markup: a tag that opens, a tag that closes, or a run of text.
#[derive(Debug, PartialEq)]
pub enum Part<'a> {
    OpenTag(&'a str),
    CloseTag(&'a str),
    Text(&'a str),
}

/// The mathematical value of a [`Part`].
pub ghost enum PartView {
    OpenTag(Seq<char>),
    CloseTag(Seq<char>),
    Text(Seq<char>),
}

impl<'a> View for Part<'a> {
    type V = PartView;

    open spec fn view(&self) -> PartView {
        match *self {
            Part::OpenTag(name) => PartView::OpenTag(name@),
            Part::CloseTag(name) => PartView::CloseTag(name@),
            Part::Text(text) => PartView::Text(text@),
        }
    }
}

/// The values of a list of parts, in the same order.
pub open spec fn parts_view(parts: Seq<Part>) -> Seq<PartView> {
    parts.map_values(|part: Part| part@)
}

/// Markup, split into its parts in source order.
pub struct Markup<'a> {
    pub parts: Vec<Part<'a>>,
}

/// Why markup could not be rendered.
#[derive(Debug, PartialEq, Eq)]
pub enum MarkupError {
    /// A closing tag stands where no tag is open.
    UnmatchedClosingTag,
}

/// Whether `name` can be the name of a tag.
pub open spec fn is_tag_name(name: Seq<char>) -> bool {
    name.len() > 0 && forall|i: int| 0 <= i < name.len() ==> 'a' <= #[trigger] name[i] <= 'z'
}

/// The characters of the tag `<name>`, or of `</name>` if `closing`.
pub open spec fn tag_text(closing: bool, name: Seq<char>) -> Seq<char> {
    if closing {
        seq!['<', '/'] + name + seq!['>']
    } else {
        seq!['<'] + name + seq!['>']
    }
}

/// Whether the tag of that kind and name stands in `text` at index `at`.
pub open spec fn tag_at(text: Seq<char>, at: int, closing: bool, name: Seq<char>) -> bool {
    &&& is_tag_name(name)
    &&& 0 <= at <= text.len()
    &&& tag_text(closing, name).is_prefix_of(text.skip(at))
}

/// Whether some tag stands in `text` at index `at`.
pub open spec fn has_tag_at(text: Seq<char>, at: int) -> bool {
    exists|closing: bool, name: Seq<char>| tag_at(text, at, closing, name)
}

/// Whether `text` holds no tag at all.
pub open spec fn tag_free(text: Seq<char>) -> bool {
    forall|at: int| 0 <= at < text.len() ==> !has_tag_at(text, at)
}

/// The kind and the name of the tag that stands in `text` at `at`.
pub open spec fn tag_found(text: Seq<char>, at: int) -> (bool, Seq<char>) {
    choose|tag: (bool, Seq<char>)| tag_at(text, at, tag.0, tag.1)
}

/// The first index from `from` on at which a tag stands in `text`, or the
/// length of `text` where there is none.
pub open spec fn tag_search(text: Seq<char>, from: int) -> int
    decreases text.len() - from,
{
    if from >= text.len() {
        text.len() as int
    } else if has_tag_at(text, from) {
        from
    } else {
        tag_search(text, from + 1)
    }
}

/// A run of text as a list of parts: empty runs are left out.
pub open spec fn text_part(text: Seq<char>) -> Seq<PartView> {
    if text.len() == 0 {
        Seq::empty()
    } else {
        seq![PartView::Text(text)]
    }
}

/// A tag as a part.
pub open spec fn tag_part(closing: bool, name: Seq<char>) -> PartView {
    if closing {
        PartView::CloseTag(name)
    } else {
        PartView::OpenTag(name)
    }
}

/// The parts of `text`, from left to right: the text before the first tag,
/// the tag, then the parts of what follows it.
pub open spec fn tokenize(text: Seq<char>) -> Seq<PartView>
    decreases text.len(),
    via tokenize_ends
{
    let at = tag_search(text, 0);
    if at < text.len() {
        let (closing, name) = tag_found(text, at);
        text_part(text.take(at)) + seq![tag_part(closing, name)] + tokenize(
            text.skip(at + tag_text(closing, name).len()),
        )
    } else {
        text_part(text)
    }
}

#[via_fn]
proof fn tokenize_ends(text: Seq<char>) {
    let at = tag_search(text, 0);
    if at < text.len() {
        lemma_tag_found(text);
    }
}

/// Where text holds a tag, the first one stands where [`tag_search`] finds
/// it, and [`tag_found`] is its kind and name.
pub proof fn lemma_tag_found(text: Seq<char>)
    requires
        tag_search(text, 0) < text.len(),
    ensures
        tag_at(text, tag_search(text, 0), tag_found(text, tag_search(text, 0)).0, tag_found(
            text,
            tag_search(text, 0),
        ).1),
        0 <= tag_search(text, 0),
        tag_search(text, 0) + tag_text(
            tag_found(text, tag_search(text, 0)).0,
            tag_found(text, tag_search(text, 0)).1,
        ).len() <= text.len(),
{
    lemma_tag_search(text, 0);
    let at = tag_search(text, 0);
    assert(has_tag_at(text, at));
    let (closing, name) = choose|closing: bool, name: Seq<char>| tag_at(text, at, closing, name);
    assert(tag_at(text, at, (closing, name).0, (closing, name).1));
}

/// The names of the tags that `parts` leaves open, outermost first, or
/// `None` where a closing tag finds no open tag or one of another name.
pub open spec fn open_tags(parts: Seq<PartView>) -> Option<Seq<Seq<char>>>
    decreases parts.len(),
{
    if parts.len() == 0 {
        Some(Seq::empty())
    } else {
        match open_tags(parts.drop_last()) {
            None => None,
            Some(open) => match parts.last() {
                PartView::OpenTag(name) => Some(open.push(name)),
                PartView::CloseTag(name) => if open.len() > 0 && open.last() == name {
                    Some(open.drop_last())
                } else {
                    None
                },
                PartView::Text(_) => Some(open),
            },
        }
    }
}

/// The views of a list of names.
pub open spec fn names_view(names: Seq<&str>) -> Seq<Seq<char>> {
    names.map_values(|name: &str| name@)
}

/// Once a closing tag has failed, more parts do not mend it.
pub proof fn lemma_open_tags_stay_none(parts: Seq<PartView>, n: int)
    requires
        0 <= n <= parts.len(),
        open_tags(parts.take(n)) is None,
    ensures
        open_tags(parts) is None,
    decreases parts.len(),
{
    if n < parts.len() {
        assert(parts.drop_last().take(n) == parts.take(n));
        lemma_open_tags_stay_none(parts.drop_last(), n);
    } else {
        assert(parts.take(n) == parts);
    }
}

/// At one index at most one tag stands.
pub proof fn lemma_tag_unique(
    text: Seq<char>,
    at: int,
    closing: bool,
    name: Seq<char>,
    other_closing: bool,
    other_name: Seq<char>,
)
    requires
        tag_at(text, at, closing, name),
        tag_at(text, at, other_closing, other_name),
    ensures
        closing == other_closing,
        name == other_name,
{
    let rest = text.skip(at);
    let one = tag_text(closing, name);
    let two = tag_text(other_closing, other_name);
    assert(forall|i: int| 0 <= i < one.len() ==> one[i] == rest[i]);
    assert(forall|i: int| 0 <= i < two.len() ==> two[i] == rest[i]);
    assert(one[1] == rest[1]);
    assert(two[1] == rest[1]);
    assert(name[0] != '/' && other_name[0] != '/');
    assert(closing == other_closing);
    let k: int = if closing { 2 } else { 1 };
    assert(forall|i: int| 0 <= i < name.len() ==> one[k + i] == name[i]);
    assert(forall|i: int| 0 <= i < other_name.len() ==> two[k + i] == other_name[i]);
    assert(one[k + name.len()] == '>');
    assert(two[k + other_name.len()] == '>');
    if name.len() < other_name.len() {
        assert(two[k + name.len()] == other_name[name.len() as int]);
        assert(false);
    }
    if other_name.len() < name.len() {
        assert(one[k + other_name.len()] == name[other_name.len() as int]);
        assert(false);
    }
    assert(name =~= other_name);
}

/// What [`tag_search`] finds is the first index from `from` on with a tag.
pub proof fn lemma_tag_search(text: Seq<char>, from: int)
    requires
        0 <= from <= text.len(),
    ensures
        from <= tag_search(text, from) <= text.len(),
        forall|at: int| from <= at < tag_search(text, from) ==> !has_tag_at(text, at),
        tag_search(text, from) < text.len() ==> has_tag_at(text, tag_search(text, from)),
    decreases text.len() - from,
{
    if from < text.len() && !has_tag_at(text, from) {
        lemma_tag_search(text, from + 1);
    }
}

/// Text without `<` holds no tag.
pub proof fn lemma_tag_needs_angle(text: Seq<char>)
    requires
        forall|i: int| 0 <= i < text.len() ==> text[i] != '<',
    ensures
        tag_free(text),
{
    assert forall|at: int| 0 <= at < text.len() implies !has_tag_at(text, at) by {
        if has_tag_at(text, at) {
            let (closing, name) = choose|closing: bool, name: Seq<char>|
                tag_at(text, at, closing, name);
            let tag = tag_text(closing, name);
            assert(tag[0] == '<');
            assert(tag[0] == text.skip(at)[0]);
        }
    }
}

/// Text without a tag is one run of text.
pub proof fn lemma_tokenize_tag_free(text: Seq<char>)
    requires
        tag_free(text),
    ensures
        tokenize(text) == text_part(text),
{
    lemma_tag_search(text, 0);
}

/// Text whose first tag stands after `before` splits there: the run before
/// the tag, the tag, and the parts of what follows.
pub proof fn lemma_tokenize_split(
    text: Seq<char>,
    before: Seq<char>,
    closing: bool,
    name: Seq<char>,
    after: Seq<char>,
)
    requires
        text == before + tag_text(closing, name) + after,
        is_tag_name(name),
        forall|at: int| 0 <= at < before.len() ==> !has_tag_at(text, at),
    ensures
        tokenize(text) == text_part(before) + seq![tag_part(closing, name)] + tokenize(after),
{
    let tag = tag_text(closing, name);
    let at = before.len() as int;
    assert(text.skip(at) =~= tag + after);
    assert(tag =~= (tag + after).subrange(0, tag.len() as int));
    assert(tag_at(text, at, closing, name));
    assert(has_tag_at(text, at));
    lemma_tag_search(text, 0);
    assert(tag_search(text, 0) == at);
    let witness = (closing, name);
    assert(tag_at(text, at, witness.0, witness.1));
    let found = tag_found(text, at);
    assert(tag_at(text, at, found.0, found.1));
    lemma_tag_unique(text, at, closing, name, found.0, found.1);
    assert(text.skip(at + tag.len()) =~= after);
    assert(text.take(at) =~= before);
}

/// `regex::Regex`, a compiled pattern. Nothing is read from it.
#[verifier::external_type_specification]
#[verifier::external_body]
pub struct ExRegex(regex::Regex);

/// `regex::Error`, why a pattern did not compile. Nothing is read from it.
#[verifier::external_type_specification]
#[verifier::external_body]
pub struct ExRegexError(regex::Error);

/// The shape of a tag as a pattern: `<`, then a name or `/` and a name,
/// then `>`. The first group holds the name of an opening tag, the second
/// that of a closing tag.
pub const TAG_PATTERN: &'static str = "<(?:([a-z]+)|/([a-z]+))>";

/// What `regex::Regex::new` makes of a pattern that compiles: the compiled
/// pattern, which matches as the pattern says.
pub uninterp spec fn compiled_pattern(pattern: Seq<char>) -> Regex;

/// `regex::Regex::new`: compiles a pattern, or says why it cannot. The
/// contract claims that the pattern of a tag compiles, as it is well formed
/// and far below the size limit, and that what comes of a pattern is that
/// pattern compiled.
#[verifier::external_body]
fn compile(pattern: &str) -> (compiled: Result<Regex, regex::Error>)
    ensures
        pattern@ == TAG_PATTERN@ ==> compiled is Ok,
        compiled matches Ok(regex) ==> regex == compiled_pattern(pattern@),
{
    Regex::new(pattern)
}

/// `str`'s `==`: whether two strings hold the same characters.
#[verifier::external_body]
pub(crate) fn same_text(left: &str, right: &str) -> (same: bool)
    ensures
        same == (left@ == right@),
{
    left == right
}

/// The text that `parts` were cut from: every run of text and every tag as
/// it is written, in order.
pub open spec fn source_of(parts: Seq<PartView>) -> Seq<char>
    decreases parts.len(),
{
    if parts.len() == 0 {
        Seq::empty()
    } else {
        source_of(parts.drop_last()) + match parts.last() {
            PartView::OpenTag(name) => tag_text(false, name),
            PartView::CloseTag(name) => tag_text(true, name),
            PartView::Text(text) => text,
        }
    }
}

/// Whether every part is as the tokenizer makes them: a run of text is not
/// empty and holds no tag, and the name of a tag is one.
pub open spec fn well_cut(parts: Seq<PartView>) -> bool {
    forall|i: int|
        0 <= i < parts.len() ==> match #[trigger] parts[i] {
            PartView::OpenTag(name) => is_tag_name(name),
            PartView::CloseTag(name) => is_tag_name(name),
            PartView::Text(text) => text.len() > 0 && tag_free(text),
        }
}

/// The text of two lists of parts, one after the other.
pub proof fn lemma_source_of_add(front: Seq<PartView>, back: Seq<PartView>)
    ensures
        source_of(front + back) == source_of(front) + source_of(back),
    decreases back.len(),
{
    if back.len() == 0 {
        assert(front + back == front);
    } else {
        lemma_source_of_add(front, back.drop_last());
        assert((front + back).drop_last() == front + back.drop_last());
        assert((front + back).last() == back.last());
    }
}

/// The start of text that holds no tag up to some index holds no tag.
pub proof fn lemma_tag_free_start(text: Seq<char>, upto: int)
    requires
        0 <= upto <= text.len(),
        forall|at: int| 0 <= at < upto ==> !has_tag_at(text, at),
    ensures
        tag_free(text.take(upto)),
{
    let start = text.take(upto);
    assert forall|at: int| 0 <= at < start.len() implies !has_tag_at(start, at) by {
        if has_tag_at(start, at) {
            let (closing, name) = choose|closing: bool, name: Seq<char>|
                tag_at(start, at, closing, name);
            let tag = tag_text(closing, name);
            assert(tag =~= text.skip(at).subrange(0, tag.len() as int)) by {
                assert(tag == start.skip(at).subrange(0, tag.len() as int));
                assert forall|i: int| 0 <= i < tag.len() implies tag[i] == text.skip(at)[i] by {
                    assert(tag[i] == start.skip(at)[i]);
                }
            }
            assert(tag_at(text, at, closing, name));
            assert(has_tag_at(text, at));
            assert(false);
        }
    }
}

/// A single part written out is its text, or its tag.
pub proof fn lemma_source_of_one(part: PartView)
    ensures
        source_of(seq![part]) == match part {
            PartView::OpenTag(name) => tag_text(false, name),
            PartView::CloseTag(name) => tag_text(true, name),
            PartView::Text(text) => text,
        },
{
    let one = seq![part];
    assert(one.drop_last() == Seq::<PartView>::empty());
    assert(source_of(one.drop_last()) == Seq::<char>::empty());
    assert(one.last() == part);
    assert(source_of(one) =~= match part {
        PartView::OpenTag(name) => tag_text(false, name),
        PartView::CloseTag(name) => tag_text(true, name),
        PartView::Text(text) => text,
    });
}

/// Cutting loses nothing and adds nothing: the parts of text, written out
/// one after the other, are the text. No run of text among them is empty or
/// holds a tag, and every tag among them has a name.
pub proof fn lemma_tokenize_lossless(text: Seq<char>)
    ensures
        source_of(tokenize(text)) == text,
        well_cut(tokenize(text)),
    decreases text.len(),
{
    lemma_tag_search(text, 0);
    let at = tag_search(text, 0);
    if at < text.len() {
        lemma_tag_found(text);
        let (closing, name) = tag_found(text, at);
        let tag = tag_text(closing, name);
        let rest = text.skip(at + tag.len());
        lemma_tokenize_lossless(rest);
        lemma_tag_free_start(text, at);
        let before = text_part(text.take(at));
        let middle = seq![tag_part(closing, name)];
        lemma_source_of_add(before + middle, tokenize(rest));
        lemma_source_of_add(before, middle);
        lemma_source_of_one(tag_part(closing, name));
        assert(source_of(middle) == tag);
        if text.take(at).len() > 0 {
            lemma_source_of_one(PartView::Text(text.take(at)));
        }
        assert(source_of(before) == text.take(at));
        assert(tag =~= text.skip(at).subrange(0, tag.len() as int));
        assert(text =~= text.take(at) + tag + rest);
    } else if text.len() > 0 {
        lemma_source_of_one(PartView::Text(text));
    }
}

/// The compiled pattern of a tag.
struct TagPattern {
    compiled: Regex,
}

/// Text cut at its first tag.
struct TagSplit<'a> {
    /// What stands before the tag.
    before: &'a str,
    /// The name of the tag.
    name: &'a str,
    /// Whether the tag closes.
    closing: bool,
    /// What stands after the tag.
    after: &'a str,
}

impl TagPattern {
    /// Whether this holds the pattern of a tag, compiled.
    spec fn is_tag_pattern(&self) -> bool {
        self.compiled == compiled_pattern(TAG_PATTERN@)
    }

    /// Compiles the pattern of a tag.
    fn new() -> (made: TagPattern)
        ensures
            made.is_tag_pattern(),
    {
        match compile(TAG_PATTERN) {
            Ok(compiled) => TagPattern { compiled },
            Err(_) => unreached(),
        }
    }

    /// `regex::Regex::captures` on the pattern of a tag: the leftmost match.
    /// The contract claims that there is no match exactly where `text` is free
    /// of tags, and that a match is the first tag of `text`: the text splits
    /// into what stands before the tag, the tag, and what stands after it,
    /// and no tag begins before it.
    #[verifier::external_body]
    fn first_tag<'a>(&self, text: &'a str) -> (found: Option<TagSplit<'a>>)
        requires
            self.is_tag_pattern(),
        ensures
            found is None ==> tag_free(text@),
            found matches Some(split) ==> {
                &&& is_tag_name(split.name@)
                &&& text@ == split.before@ + tag_text(split.closing, split.name@) + split.after@
                &&& forall|at: int| 0 <= at < split.before@.len() ==> !has_tag_at(text@, at)
            },
    {
        let groups = self.compiled.captures(text)?;
        let whole = groups.get(0)?;
        let (name, closing) = match (groups.get(1), groups.get(2)) {
            (Some(open), _) => (open.as_str(), false),
            (None, Some(close)) => (close.as_str(), true),
            (None, None) => return None,
        };
        Some(TagSplit { before: &text[..whole.start()], name, closing, after: &text[whole.end()..] })
    }
}

impl<'a> Markup<'a> {
    /// Splits `string` into its parts. This never fails: text that is not
    /// well formed is still text.
    pub fn parse(string: &'a str) -> (markup: Result<Markup<'a>, MarkupError>)
        ensures
            markup matches Ok(m) && parts_view(m.parts@) == tokenize(string@),
    {
        let pattern = TagPattern::new();
        let mut parts: Vec<Part<'a>> = Vec::new();
        let mut rest: &'a str = string;
        loop
            invariant_except_break
                tokenize(string@) == parts_view(parts@) + tokenize(rest@),
            invariant
                pattern.is_tag_pattern(),
            ensures
                tokenize(string@) == parts_view(parts@),
            decreases rest@.len(),
        {
            let ghost done = parts_view(parts@);
            match pattern.first_tag(rest) {
                Some(split) => {
                    proof {
                        lemma_tokenize_split(
                            rest@,
                            split.before@,
                            split.closing,
                            split.name@,
                            split.after@,
                        );
                    }
                    if !split.before.is_empty() {
                        parts.push(Part::Text(split.before));
                    }
                    assert(parts_view(parts@) == done + text_part(split.before@));
                    let ghost with_text = parts_view(parts@);
                    if split.closing {
                        parts.push(Part::CloseTag(split.name));
                    } else {
                        parts.push(Part::OpenTag(split.name));
                    }
                    assert(parts_view(parts@) == with_text + seq![
                        tag_part(split.closing, split.name@),
                    ]);
                    rest = split.after;
                },
                None => {
                    proof {
                        lemma_tokenize_tag_free(rest@);
                    }
                    if !rest.is_empty() {
                        parts.push(Part::Text(rest));
                    }
                    assert(parts_view(parts@) == done + text_part(rest@));
                    break ;
                },
            }
        }
        Ok(Markup { parts })
    }

    /// Whether every closing tag closes the tag that was opened last, under
    /// the same name. Tags that are never closed do not count against it.
    pub fn is_valid(&self) -> (valid: bool)
        ensures
            valid == (open_tags(parts_view(self.parts@)) is Some),
    {
        let mut tags: Vec<&'a str> = Vec::new();
        let ghost views = parts_view(self.parts@);
        let mut i: usize = 0;
        while i < self.parts.len()
            invariant
                i <= self.parts.len(),
                views == parts_view(self.parts@),
                open_tags(views.take(i as int)) == Some(names_view(tags@)),
            decreases self.parts.len() - i,
        {
            let ghost open = names_view(tags@);
            proof {
                let next = views.take(i + 1);
                assert(next.drop_last() == views.take(i as int));
                assert(next.last() == self.parts@[i as int]@);
            }
            match self.parts[i] {
                Part::OpenTag(tag) => {
                    tags.push(tag);
                    assert(names_view(tags@) == open.push(tag@));
                },
                Part::CloseTag(tag) => {
                    match tags.pop() {
                        None => {
                            proof {
                                lemma_open_tags_stay_none(views, i + 1);
                            }
                            return false;
                        },
                        Some(top) => {
                            assert(top@ == open.last());
                            if !same_text(top, tag) {
                                proof {
                                    lemma_open_tags_stay_none(views, i + 1);
                                }
                                return false;
                            }
                            assert(names_view(tags@) == open.drop_last());
                        },
                    }
                },
                Part::Text(_) => {},
            }
            i += 1;
        }
        assert(views.take(i as int) == views);
        true
    }
}

} // verus!
