//! Rendering markup with a stylesheet: the style of each run of text, and
//! the runs as a terminal shows them.

use crate::markup::{
    lemma_tokenize_tag_free, open_tags, parts_view, tag_free, tokenize, Markup, MarkupError, Part,
    PartView,
};
use crate::paint::{encode, shows};
use crate::styles::{
    all_decorations, effective_style, lemma_effective_style_push, stack_view, Style, StyleView,
    Styles,
};
use crate::stylesheet::{sheet_of, StyleSheet};
use crate::stylesheet_parse::ParseErrorView;
use vstd::prelude::*;
use vstd::string::StringExecFns;

verus! {

/// The style that `sheet` gives to the tag `name`: that of its rule, or the
/// plain style where it has no rule of that name.
pub open spec fn style_of(sheet: Map<Seq<char>, StyleView>, name: Seq<char>) -> StyleView {
    if sheet.contains_key(name) {
        sheet[name]
    } else {
        StyleView::plain()
    }
}

/// The styles of the tags that are open after `parts`, outermost first, or
/// `None` where a closing tag stands with no tag open.
pub open spec fn stack_after(sheet: Map<Seq<char>, StyleView>, parts: Seq<PartView>) -> Option<
    Seq<StyleView>,
>
    decreases parts.len(),
{
    if parts.len() == 0 {
        Some(Seq::empty())
    } else {
        match stack_after(sheet, parts.drop_last()) {
            None => None,
            Some(stack) => match parts.last() {
                PartView::OpenTag(name) => Some(stack.push(style_of(sheet, name))),
                PartView::CloseTag(_) => if stack.len() > 0 {
                    Some(stack.drop_last())
                } else {
                    None
                },
                PartView::Text(_) => Some(stack),
            },
        }
    }
}

/// A run of text with the style it is shown in.
pub ghost struct RunView {
    pub text: Seq<char>,
    pub style: StyleView,
}

/// The runs of text of `parts`, in order, each with its effective style, or
/// `None` where a closing tag stands with no tag open.
pub open spec fn runs_of(sheet: Map<Seq<char>, StyleView>, parts: Seq<PartView>) -> Option<
    Seq<RunView>,
>
    decreases parts.len(),
{
    if parts.len() == 0 {
        Some(Seq::empty())
    } else {
        match (runs_of(sheet, parts.drop_last()), stack_after(sheet, parts.drop_last())) {
            (Some(runs), Some(stack)) => match parts.last() {
                PartView::Text(text) => Some(
                    runs.push(RunView { text, style: effective_style(stack) }),
                ),
                PartView::OpenTag(_) => Some(runs),
                PartView::CloseTag(_) => if stack.len() > 0 {
                    Some(runs)
                } else {
                    None
                },
            },
            _ => None,
        }
    }
}

/// All of `pieces`, one after the other.
pub open spec fn concat(pieces: Seq<Seq<char>>) -> Seq<char>
    decreases pieces.len(),
{
    if pieces.len() == 0 {
        Seq::empty()
    } else {
        concat(pieces.drop_last()) + pieces.last()
    }
}

/// The characters of each of `pieces`.
pub open spec fn pieces_view(pieces: Seq<String>) -> Seq<Seq<char>> {
    pieces.map_values(|piece: String| piece@)
}

/// All of `pieces`, one after the other.
pub fn join(pieces: &Vec<String>) -> (out: String)
    ensures
        out@ == concat(pieces_view(pieces@)),
{
    let mut out = String::new();
    let mut i: usize = 0;
    while i < pieces.len()
        invariant
            i <= pieces.len(),
            out@ == concat(pieces_view(pieces@).take(i as int)),
        decreases pieces.len() - i,
    {
        out.append(pieces[i].as_str());
        assert(pieces_view(pieces@).take(i + 1).drop_last() == pieces_view(pieces@).take(i as int));
        i += 1;
    }
    assert(pieces_view(pieces@).take(i as int) == pieces_view(pieces@));
    out
}

/// Whether `out` shows `runs`: it is made of one piece for each run, in
/// order, and each piece shows the text of its run in the style of its run.
pub open spec fn is_rendering(runs: Seq<RunView>, out: Seq<char>) -> bool {
    exists|pieces: Seq<Seq<char>>| renders(runs, pieces) && out == concat(pieces)
}

/// Whether each of `pieces` shows the run of `runs` at the same place.
pub open spec fn renders(runs: Seq<RunView>, pieces: Seq<Seq<char>>) -> bool {
    &&& pieces.len() == runs.len()
    &&& forall|i: int|
        0 <= i < runs.len() ==> shows(#[trigger] pieces[i], runs[i].text, runs[i].style)
}

/// Text cut out of markup, with the style it is to be shown in.
#[derive(Debug)]
pub struct ColoredText<'a> {
    pub text: &'a str,
    pub style: Style,
}

impl<'a> View for ColoredText<'a> {
    type V = RunView;

    open spec fn view(&self) -> RunView {
        RunView { text: self.text@, style: self.style@ }
    }
}

/// The values of a list of styled texts, in the same order.
pub open spec fn runs_view(runs: Seq<ColoredText>) -> Seq<RunView> {
    runs.map_values(|run: ColoredText| run@)
}

/// Once a closing tag has found no tag open, more parts do not mend it.
pub proof fn lemma_runs_stay_none(sheet: Map<Seq<char>, StyleView>, parts: Seq<PartView>, n: int)
    requires
        0 <= n <= parts.len(),
        runs_of(sheet, parts.take(n)) is None,
    ensures
        runs_of(sheet, parts) is None,
    decreases parts.len(),
{
    if n < parts.len() {
        assert(parts.drop_last().take(n) == parts.take(n));
        lemma_runs_stay_none(sheet, parts.drop_last(), n);
    } else {
        assert(parts.take(n) == parts);
    }
}

/// The runs of `parts` are there exactly where the stack of styles is.
pub proof fn lemma_runs_with_stack(sheet: Map<Seq<char>, StyleView>, parts: Seq<PartView>)
    ensures
        runs_of(sheet, parts) is Some <==> stack_after(sheet, parts) is Some,
    decreases parts.len(),
{
    if parts.len() > 0 {
        lemma_runs_with_stack(sheet, parts.drop_last());
    }
}

/// A closing tag that stands where no tag is open makes the markup fail,
/// whatever follows it.
pub proof fn lemma_unmatched_closing_tag(
    sheet: Map<Seq<char>, StyleView>,
    parts: Seq<PartView>,
    at: int,
)
    requires
        0 <= at < parts.len(),
        parts[at] is CloseTag,
        stack_after(sheet, parts.take(at)) == Some(Seq::<StyleView>::empty()),
    ensures
        runs_of(sheet, parts) is None,
{
    let upto = parts.take(at + 1);
    assert(upto.drop_last() == parts.take(at));
    assert(upto.last() == parts[at]);
    lemma_runs_with_stack(sheet, parts.take(at));
    lemma_runs_stay_none(sheet, parts, at + 1);
}

/// Markup in which every closing tag closes the tag that was opened last,
/// under its name, never closes a tag that is not open; and after it as many
/// styles are on the stack as tags are open. So where every tag has been
/// closed, the stack is empty.
pub proof fn lemma_balanced_stack(sheet: Map<Seq<char>, StyleView>, parts: Seq<PartView>)
    requires
        open_tags(parts) is Some,
    ensures
        stack_after(sheet, parts) is Some,
        stack_after(sheet, parts)->0.len() == open_tags(parts)->0.len(),
        open_tags(parts) == Some(Seq::<Seq<char>>::empty()) ==> stack_after(sheet, parts) == Some(
            Seq::<StyleView>::empty(),
        ),
    decreases parts.len(),
{
    if parts.len() > 0 {
        lemma_balanced_stack(sheet, parts.drop_last());
    }
    if open_tags(parts) == Some(Seq::<Seq<char>>::empty()) {
        let stack = stack_after(sheet, parts)->0;
        assert(open_tags(parts)->0.len() == 0);
        assert(stack =~= Seq::<StyleView>::empty());
    }
}

/// One piece is the whole of what it is joined to.
pub proof fn lemma_concat_one(piece: Seq<char>)
    ensures
        concat(seq![piece]) == piece,
{
    assert(seq![piece].drop_last() == Seq::<Seq<char>>::empty());
    assert(concat(seq![piece].drop_last()) == Seq::<char>::empty());
}

/// Markup without a tag is rendered as it stands, whatever the stylesheet:
/// rendering succeeds, and what comes out is the markup.
pub proof fn lemma_render_tag_free(
    sheet: Map<Seq<char>, StyleView>,
    markup: Seq<char>,
    out: Seq<char>,
)
    requires
        tag_free(markup),
    ensures
        runs_of(sheet, tokenize(markup)) is Some,
        is_rendering(runs_of(sheet, tokenize(markup))->0, out) ==> out == markup,
{
    lemma_tokenize_tag_free(markup);
    let parts = tokenize(markup);
    let runs = runs_of(sheet, parts)->0;
    if markup.len() > 0 {
        let none = Seq::<PartView>::empty();
        assert(parts.drop_last() == none);
        assert(parts.last() == PartView::Text(markup));
        assert(runs_of(sheet, none) == Some(Seq::<RunView>::empty()));
        assert(stack_after(sheet, none) == Some(Seq::<StyleView>::empty()));
        assert(Seq::<RunView>::empty().push(
            RunView { text: markup, style: effective_style(Seq::empty()) },
        ) == seq![RunView { text: markup, style: effective_style(Seq::empty()) }]);
        assert(runs == seq![RunView { text: markup, style: effective_style(Seq::empty()) }]);
    }
    if is_rendering(runs, out) {
        let pieces = choose|pieces: Seq<Seq<char>>| renders(runs, pieces) && out == concat(pieces);
        if markup.len() > 0 {
            assert(shows(pieces[0], runs[0].text, runs[0].style));
            assert(pieces == seq![markup]);
            lemma_concat_one(markup);
        } else {
            assert(pieces == Seq::<Seq<char>>::empty());
        }
    }
}

/// The runs of text of `parts`, in order, without their tags.
pub open spec fn texts_of(parts: Seq<PartView>) -> Seq<Seq<char>>
    decreases parts.len(),
{
    if parts.len() == 0 {
        Seq::empty()
    } else {
        match parts.last() {
            PartView::Text(text) => texts_of(parts.drop_last()).push(text),
            _ => texts_of(parts.drop_last()),
        }
    }
}

/// Whether `sheet` gives the plain style to every name.
pub open spec fn all_plain(sheet: Map<Seq<char>, StyleView>) -> bool {
    forall|name: Seq<char>| #[trigger] style_of(sheet, name) == StyleView::plain()
}

/// A stylesheet without rules styles nothing.
pub proof fn lemma_no_rules_all_plain()
    ensures
        all_plain(Map::<Seq<char>, StyleView>::empty()),
{
}

/// A stack of plain styles makes plain text.
pub proof fn lemma_plain_stack(stack: Seq<StyleView>)
    requires
        forall|i: int| 0 <= i < stack.len() ==> stack[i] == StyleView::plain(),
    ensures
        effective_style(stack) == StyleView::plain(),
    decreases stack.len(),
{
    if stack.len() > 0 {
        assert forall|i: int| 0 <= i < stack.drop_last().len() implies stack.drop_last()[i]
            == StyleView::plain() by {
            assert(stack.drop_last()[i] == stack[i]);
        }
        lemma_plain_stack(stack.drop_last());
        assert(stack.last() == stack[stack.len() - 1]);
        assert(all_decorations(stack) =~= Seq::<Styles>::empty());
    }
}

/// The runs of markup are its runs of text, in order, whatever the
/// stylesheet: the tags are gone and no text is lost.
pub proof fn lemma_run_texts(sheet: Map<Seq<char>, StyleView>, parts: Seq<PartView>)
    requires
        runs_of(sheet, parts) is Some,
    ensures
        runs_of(sheet, parts)->0.len() == texts_of(parts).len(),
        forall|i: int|
            0 <= i < texts_of(parts).len() ==> (#[trigger] runs_of(sheet, parts)->0[i]).text
                == texts_of(parts)[i],
    decreases parts.len(),
{
    if parts.len() > 0 {
        lemma_run_texts(sheet, parts.drop_last());
    }
}

/// How many tags are open after `parts`: one more for each opening tag and
/// one less for each closing tag.
pub open spec fn depth_after(parts: Seq<PartView>) -> int
    decreases parts.len(),
{
    if parts.len() == 0 {
        0
    } else {
        depth_after(parts.drop_last()) + match parts.last() {
            PartView::OpenTag(_) => 1int,
            PartView::CloseTag(_) => -1int,
            PartView::Text(_) => 0int,
        }
    }
}

/// The stack of styles is as deep as tags are open.
pub proof fn lemma_stack_depth(sheet: Map<Seq<char>, StyleView>, parts: Seq<PartView>)
    requires
        stack_after(sheet, parts) is Some,
    ensures
        stack_after(sheet, parts)->0.len() == depth_after(parts),
    decreases parts.len(),
{
    if parts.len() > 0 {
        lemma_stack_depth(sheet, parts.drop_last());
    }
}

/// Under a stylesheet that styles nothing, every style on the stack is
/// plain, and so is the style of every run.
pub proof fn lemma_plain_runs(sheet: Map<Seq<char>, StyleView>, parts: Seq<PartView>)
    requires
        all_plain(sheet),
        runs_of(sheet, parts) is Some,
    ensures
        stack_after(sheet, parts) is Some,
        forall|i: int|
            0 <= i < stack_after(sheet, parts)->0.len() ==> stack_after(sheet, parts)->0[i]
                == StyleView::plain(),
        forall|i: int|
            0 <= i < runs_of(sheet, parts)->0.len() ==> (#[trigger] runs_of(sheet, parts)->0[i]).style
                == StyleView::plain(),
    decreases parts.len(),
{
    lemma_runs_with_stack(sheet, parts);
    if parts.len() > 0 {
        let front = parts.drop_last();
        lemma_plain_runs(sheet, front);
        let stack = stack_after(sheet, front)->0;
        lemma_plain_stack(stack);
        match parts.last() {
            PartView::OpenTag(name) => {
                assert(style_of(sheet, name) == StyleView::plain());
            },
            _ => {},
        }
    }
}

/// With a stylesheet that styles nothing, and so with one that has no rule,
/// markup is rendered as its runs of text, one after the other: the tags
/// are left out and nothing is added.
pub proof fn lemma_render_unstyled(
    sheet: Map<Seq<char>, StyleView>,
    markup: Seq<char>,
    out: Seq<char>,
)
    requires
        all_plain(sheet),
        runs_of(sheet, tokenize(markup)) is Some,
        is_rendering(runs_of(sheet, tokenize(markup))->0, out),
    ensures
        out == concat(texts_of(tokenize(markup))),
{
    let parts = tokenize(markup);
    let runs = runs_of(sheet, parts)->0;
    lemma_plain_runs(sheet, parts);
    lemma_run_texts(sheet, parts);
    let pieces = choose|pieces: Seq<Seq<char>>| renders(runs, pieces) && out == concat(pieces);
    assert forall|i: int| 0 <= i < pieces.len() implies pieces[i] == texts_of(parts)[i] by {
        assert(shows(pieces[i], runs[i].text, runs[i].style));
        assert(runs[i].style.is_plain());
    }
    assert(pieces =~= texts_of(parts));
}

/// Text in a tag in a tag: the text before and behind the inner tag has the
/// style of the outer tag alone, and the text within the inner tag has the
/// style of the inner tag laid over that of the outer one.
pub proof fn lemma_nested_runs(
    sheet: Map<Seq<char>, StyleView>,
    outer: Seq<char>,
    inner: Seq<char>,
    before: Seq<char>,
    within: Seq<char>,
    behind: Seq<char>,
)
    ensures
        runs_of(
            sheet,
            seq![
                PartView::OpenTag(outer),
                PartView::Text(before),
                PartView::OpenTag(inner),
                PartView::Text(within),
                PartView::CloseTag(inner),
                PartView::Text(behind),
                PartView::CloseTag(outer),
            ],
        ) == Some(
            seq![
                RunView { text: before, style: style_of(sheet, outer) },
                RunView {
                    text: within,
                    style: style_of(sheet, outer).merge(style_of(sheet, inner)),
                },
                RunView { text: behind, style: style_of(sheet, outer) },
            ],
        ),
{
    let parts = seq![
        PartView::OpenTag(outer),
        PartView::Text(before),
        PartView::OpenTag(inner),
        PartView::Text(within),
        PartView::CloseTag(inner),
        PartView::Text(behind),
        PartView::CloseTag(outer),
    ];
    let one = style_of(sheet, outer);
    let two = style_of(sheet, inner);
    let empty = Seq::<StyleView>::empty();
    lemma_effective_style_push(empty, one);
    lemma_effective_style_push(seq![one], two);
    assert(empty.push(one) == seq![one]);
    assert(seq![one].push(two) == seq![one, two]);
    assert(seq![one, two].drop_last() == seq![one]);
    assert(seq![one].drop_last() == empty);
    assert(StyleView::plain().merge(one) == one);
    assert(parts.take(0) == Seq::<PartView>::empty());
    assert(parts.take(1).drop_last() == parts.take(0));
    assert(parts.take(2).drop_last() == parts.take(1));
    assert(parts.take(3).drop_last() == parts.take(2));
    assert(parts.take(4).drop_last() == parts.take(3));
    assert(parts.take(5).drop_last() == parts.take(4));
    assert(parts.take(6).drop_last() == parts.take(5));
    assert(parts.take(7).drop_last() == parts.take(6));
    assert(parts.take(7) == parts);
    assert(stack_after(sheet, parts.take(0)) == Some(empty));
    assert(stack_after(sheet, parts.take(1)) == Some(seq![one]));
    assert(stack_after(sheet, parts.take(2)) == Some(seq![one]));
    assert(stack_after(sheet, parts.take(3)) == Some(seq![one, two]));
    assert(stack_after(sheet, parts.take(4)) == Some(seq![one, two]));
    assert(stack_after(sheet, parts.take(5)) == Some(seq![one]));
    assert(stack_after(sheet, parts.take(6)) == Some(seq![one]));
    let first = RunView { text: before, style: one };
    let second = RunView { text: within, style: one.merge(two) };
    let third = RunView { text: behind, style: one };
    assert(runs_of(sheet, parts.take(0)) == Some(Seq::<RunView>::empty()));
    assert(runs_of(sheet, parts.take(1)) == Some(Seq::<RunView>::empty()));
    assert(Seq::<RunView>::empty().push(first) == seq![first]);
    assert(runs_of(sheet, parts.take(2)) == Some(seq![first]));
    assert(runs_of(sheet, parts.take(3)) == Some(seq![first]));
    assert(seq![first].push(second) == seq![first, second]);
    assert(runs_of(sheet, parts.take(4)) == Some(seq![first, second]));
    assert(runs_of(sheet, parts.take(5)) == Some(seq![first, second]));
    assert(seq![first, second].push(third) == seq![first, second, third]);
    assert(runs_of(sheet, parts.take(6)) == Some(seq![first, second, third]));
}

/// Two stylesheets that were read from the same source have the same rules,
/// and so they render alike: every markup has the same runs under both, and
/// what can come out under one can come out under the other.
pub proof fn lemma_same_source(
    source: Seq<char>,
    first: StyleSheet,
    second: StyleSheet,
    markup: Seq<char>,
    out: Seq<char>,
)
    requires
        sheet_of(source) == Ok::<Map<Seq<char>, StyleView>, ParseErrorView>(first@),
        sheet_of(source) == Ok::<Map<Seq<char>, StyleView>, ParseErrorView>(second@),
    ensures
        first@ == second@,
        runs_of(first@, tokenize(markup)) == runs_of(second@, tokenize(markup)),
        runs_of(first@, tokenize(markup)) is Some ==> (is_rendering(
            runs_of(first@, tokenize(markup))->0,
            out,
        ) <==> is_rendering(runs_of(second@, tokenize(markup))->0, out)),
{
}

impl StyleSheet {
    /// The runs of text of `markup`, in order, each with the style that the
    /// tags around it give it. A tag without a rule changes nothing, and a
    /// closing tag closes the tag that was opened last, whatever its name.
    /// The one error is a closing tag that stands where no tag is open.
    pub fn render_to_colored_string<'a>(&self, markup: &'a str) -> (colored: Result<
        Vec<ColoredText<'a>>,
        MarkupError,
    >)
        ensures
            match runs_of(self@, tokenize(markup@)) {
                Some(runs) => colored matches Ok(texts) && runs_view(texts@) == runs,
                None => colored == Err::<Vec<ColoredText<'a>>, MarkupError>(
                    MarkupError::UnmatchedClosingTag,
                ),
            },
    {
        let parts = match Markup::parse(markup) {
            Ok(markup) => markup.parts,
            Err(error) => {
                return Err(error);
            },
        };
        let ghost views = parts_view(parts@);
        let mut style_stack: Vec<Style> = Vec::new();
        let mut colored_strings: Vec<ColoredText<'a>> = Vec::new();
        let mut i: usize = 0;
        while i < parts.len()
            invariant
                i <= parts.len(),
                views == parts_view(parts@),
                views == tokenize(markup@),
                stack_after(self@, views.take(i as int)) == Some(stack_view(style_stack@)),
                runs_of(self@, views.take(i as int)) == Some(runs_view(colored_strings@)),
            decreases parts.len() - i,
        {
            let ghost stack = stack_view(style_stack@);
            let ghost runs = runs_view(colored_strings@);
            proof {
                let next = views.take(i + 1);
                assert(next.drop_last() == views.take(i as int));
                assert(next.last() == parts@[i as int]@);
            }
            match parts[i] {
                Part::Text(text) => {
                    let style = Style::resolve(&style_stack);
                    colored_strings.push(ColoredText { text, style });
                    assert(runs_view(colored_strings@) == runs.push(
                        RunView { text: text@, style: effective_style(stack) },
                    ));
                },
                Part::OpenTag(tag) => {
                    let style = match self.get(tag) {
                        Some(style) => style.clone(),
                        None => Style::default(),
                    };
                    style_stack.push(style);
                    assert(stack_view(style_stack@) == stack.push(style_of(self@, tag@)));
                },
                Part::CloseTag(_) => {
                    if style_stack.pop().is_none() {
                        proof {
                            assert(stack.len() == 0);
                            assert(runs_of(self@, views.take(i + 1)) is None);
                            lemma_runs_stay_none(self@, views, i + 1);
                        }
                        return Err(MarkupError::UnmatchedClosingTag);
                    }
                    assert(stack_view(style_stack@) == stack.drop_last());
                },
            }
            i += 1;
        }
        assert(views.take(i as int) == views);
        Ok(colored_strings)
    }

    /// Renders `markup`: its runs of text, each as the terminal library
    /// writes it in its style, one after the other. The one error is a
    /// closing tag that stands where no tag is open. Markup without a tag
    /// comes back as it is, and with a stylesheet that styles nothing the
    /// tags are left out and nothing is added.
    pub fn render(&self, markup: &str) -> (rendered: Result<String, MarkupError>)
        ensures
            match runs_of(self@, tokenize(markup@)) {
                Some(runs) => rendered matches Ok(out) && is_rendering(runs, out@),
                None => rendered == Err::<String, MarkupError>(MarkupError::UnmatchedClosingTag),
            },
            tag_free(markup@) ==> (rendered matches Ok(out) && out@ == markup@),
            all_plain(self@) ==> (rendered matches Ok(out) ==> out@ == concat(
                texts_of(tokenize(markup@)),
            )),
    {
        let colored_strings = match self.render_to_colored_string(markup) {
            Ok(texts) => texts,
            Err(error) => {
                proof {
                    if tag_free(markup@) {
                        lemma_render_tag_free(self@, markup@, Seq::empty());
                    }
                }
                return Err(error);
            },
        };
        let ghost runs = runs_view(colored_strings@);
        let mut pieces: Vec<String> = Vec::new();
        let mut i: usize = 0;
        while i < colored_strings.len()
            invariant
                i <= colored_strings.len(),
                runs == runs_view(colored_strings@),
                renders(runs.take(i as int), pieces_view(pieces@)),
            decreases colored_strings.len() - i,
        {
            let ghost shown = pieces_view(pieces@);
            let piece = encode(colored_strings[i].text, &colored_strings[i].style);
            proof {
                let longer = shown.push(piece@);
                assert forall|k: int| 0 <= k < i + 1 implies shows(
                    #[trigger] longer[k],
                    runs.take(i + 1)[k].text,
                    runs.take(i + 1)[k].style,
                ) by {
                    if k < i {
                        assert(longer[k] == shown[k]);
                        assert(runs.take(i + 1)[k] == runs.take(i as int)[k]);
                    }
                }
            }
            pieces.push(piece);
            assert(pieces_view(pieces@) == shown.push(piece@));
            i += 1;
        }
        let result = join(&pieces);
        assert(runs.take(i as int) == runs);
        proof {
            if tag_free(markup@) {
                lemma_render_tag_free(self@, markup@, result@);
            }
            if all_plain(self@) {
                lemma_render_unstyled(self@, markup@, result@);
            }
        }
        Ok(result)
    }
}

} // verus!
