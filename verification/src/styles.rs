//! Colors, text decorations and the style a rule gives to text.

use vstd::prelude::*;

verus! {

/// A terminal color: one of the sixteen palette entries or a 24-bit triple.
#[derive(Clone, Copy, PartialEq, Eq, Structural, Debug)]
pub enum Color {
    Black,
    Red,
    Green,
    Yellow,
    Blue,
    Magenta,
    Cyan,
    White,
    BrightBlack,
    BrightRed,
    BrightGreen,
    BrightYellow,
    BrightBlue,
    BrightMagenta,
    BrightCyan,
    BrightWhite,
    TrueColor { r: u8, g: u8, b: u8 },
}

/// A text decoration. Decorations are independent of color and of each other.
#[derive(Clone, Copy, PartialEq, Eq, Structural, Debug, Hash)]
pub enum Styles {
    Bold,
    Dimmed,
    Underline,
    Reversed,
    Italic,
    Blink,
    Hidden,
    Strikethrough,
}

/// What one stylesheet rule says: decorations in the order they were written,
/// and at most one color for each of foreground and background.
#[derive(Debug)]
pub struct Style {
    pub styles: Vec<Styles>,
    pub foreground: Option<Color>,
    pub background: Option<Color>,
}

/// The mathematical value of a [`Style`].
pub ghost struct StyleView {
    pub styles: Seq<Styles>,
    pub foreground: Option<Color>,
    pub background: Option<Color>,
}

impl View for Style {
    type V = StyleView;

    open spec fn view(&self) -> StyleView {
        StyleView {
            styles: self.styles@,
            foreground: self.foreground,
            background: self.background,
        }
    }
}

impl StyleView {
    /// The style that adds nothing: no decoration, no color.
    pub open spec fn plain() -> StyleView {
        StyleView { styles: Seq::empty(), foreground: None, background: None }
    }

    /// Whether this style leaves text as it is.
    pub open spec fn is_plain(self) -> bool {
        self.styles.len() == 0 && self.foreground is None && self.background is None
    }

    /// `self` with `inner` laid over it: the decorations of both, those of
    /// `self` first, and each color of `inner` where it has one.
    pub open spec fn merge(self, inner: StyleView) -> StyleView {
        StyleView {
            styles: self.styles + inner.styles,
            foreground: if inner.foreground is Some {
                inner.foreground
            } else {
                self.foreground
            },
            background: if inner.background is Some {
                inner.background
            } else {
                self.background
            },
        }
    }
}

/// The decorations of every style of `stack`, outermost first.
pub open spec fn all_decorations(stack: Seq<StyleView>) -> Seq<Styles>
    decreases stack.len(),
{
    if stack.len() == 0 {
        Seq::empty()
    } else {
        all_decorations(stack.drop_last()) + stack.last().styles
    }
}

/// The foreground of the innermost style of `stack` that has one.
pub open spec fn innermost_foreground(stack: Seq<StyleView>) -> Option<Color>
    decreases stack.len(),
{
    if stack.len() == 0 {
        None
    } else if stack.last().foreground is Some {
        stack.last().foreground
    } else {
        innermost_foreground(stack.drop_last())
    }
}

/// The background of the innermost style of `stack` that has one.
pub open spec fn innermost_background(stack: Seq<StyleView>) -> Option<Color>
    decreases stack.len(),
{
    if stack.len() == 0 {
        None
    } else if stack.last().background is Some {
        stack.last().background
    } else {
        innermost_background(stack.drop_last())
    }
}

/// The effective style of text that stands inside the tags of `stack`,
/// listed from the outermost tag to the innermost.
pub open spec fn effective_style(stack: Seq<StyleView>) -> StyleView {
    StyleView {
        styles: all_decorations(stack),
        foreground: innermost_foreground(stack),
        background: innermost_background(stack),
    }
}

/// The views of a stack of styles, in the same order.
pub open spec fn stack_view(stack: Seq<Style>) -> Seq<StyleView> {
    stack.map_values(|s: Style| s@)
}

impl Style {
    /// A style from its parts; no list of decorations means none.
    pub fn new(
        styles: Option<Vec<Styles>>,
        foreground: Option<Color>,
        background: Option<Color>,
    ) -> (style: Style)
        ensures
            style@.styles == match styles {
                Some(list) => list@,
                None => Seq::empty(),
            },
            style@.foreground == foreground,
            style@.background == background,
    {
        let styles = match styles {
            Some(list) => list,
            None => Vec::new(),
        };
        Style { styles, foreground, background }
    }

    /// Whether two styles say the same: the same decorations in the same
    /// order, and the same colors.
    pub fn same(&self, other: &Style) -> (same: bool)
        ensures
            same == (self@ == other@),
    {
        if self.styles.len() != other.styles.len() {
            return false;
        }
        let mut i: usize = 0;
        while i < self.styles.len()
            invariant
                i <= self.styles.len(),
                self.styles.len() == other.styles.len(),
                self.styles@.take(i as int) == other.styles@.take(i as int),
            decreases self.styles.len() - i,
        {
            if self.styles[i] != other.styles[i] {
                return false;
            }
            assert(self.styles@.take(i + 1) == self.styles@.take(i as int).push(self.styles@[i as int]));
            assert(other.styles@.take(i + 1) == other.styles@.take(i as int).push(other.styles@[i as int]));
            i += 1;
        }
        assert(self.styles@.take(i as int) == self.styles@);
        assert(other.styles@.take(i as int) == other.styles@);
        self.foreground == other.foreground && self.background == other.background
    }
}

/// A copy of a list of decorations.
pub(crate) fn copy_decorations(list: &Vec<Styles>) -> (copy: Vec<Styles>)
    ensures
        copy@ == list@,
{
    let mut copy: Vec<Styles> = Vec::new();
    let mut i: usize = 0;
    while i < list.len()
        invariant
            i <= list.len(),
            copy@ == list@.take(i as int),
        decreases list.len() - i,
    {
        copy.push(list[i]);
        i += 1;
    }
    assert(list@.take(i as int) == list@);
    copy
}

impl Clone for Style {
    fn clone(&self) -> (copy: Style)
        ensures
            copy@ == self@,
    {
        Style {
            styles: copy_decorations(&self.styles),
            foreground: self.foreground,
            background: self.background,
        }
    }
}

impl Default for Style {
    fn default() -> (style: Style)
        ensures
            style@ == StyleView::plain(),
    {
        Style { styles: Vec::new(), foreground: None, background: None }
    }
}

impl PartialEq for Style {
    fn eq(&self, other: &Style) -> (same: bool) {
        self.same(other)
    }
}

impl vstd::std_specs::cmp::PartialEqSpecImpl for Style {
    open spec fn obeys_eq_spec() -> bool {
        true
    }

    open spec fn eq_spec(&self, other: &Style) -> bool {
        self@ == other@
    }
}

impl Style {
    /// This style with `other` laid over it.
    pub fn merge(&self, other: Style) -> (merged: Style)
        ensures
            merged@ == self@.merge(other@),
    {
        let mut styles = self.clone().styles;
        let mut i: usize = 0;
        while i < other.styles.len()
            invariant
                i <= other.styles.len(),
                styles@ == self.styles@ + other.styles@.take(i as int),
            decreases other.styles.len() - i,
        {
            styles.push(other.styles[i]);
            i += 1;
        }
        assert(other.styles@.take(i as int) == other.styles@);
        Style {
            styles,
            foreground: if other.foreground.is_some() {
                other.foreground
            } else {
                self.foreground
            },
            background: if other.background.is_some() {
                other.background
            } else {
                self.background
            },
        }
    }

    /// The effective style under a stack of open tags, outermost first.
    pub fn resolve(stack: &Vec<Style>) -> (style: Style)
        ensures
            style@ == effective_style(stack_view(stack@)),
    {
        let mut styles: Vec<Styles> = Vec::new();
        let mut foreground: Option<Color> = None;
        let mut background: Option<Color> = None;
        let ghost views = stack_view(stack@);
        let mut i: usize = 0;
        while i < stack.len()
            invariant
                i <= stack.len(),
                views == stack_view(stack@),
                styles@ == all_decorations(views.take(i as int)),
                foreground == innermost_foreground(views.take(i as int)),
                background == innermost_background(views.take(i as int)),
            decreases stack.len() - i,
        {
            let entry = &stack[i];
            let ghost before = styles@;
            let mut j: usize = 0;
            while j < entry.styles.len()
                invariant
                    j <= entry.styles.len(),
                    styles@ == before + entry.styles@.take(j as int),
                decreases entry.styles.len() - j,
            {
                styles.push(entry.styles[j]);
                j += 1;
            }
            if entry.foreground.is_some() {
                foreground = entry.foreground;
            }
            if entry.background.is_some() {
                background = entry.background;
            }
            proof {
                let next = views.take(i + 1);
                assert(entry.styles@.take(j as int) == entry.styles@);
                assert(next.drop_last() == views.take(i as int));
                assert(next.last() == entry@);
            }
            i += 1;
        }
        assert(views.take(i as int) == views);
        Style { styles, foreground, background }
    }
}

/// Under no tag at all text is plain, and one more tag lays its style over
/// the style that the tags around it give: its decorations come behind
/// theirs, and each color that it names replaces theirs.
pub proof fn lemma_effective_style_push(stack: Seq<StyleView>, inner: StyleView)
    ensures
        effective_style(Seq::empty()) == StyleView::plain(),
        effective_style(stack.push(inner)) == effective_style(stack).merge(inner),
{
    assert(stack.push(inner).drop_last() == stack);
}

/// The foreground of text is that of the innermost tag around it that names
/// one: a tag further in overrides a tag further out. Where no tag names a
/// foreground, the text has none.
pub proof fn lemma_innermost_foreground(stack: Seq<StyleView>)
    ensures
        match innermost_foreground(stack) {
            Some(color) => exists|at: int|
                0 <= at < stack.len() && #[trigger] stack[at].foreground == Some(color) && forall|
                    inner: int,
                |
                    at < inner < stack.len() ==> (#[trigger] stack[inner]).foreground is None,
            None => forall|at: int| 0 <= at < stack.len() ==> (#[trigger] stack[at]).foreground is None,
        },
    decreases stack.len(),
{
    if stack.len() > 0 {
        let outer = stack.drop_last();
        lemma_innermost_foreground(outer);
        if stack.last().foreground is Some {
            assert(stack[stack.len() - 1].foreground == innermost_foreground(stack));
        } else {
            match innermost_foreground(outer) {
                Some(color) => {
                    let at = choose|at: int|
                        0 <= at < outer.len() && #[trigger] outer[at].foreground == Some(color)
                            && forall|inner: int|
                            at < inner < outer.len() ==> (#[trigger] outer[inner]).foreground is None;
                    assert(stack[at].foreground == Some(color));
                    assert forall|inner: int| at < inner < stack.len() implies (
                    #[trigger] stack[inner]).foreground is None by {
                        if inner < outer.len() {
                            assert(outer[inner] == stack[inner]);
                        }
                    }
                },
                None => {
                    assert forall|at: int| 0 <= at < stack.len() implies (
                    #[trigger] stack[at]).foreground is None by {
                        if at < outer.len() {
                            assert(outer[at] == stack[at]);
                        }
                    }
                },
            }
        }
    }
}

/// The background of text is that of the innermost tag around it that names
/// one. Where no tag names a background, the text has none.
pub proof fn lemma_innermost_background(stack: Seq<StyleView>)
    ensures
        match innermost_background(stack) {
            Some(color) => exists|at: int|
                0 <= at < stack.len() && #[trigger] stack[at].background == Some(color) && forall|
                    inner: int,
                |
                    at < inner < stack.len() ==> (#[trigger] stack[inner]).background is None,
            None => forall|at: int| 0 <= at < stack.len() ==> (#[trigger] stack[at]).background is None,
        },
    decreases stack.len(),
{
    if stack.len() > 0 {
        let outer = stack.drop_last();
        lemma_innermost_background(outer);
        if stack.last().background is Some {
            assert(stack[stack.len() - 1].background == innermost_background(stack));
        } else {
            match innermost_background(outer) {
                Some(color) => {
                    let at = choose|at: int|
                        0 <= at < outer.len() && #[trigger] outer[at].background == Some(color)
                            && forall|inner: int|
                            at < inner < outer.len() ==> (#[trigger] outer[inner]).background is None;
                    assert(stack[at].background == Some(color));
                    assert forall|inner: int| at < inner < stack.len() implies (
                    #[trigger] stack[inner]).background is None by {
                        if inner < outer.len() {
                            assert(outer[inner] == stack[inner]);
                        }
                    }
                },
                None => {
                    assert forall|at: int| 0 <= at < stack.len() implies (
                    #[trigger] stack[at]).background is None by {
                        if at < outer.len() {
                            assert(outer[at] == stack[at]);
                        }
                    }
                },
            }
        }
    }
}

/// The decorations of text are those of all the tags around it, from the
/// outermost to the innermost: none is lost and none is added.
pub proof fn lemma_decorations_accumulate(stack: Seq<StyleView>, at: int)
    requires
        0 <= at < stack.len(),
    ensures
        all_decorations(stack) == all_decorations(stack.take(at)) + stack[at].styles
            + all_decorations(stack.skip(at + 1)),
    decreases stack.len(),
{
    if at == stack.len() - 1 {
        assert(stack.take(at) == stack.drop_last());
        assert(stack.skip(at + 1) == Seq::<StyleView>::empty());
    } else {
        let outer = stack.drop_last();
        lemma_decorations_accumulate(outer, at);
        assert(outer.take(at) == stack.take(at));
        assert(stack.skip(at + 1).drop_last() == outer.skip(at + 1));
        assert(stack.skip(at + 1).last() == stack.last());
        assert(all_decorations(stack.skip(at + 1)) == all_decorations(outer.skip(at + 1))
            + stack.last().styles);
    }
}

} // verus!
