//! Renders inline markup such as `<name>text</name>` into terminal output,
//! with the look of each tag taken from a small stylesheet.

pub mod markup;
pub mod paint;
pub mod render;
pub mod styles;
pub mod stylesheet;
pub mod stylesheet_parse;

pub use crate::markup::MarkupError;
pub use crate::styles::{Color, Styles};
pub use crate::stylesheet::StyleSheet;
pub use crate::stylesheet_parse::ParseError;

use crate::markup::tokenize;
use crate::render::{is_rendering, runs_of};
use vstd::pervasive::unreached;
use vstd::prelude::*;

verus! {

/// Text that holds markup and can be rendered with a stylesheet.
pub trait Styled {
    /// The markup that this value holds.
    spec fn markup(&self) -> Seq<char>;

    /// This text rendered with `stylesheet`. The markup must not hold a
    /// closing tag that stands where no tag is open.
    fn styled(&self, stylesheet: &StyleSheet) -> (rendered: String)
        requires
            runs_of(stylesheet@, tokenize(self.markup())) is Some,
        ensures
            is_rendering(runs_of(stylesheet@, tokenize(self.markup()))->0, rendered@),
    ;
}

impl Styled for str {
    open spec fn markup(&self) -> Seq<char> {
        self@
    }

    fn styled(&self, stylesheet: &StyleSheet) -> (rendered: String) {
        match stylesheet.render(self) {
            Ok(rendered) => rendered,
            Err(_) => unreached(),
        }
    }
}

impl Styled for String {
    open spec fn markup(&self) -> Seq<char> {
        self@
    }

    fn styled(&self, stylesheet: &StyleSheet) -> (rendered: String) {
        match stylesheet.render(self.as_str()) {
            Ok(rendered) => rendered,
            Err(_) => unreached(),
        }
    }
}

} // verus!
