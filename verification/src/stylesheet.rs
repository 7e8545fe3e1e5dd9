//! Stylesheets: styles by tag name.

use crate::markup::same_text;
use crate::styles::{copy_decorations, Color, Style, StyleView, Styles};
use crate::stylesheet_parse::{parse, parse_rules, ParseError, ParseErrorView};
use vstd::prelude::*;
use vstd::std_specs::cmp::PartialEqSpecImpl;

verus! {

/// The mapping that a list of named styles stands for. Where a name occurs
/// more than once, its last entry counts.
pub open spec fn rules_map(entries: Seq<(Seq<char>, StyleView)>) -> Map<Seq<char>, StyleView>
    decreases entries.len(),
{
    if entries.len() == 0 {
        Map::empty()
    } else {
        rules_map(entries.drop_last()).insert(entries.last().0, entries.last().1)
    }
}

/// The names and styles that a list of rules holds.
pub open spec fn owned_view(rules: Seq<(String, Style)>) -> Seq<(Seq<char>, StyleView)> {
    rules.map_values(|rule: (String, Style)| (rule.0@, rule.1@))
}

/// The names and styles of a list of named styles.
pub open spec fn named_view(rules: Seq<(&str, Style)>) -> Seq<(Seq<char>, StyleView)> {
    rules.map_values(|rule: (&str, Style)| (rule.0@, rule.1@))
}

/// The names and styles of a list of rules given by their parts.
pub open spec fn listed_view(
    rules: Seq<(&str, Vec<Styles>, Option<Color>, Option<Color>)>,
) -> Seq<(Seq<char>, StyleView)> {
    rules.map_values(
        |rule: (&str, Vec<Styles>, Option<Color>, Option<Color>)|
            (rule.0@, StyleView { styles: rule.1@, foreground: rule.2, background: rule.3 }),
    )
}

/// Whether no name occurs twice in `entries`.
pub open spec fn distinct_names(entries: Seq<(Seq<char>, StyleView)>) -> bool {
    forall|i: int, j: int| 0 <= i < j < entries.len() ==> entries[i].0 != entries[j].0
}

/// Styles by tag name. Each name has one rule.
#[derive(Debug)]
pub struct StyleSheet {
    styles: Vec<(String, Style)>,
}

impl StyleSheet {
    /// No name heads two rules.
    #[verifier::type_invariant]
    closed spec fn one_rule_for_each_name(&self) -> bool {
        distinct_names(owned_view(self.styles@))
    }
}

impl View for StyleSheet {
    type V = Map<Seq<char>, StyleView>;

    closed spec fn view(&self) -> Map<Seq<char>, StyleView> {
        rules_map(owned_view(self.styles@))
    }
}

/// A name that no later entry repeats has the style of its entry.
pub proof fn lemma_rules_map_last(entries: Seq<(Seq<char>, StyleView)>, at: int)
    requires
        0 <= at < entries.len(),
        forall|later: int| at < later < entries.len() ==> entries[later].0 != entries[at].0,
    ensures
        rules_map(entries).contains_key(entries[at].0),
        rules_map(entries)[entries[at].0] == entries[at].1,
    decreases entries.len(),
{
    if at < entries.len() - 1 {
        lemma_rules_map_last(entries.drop_last(), at);
    }
}

/// The names of the mapping are the names of the entries.
pub proof fn lemma_rules_map_names(entries: Seq<(Seq<char>, StyleView)>, name: Seq<char>)
    ensures
        rules_map(entries).contains_key(name) <==> exists|at: int|
            0 <= at < entries.len() && #[trigger] entries[at].0 == name,
    decreases entries.len(),
{
    if entries.len() > 0 {
        let front = entries.drop_last();
        lemma_rules_map_names(front, name);
        if rules_map(entries).contains_key(name) {
            if entries.last().0 == name {
                assert(entries[entries.len() - 1].0 == name);
            } else {
                let at = choose|at: int| 0 <= at < front.len() && #[trigger] front[at].0 == name;
                assert(entries[at].0 == name);
            }
        } else {
            assert forall|at: int| 0 <= at < entries.len() implies #[trigger] entries[at].0
                != name by {
                if at < front.len() {
                    assert(front[at].0 == entries[at].0);
                }
            }
        }
    }
}

/// Where no name occurs twice, a new style in the place of an entry is the
/// new style of its name.
pub proof fn lemma_rules_map_update(
    entries: Seq<(Seq<char>, StyleView)>,
    at: int,
    style: StyleView,
)
    requires
        distinct_names(entries),
        0 <= at < entries.len(),
    ensures
        distinct_names(entries.update(at, (entries[at].0, style))),
        rules_map(entries.update(at, (entries[at].0, style))) == rules_map(entries).insert(
            entries[at].0,
            style,
        ),
    decreases entries.len(),
{
    let name = entries[at].0;
    let changed = entries.update(at, (name, style));
    if at == entries.len() - 1 {
        assert(changed.drop_last() == entries.drop_last());
        assert(rules_map(changed) =~= rules_map(entries).insert(name, style));
    } else {
        let front = entries.drop_last();
        assert(distinct_names(front)) by {
            assert forall|i: int, j: int| 0 <= i < j < front.len() implies front[i].0
                != front[j].0 by {
                assert(front[i] == entries[i] && front[j] == entries[j]);
            }
        }
        lemma_rules_map_update(front, at, style);
        assert(changed.drop_last() == front.update(at, (name, style)));
        assert(changed.last() == entries.last());
        assert(entries[entries.len() - 1].0 != entries[at].0);
        assert(rules_map(changed) =~= rules_map(entries).insert(name, style));
    }
}

/// Sets the style of `name` in `rules`: in the place of the style that the
/// name had, or at the end where it had none.
fn put(rules: &mut Vec<(String, Style)>, name: &str, style: Style)
    requires
        distinct_names(owned_view(old(rules)@)),
    ensures
        distinct_names(owned_view(final(rules)@)),
        rules_map(owned_view(final(rules)@)) == rules_map(owned_view(old(rules)@)).insert(
            name@,
            style@,
        ),
{
    let ghost entries = owned_view(rules@);
    let mut i: usize = 0;
    while i < rules.len()
        invariant
            i <= rules.len(),
            rules@ == old(rules)@,
            entries == owned_view(rules@),
            distinct_names(entries),
            forall|k: int| 0 <= k < i ==> entries[k].0 != name@,
        decreases rules.len() - i,
    {
        if same_text(rules[i].0.as_str(), name) {
            proof {
                lemma_rules_map_update(entries, i as int, style@);
            }
            rules.set(i, (name.to_owned(), style));
            assert(owned_view(rules@) == entries.update(i as int, (name@, style@)));
            return ;
        }
        i += 1;
    }
    rules.push((name.to_owned(), style));
    assert(owned_view(rules@) == entries.push((name@, style@)));
    assert(entries.push((name@, style@)).drop_last() == entries);
}

/// What a stylesheet source stands for: the mapping of its rules, or the
/// first error in it.
pub open spec fn sheet_of(source: Seq<char>) -> Result<Map<Seq<char>, StyleView>, ParseErrorView> {
    match parse_rules(source) {
        Ok(rules) => Ok(rules_map(rules)),
        Err(error) => Err(error),
    }
}

impl StyleSheet {
    /// A stylesheet from a list of rules, each given as its name, its
    /// decorations, its foreground and its background. Of two rules with one
    /// name the later counts.
    pub fn new(styles: &[(&str, Vec<Styles>, Option<Color>, Option<Color>)]) -> (sheet: StyleSheet)
        ensures
            sheet@ == rules_map(listed_view(styles@)),
    {
        let mut rules: Vec<(String, Style)> = Vec::new();
        let mut i: usize = 0;
        while i < styles.len()
            invariant
                i <= styles.len(),
                distinct_names(owned_view(rules@)),
                rules_map(owned_view(rules@)) == rules_map(listed_view(styles@).take(i as int)),
            decreases styles.len() - i,
        {
            let rule = &styles[i];
            let style = Style::new(Some(copy_decorations(&rule.1)), rule.2, rule.3);
            put(&mut rules, rule.0, style);
            assert(listed_view(styles@).take(i + 1).drop_last() == listed_view(styles@).take(
                i as int,
            ));
            i += 1;
        }
        assert(listed_view(styles@).take(i as int) == listed_view(styles@));
        StyleSheet { styles: rules }
    }

    /// A stylesheet from a list of named styles. Of two styles with one name
    /// the later counts.
    pub fn new_internal(styles: &[(&str, Style)]) -> (sheet: StyleSheet)
        ensures
            sheet@ == rules_map(named_view(styles@)),
    {
        let mut rules: Vec<(String, Style)> = Vec::new();
        let mut i: usize = 0;
        while i < styles.len()
            invariant
                i <= styles.len(),
                distinct_names(owned_view(rules@)),
                rules_map(owned_view(rules@)) == rules_map(named_view(styles@).take(i as int)),
            decreases styles.len() - i,
        {
            let rule = &styles[i];
            put(&mut rules, rule.0, rule.1.clone());
            assert(named_view(styles@).take(i + 1).drop_last() == named_view(styles@).take(
                i as int,
            ));
            i += 1;
        }
        assert(named_view(styles@).take(i as int) == named_view(styles@));
        StyleSheet { styles: rules }
    }

    /// The style of the rule `name`, if there is one.
    pub fn get(&self, name: &str) -> (found: Option<&Style>)
        ensures
            match found {
                Some(style) => self@.contains_key(name@) && self@[name@] == style@,
                None => !self@.contains_key(name@),
            },
    {
        let ghost entries = owned_view(self.styles@);
        proof {
            use_type_invariant(self);
        }
        let mut i: usize = 0;
        while i < self.styles.len()
            invariant
                i <= self.styles.len(),
                entries == owned_view(self.styles@),
                distinct_names(entries),
                forall|earlier: int| 0 <= earlier < i ==> entries[earlier].0 != name@,
            decreases self.styles.len() - i,
        {
            if same_text(self.styles[i].0.as_str(), name) {
                proof {
                    lemma_rules_map_last(entries, i as int);
                }
                return Some(&self.styles[i].1);
            }
            i += 1;
        }
        proof {
            lemma_rules_map_names(entries, name@);
        }
        None
    }

    /// Reads a stylesheet from its source text. Of two rules with one name
    /// the later counts.
    pub fn parse(s: &str) -> (sheet: Result<StyleSheet, ParseError>)
        ensures
            match sheet {
                Ok(made) => sheet_of(s@) == Ok::<Map<Seq<char>, StyleView>, ParseErrorView>(made@),
                Err(error) => sheet_of(s@) == Err::<Map<Seq<char>, StyleView>, ParseErrorView>(
                    error@,
                ),
            },
    {
        match parse(s) {
            Ok(rules) => Ok(StyleSheet::new_internal(rules.as_slice())),
            Err(error) => Err(error),
        }
    }

    /// Whether `other` has every rule of this stylesheet, with the same style.
    fn within(&self, other: &StyleSheet) -> (within: bool)
        ensures
            within == self@.submap_of(other@),
    {
        let ghost entries = owned_view(self.styles@);
        proof {
            use_type_invariant(self);
        }
        let mut i: usize = 0;
        while i < self.styles.len()
            invariant
                i <= self.styles.len(),
                entries == owned_view(self.styles@),
                distinct_names(entries),
                forall|k: int|
                    0 <= k < i ==> other@.contains_key(#[trigger] entries[k].0) && other@[entries[k].0]
                        == self@[entries[k].0],
            decreases self.styles.len() - i,
        {
            proof {
                lemma_rules_map_last(entries, i as int);
            }
            match other.get(self.styles[i].0.as_str()) {
                Some(theirs) => {
                    if !self.styles[i].1.same(theirs) {
                        return false;
                    }
                },
                None => {
                    return false;
                },
            }
            i += 1;
        }
        proof {
            assert forall|name: Seq<char>| #[trigger]
                self@.dom().contains(name) implies other@.dom().contains(name) && self@[name]
                == other@[name] by {
                lemma_rules_map_names(entries, name);
                let at = choose|at: int| 0 <= at < entries.len() && #[trigger] entries[at].0 == name;
                assert(other@.contains_key(entries[at].0));
            }
        }
        true
    }

    /// Whether two stylesheets have the same rules: the same names, each
    /// with the same style.
    pub fn same(&self, other: &StyleSheet) -> (same: bool)
        ensures
            same == (self@ == other@),
    {
        let same = self.within(other) && other.within(self);
        proof {
            if same {
                assert forall|name: Seq<char>|
                    self@.dom().contains(name) == other@.dom().contains(name) by {
                    if self@.dom().contains(name) {
                        assert(other@.dom().contains(name));
                    }
                    if other@.dom().contains(name) {
                        assert(self@.dom().contains(name));
                    }
                }
                assert(self@ =~= other@);
            }
        }
        same
    }
}

impl PartialEq for StyleSheet {
    fn eq(&self, other: &StyleSheet) -> (same: bool) {
        self.same(other)
    }
}

impl PartialEqSpecImpl for StyleSheet {
    open spec fn obeys_eq_spec() -> bool {
        true
    }

    open spec fn eq_spec(&self, other: &StyleSheet) -> bool {
        self@ == other@
    }
}

} // verus!
