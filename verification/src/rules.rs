//! Navigation rules: the menu that a site's author asks for.

use vstd::prelude::*;

verus! {

/// What a directory rule shows below the directory's own entry. A directory
/// rule without one shows nothing there.
#[derive(Debug, PartialEq, Eq)]
pub enum DirIncludeRule {
    /// Everything that the directory shows by default.
    WildCard,
    /// What the nested rules select, in their order.
    Explicit(Vec<NavRule>),
}

/// One rule of a navigation: an entry of the menu. Its path starts with the
/// name of the documentation root.
#[derive(Debug, PartialEq, Eq)]
pub enum NavRule {
    /// A single page.
    File(String),
    /// A directory, with what to show below it.
    Dir(String, Option<DirIncludeRule>),
}

/// The mathematical value of a [`DirIncludeRule`].
pub enum DirIncludeRuleView {
    WildCard,
    Explicit(Seq<NavRuleView>),
}

/// The mathematical value of a [`NavRule`].
pub enum NavRuleView {
    File(Seq<char>),
    Dir(Seq<char>, Option<DirIncludeRuleView>),
}

/// The value of a rule: its path as a character sequence, and the values of
/// the rules nested in it.
pub open spec fn rule_view(rule: NavRule) -> NavRuleView
    decreases rule,
{
    match rule {
        NavRule::File(path) => NavRuleView::File(path@),
        NavRule::Dir(path, None) => NavRuleView::Dir(path@, None),
        NavRule::Dir(path, Some(DirIncludeRule::WildCard)) => NavRuleView::Dir(
            path@,
            Some(DirIncludeRuleView::WildCard),
        ),
        NavRule::Dir(path, Some(DirIncludeRule::Explicit(nested))) => NavRuleView::Dir(
            path@,
            Some(
                DirIncludeRuleView::Explicit(
                    Seq::new(
                        nested@.len(),
                        |i: int|
                            if 0 <= i < nested@.len() {
                                rule_view(nested@[i])
                            } else {
                                arbitrary()
                            },
                    ),
                ),
            ),
        ),
    }
}

impl View for NavRule {
    type V = NavRuleView;

    open spec fn view(&self) -> NavRuleView {
        rule_view(*self)
    }
}

/// The values of a list of rules, in order.
pub open spec fn rule_views(rules: Seq<NavRule>) -> Seq<NavRuleView> {
    Seq::new(rules.len(), |i: int| rules[i]@)
}

impl NavRuleView {
    /// The path that the rule names.
    pub open spec fn path(self) -> Seq<char> {
        match self {
            NavRuleView::File(path) => path,
            NavRuleView::Dir(path, _) => path,
        }
    }
}

/// The settings of a site, as far as its navigation reads them.
#[derive(Debug, PartialEq, Eq)]
pub struct Config {
    /// The navigation that the author asks for, if any.
    pub navigation: Option<Vec<NavRule>>,
}

impl Config {
    /// Settings with the given navigation rules, or with none.
    pub fn new(navigation: Option<Vec<NavRule>>) -> (config: Config)
        ensures
            config.navigation == navigation,
    {
        Config { navigation }
    }

    /// The navigation rules, if the author gave any.
    pub fn navigation(&self) -> (rules: &Option<Vec<NavRule>>)
        ensures
            *rules == self.navigation,
    {
        &self.navigation
    }
}

} // verus!
