//! The navigation of a site: what its directories give by default, or what
//! the author's rules select from that.

use vstd::prelude::*;
use crate::directory::{Directory, DirectoryView, default_links};
use crate::link::{Link, LinkView, all_well_formed, views};
use crate::rules::{Config, DirIncludeRule, DirIncludeRuleView, NavRule, NavRuleView, rule_views};
use crate::uri::{page_uri_below_root, uri_below_root};

verus! {

/// Why a navigation could not be built.
#[derive(Debug, PartialEq, Eq)]
pub enum NavigationError {
    /// A rule names a page or directory that is not among the links it
    /// selects from. Holds the path as the rule gives it.
    UnmatchedRule(String),
}

impl NavigationError {
    /// The path of the rule that matched nothing.
    pub open spec fn rule_path(self) -> Seq<char> {
        match self {
            NavigationError::UnmatchedRule(path) => path@,
        }
    }

    /// The path of the rule that matched nothing.
    pub fn path(&self) -> (path: &String)
        ensures
            path@ == self.rule_path(),
    {
        match self {
            NavigationError::UnmatchedRule(path) => path,
        }
    }
}

/// The first of the candidates at the given URI, if there is one.
pub open spec fn first_match(candidates: Seq<LinkView>, uri: Seq<char>) -> Option<LinkView>
    decreases candidates.len(),
{
    if candidates.len() == 0 {
        None
    } else if candidates[0].path == uri {
        Some(candidates[0])
    } else {
        first_match(candidates.drop_first(), uri)
    }
}

/// The candidate that a rule's path names: the first one at the URI that the
/// path stands for below the documentation root.
pub open spec fn matching_link(path: Seq<char>, candidates: Seq<LinkView>) -> Option<LinkView> {
    first_match(candidates, uri_below_root(path))
}

/// The entry that one rule gives, or the path of the first rule, this one or
/// one nested in it, that names none of its candidates.
pub open spec fn applied(rule: NavRuleView, candidates: Seq<LinkView>) -> Result<
    LinkView,
    Seq<char>,
>
    decreases rule,
{
    match matching_link(rule.path(), candidates) {
        None => Err(rule.path()),
        Some(link) => match rule {
            NavRuleView::File(_) => Ok(link),
            NavRuleView::Dir(_, None) => Ok(
                LinkView { path: link.path, title: link.title, children: Seq::empty() },
            ),
            NavRuleView::Dir(_, Some(DirIncludeRuleView::WildCard)) => Ok(link),
            NavRuleView::Dir(_, Some(DirIncludeRuleView::Explicit(nested))) => match customized(
                nested,
                link.children,
            ) {
                Ok(children) => Ok(LinkView { path: link.path, title: link.title, children }),
                Err(path) => Err(path),
            },
        },
    }
}

/// The navigation that the rules select from the candidates: one entry for
/// each rule, in the order of the rules. Where a rule names none of its
/// candidates there is no navigation, but the path of the first such rule.
pub open spec fn customized(rules: Seq<NavRuleView>, candidates: Seq<LinkView>) -> Result<
    Seq<LinkView>,
    Seq<char>,
>
    decreases rules,
{
    if rules.len() == 0 {
        Ok(Seq::empty())
    } else {
        match customized(rules.drop_last(), candidates) {
            Err(path) => Err(path),
            Ok(front) => match applied(rules.last(), candidates) {
                Err(path) => Err(path),
                Ok(link) => Ok(front.push(link)),
            },
        }
    }
}

/// The navigation of a site: what the rules select from the default
/// navigation of its directory, or that navigation itself without rules.
pub open spec fn navigation_of(rules: Option<Seq<NavRuleView>>, dir: DirectoryView) -> Result<
    Seq<LinkView>,
    Seq<char>,
> {
    match rules {
        None => Ok(default_links(dir)),
        Some(rules) => customized(rules, default_links(dir)),
    }
}

impl Config {
    /// The values of the navigation rules, if the author gave any.
    pub open spec fn rules(self) -> Option<Seq<NavRuleView>> {
        match self.navigation {
            None => None,
            Some(rules) => Some(rule_views(rules@)),
        }
    }
}

/// Whether a result of the library is the given one: the same links, or the
/// same rule path.
pub open spec fn gives(
    result: Result<Vec<Link>, NavigationError>,
    expected: Result<Seq<LinkView>, Seq<char>>,
) -> bool {
    match expected {
        Ok(links) => result matches Ok(found) && views(found@) == links,
        Err(path) => result matches Err(error) && error.rule_path() == path,
    }
}

/// Whether a result of the library is the given one: the same link, or the
/// same rule path.
pub open spec fn gives_link(
    result: Result<Link, NavigationError>,
    expected: Result<LinkView, Seq<char>>,
) -> bool {
    match expected {
        Ok(link) => result matches Ok(found) && found@ == link,
        Err(path) => result matches Err(error) && error.rule_path() == path,
    }
}

/// Builds the navigation of a site from its settings.
pub struct Navigation<'a> {
    config: &'a Config,
}

impl<'a> Navigation<'a> {
    /// The settings that the navigation is built from.
    pub closed spec fn config(self) -> Config {
        *self.config
    }

    /// A builder for the site with the given settings.
    pub fn new(config: &'a Config) -> (navigation: Navigation<'a>)
        ensures
            navigation.config() == *config,
    {
        Navigation { config }
    }

    /// The navigation of the site whose documents lie in `dir`: what the
    /// rules of the settings select from the directory's default
    /// navigation, or that navigation itself where the settings hold no
    /// rules.
    pub fn build_for(&self, dir: &Directory) -> (result: Result<Vec<Link>, NavigationError>)
        requires
            dir@.well_formed(),
        ensures
            gives(result, navigation_of(self.config().rules(), dir@)),
    {
        let default = dir.default_links();
        match self.config.navigation() {
            None => Ok(default),
            Some(rules) => self.customize(rules.as_slice(), default.as_slice()),
        }
    }

    /// The navigation that `rules` select from the links `default`: one
    /// entry for each rule, in the order of the rules.
    pub fn customize(&self, rules: &[NavRule], default: &[Link]) -> (result: Result<
        Vec<Link>,
        NavigationError,
    >)
        ensures
            gives(result, customized(rule_views(rules@), views(default@))),
        decreases rules@,
    {
        let ghost all = rule_views(rules@);
        let ghost candidates = views(default@);
        let mut links: Vec<Link> = Vec::new();
        let mut i: usize = 0;
        assert(all.take(0) =~= Seq::<NavRuleView>::empty());
        assert(views(links@) =~= Seq::<LinkView>::empty());
        while i < rules.len()
            invariant
                i <= rules.len(),
                all == rule_views(rules@),
                candidates == views(default@),
                customized(all.take(i as int), candidates) == Ok::<Seq<LinkView>, Seq<char>>(
                    views(links@),
                ),
            decreases rules.len() - i,
        {
            assert(all.take(i + 1).drop_last() =~= all.take(i as int));
            assert(all.take(i + 1).last() == rules[i as int]@);
            match self.apply(&rules[i], default) {
                Err(error) => {
                    proof {
                        lemma_failure_of_prefix(all, i + 1, candidates);
                    }
                    return Err(error);
                },
                Ok(link) => {
                    let ghost before = views(links@);
                    links.push(link);
                    assert(views(links@) =~= before.push(link@));
                },
            }
            i += 1;
        }
        assert(all.take(i as int) =~= all);
        Ok(links)
    }

    /// The entry that one rule gives from the links `default`: the link that
    /// the rule names, with the children that the rule asks for.
    pub fn apply(&self, rule: &NavRule, default: &[Link]) -> (result: Result<Link, NavigationError>)
        ensures
            gives_link(result, applied(rule@, views(default@))),
        decreases rule,
    {
        match rule {
            NavRule::File(path) => self.find_matching_link(path.as_str(), default),
            NavRule::Dir(path, below) => {
                let found = match self.find_matching_link(path.as_str(), default) {
                    Err(error) => {
                        return Err(error);
                    },
                    Ok(found) => found,
                };
                match below {
                    // Nothing below the directory.
                    None => {
                        let entry = Link {
                            path: found.path,
                            title: found.title,
                            children: Vec::new(),
                        };
                        assert(entry@.children =~= Seq::<LinkView>::empty());
                        Ok(entry)
                    },
                    // All that the directory shows by default.
                    Some(DirIncludeRule::WildCard) => Ok(found),
                    // What the nested rules select.
                    Some(DirIncludeRule::Explicit(nested)) => {
                        assert(rule@ matches NavRuleView::Dir(
                            _,
                            Some(DirIncludeRuleView::Explicit(inner)),
                        ) && inner =~= rule_views(nested@));
                        assert(views(found.children@) =~= found@.children);
                        let children = match self.customize(
                            nested.as_slice(),
                            found.children.as_slice(),
                        ) {
                            Err(error) => {
                                return Err(error);
                            },
                            Ok(children) => children,
                        };
                        let entry = Link { path: found.path, title: found.title, children };
                        assert(entry@.children =~= views(children@));
                        Ok(entry)
                    },
                }
            },
        }
    }

    /// The link among `links` that the rule path `path` names: the first one
    /// at the URI that the path stands for below the documentation root.
    pub fn find_matching_link(&self, path: &str, links: &[Link]) -> (result: Result<
        Link,
        NavigationError,
    >)
        ensures
            gives_link(
                result,
                match matching_link(path@, views(links@)) {
                    Some(link) => Ok(link),
                    None => Err(path@),
                },
            ),
    {
        let uri = page_uri_below_root(path);
        let ghost candidates = views(links@);
        let mut i: usize = 0;
        assert(candidates.skip(0) =~= candidates);
        while i < links.len()
            invariant
                i <= links.len(),
                candidates == views(links@),
                uri@ == uri_below_root(path@),
                first_match(candidates, uri@) == first_match(candidates.skip(i as int), uri@),
            decreases links.len() - i,
        {
            assert(candidates.skip(i as int)[0] == links@[i as int]@);
            if links[i].path == uri {
                return Ok(links[i].duplicate());
            }
            assert(candidates.skip(i as int).drop_first() =~= candidates.skip(i + 1));
            i += 1;
        }
        Err(NavigationError::UnmatchedRule(path.to_owned()))
    }
}

/// Whether the rule, or a rule nested in it where its own path matches,
/// names the given path and matches none of its candidates.
pub open spec fn rule_names_unmatched(
    rule: NavRuleView,
    candidates: Seq<LinkView>,
    path: Seq<char>,
) -> bool
    decreases rule,
{
    match matching_link(rule.path(), candidates) {
        None => rule.path() == path,
        Some(link) => match rule {
            NavRuleView::Dir(_, Some(DirIncludeRuleView::Explicit(nested))) => names_unmatched(
                nested,
                link.children,
                path,
            ),
            _ => false,
        },
    }
}

/// Whether a rule of the list, or a rule nested in one whose own path
/// matches, names the given path and matches none of its candidates.
pub open spec fn names_unmatched(
    rules: Seq<NavRuleView>,
    candidates: Seq<LinkView>,
    path: Seq<char>,
) -> bool
    decreases rules,
{
    exists|i: int|
        0 <= i < rules.len() && rule_names_unmatched(#[trigger] rules[i], candidates, path)
}

/// The first match lies at the URI and is the first candidate that does;
/// there is none only where no candidate lies at the URI.
pub proof fn lemma_first_match(candidates: Seq<LinkView>, uri: Seq<char>)
    ensures
        match first_match(candidates, uri) {
            Some(link) => exists|i: int|
                0 <= i < candidates.len() && #[trigger] candidates[i] == link && link.path == uri
                    && forall|j: int| 0 <= j < i ==> (#[trigger] candidates[j]).path != uri,
            None => forall|i: int|
                0 <= i < candidates.len() ==> (#[trigger] candidates[i]).path != uri,
        },
    decreases candidates.len(),
{
    if candidates.len() > 0 && candidates[0].path != uri {
        let rest = candidates.drop_first();
        lemma_first_match(rest, uri);
        match first_match(rest, uri) {
            Some(link) => {
                let i = choose|i: int|
                    0 <= i < rest.len() && #[trigger] rest[i] == link && link.path == uri
                        && forall|j: int| 0 <= j < i ==> (#[trigger] rest[j]).path != uri;
                assert(candidates[i + 1] == link);
                assert forall|j: int| 0 <= j < i + 1 implies (#[trigger] candidates[j]).path
                    != uri by {
                    if j > 0 {
                        assert(candidates[j] == rest[j - 1]);
                    }
                }
            },
            None => {
                assert forall|i: int| 0 <= i < candidates.len() implies (
                #[trigger] candidates[i]).path != uri by {
                    if i > 0 {
                        assert(candidates[i] == rest[i - 1]);
                    }
                }
            },
        }
    } else if candidates.len() > 0 {
        assert(candidates[0] == candidates[0]);
    }
}

/// The entry that a rule gives has the path and the title of the link that
/// the rule's path names, and lies at the URI that the path stands for. A
/// rule whose path names no link gives no entry, but its path.
pub proof fn lemma_entry_is_named_link(rule: NavRuleView, candidates: Seq<LinkView>)
    ensures
        match matching_link(rule.path(), candidates) {
            None => applied(rule, candidates) == Err::<LinkView, Seq<char>>(rule.path()),
            Some(link) => applied(rule, candidates) matches Ok(entry) ==> {
                &&& entry.path == link.path
                &&& entry.title == link.title
                &&& entry.path == uri_below_root(rule.path())
            },
        },
{
    lemma_first_match(candidates, uri_below_root(rule.path()));
}

/// A rule for a single page gives the link that its path names, with all
/// that the link holds.
pub proof fn lemma_file_rule_keeps_link(path: Seq<char>, candidates: Seq<LinkView>)
    ensures
        applied(NavRuleView::File(path), candidates) == match matching_link(path, candidates) {
            Some(link) => Ok::<LinkView, Seq<char>>(link),
            None => Err(path),
        },
{
}

/// A directory rule that asks for nothing below the directory gives an
/// entry without children, whatever the named link holds.
pub proof fn lemma_bare_directory_rule_gives_no_children(
    path: Seq<char>,
    candidates: Seq<LinkView>,
)
    ensures
        applied(NavRuleView::Dir(path, None), candidates) matches Ok(entry)
            ==> entry.children.len() == 0,
        applied(NavRuleView::Dir(path, None), candidates) is Ok <==> matching_link(
            path,
            candidates,
        ) is Some,
{
}

/// A directory rule that asks for everything gives the named link as it is,
/// with all that lies below it.
pub proof fn lemma_wildcard_rule_keeps_link(path: Seq<char>, candidates: Seq<LinkView>)
    ensures
        applied(NavRuleView::Dir(path, Some(DirIncludeRuleView::WildCard)), candidates)
            == match matching_link(path, candidates) {
            Some(link) => Ok::<LinkView, Seq<char>>(link),
            None => Err(path),
        },
{
}

/// A directory rule with nested rules gives the named link with, below it,
/// what the nested rules select from the link's own children.
pub proof fn lemma_explicit_rule_selects_below(
    path: Seq<char>,
    nested: Seq<NavRuleView>,
    candidates: Seq<LinkView>,
)
    ensures
        applied(NavRuleView::Dir(path, Some(DirIncludeRuleView::Explicit(nested))), candidates)
            == match matching_link(path, candidates) {
            None => Err::<LinkView, Seq<char>>(path),
            Some(link) => match customized(nested, link.children) {
                Ok(children) => Ok(LinkView { path: link.path, title: link.title, children }),
                Err(unmatched) => Err(unmatched),
            },
        },
{
}

/// The navigation follows the rules: it has one entry for each rule, in the
/// order of the rules, and each entry is what its rule gives. Where there is
/// no navigation, the path is that of the first rule that gives no entry.
pub proof fn lemma_customized_follows_rules(rules: Seq<NavRuleView>, candidates: Seq<LinkView>)
    ensures
        match customized(rules, candidates) {
            Ok(links) => {
                &&& links.len() == rules.len()
                &&& forall|i: int|
                    0 <= i < rules.len() ==> applied(#[trigger] rules[i], candidates) == Ok::<
                        LinkView,
                        Seq<char>,
                    >(links[i])
            },
            Err(path) => exists|i: int|
                {
                    &&& 0 <= i < rules.len()
                    &&& applied(#[trigger] rules[i], candidates) == Err::<LinkView, Seq<char>>(path)
                    &&& forall|j: int| 0 <= j < i ==> applied(#[trigger] rules[j], candidates) is Ok
                },
        },
    decreases rules.len(),
{
    if rules.len() > 0 {
        let front = rules.drop_last();
        lemma_customized_follows_rules(front, candidates);
        match customized(front, candidates) {
            Err(path) => {
                let i = choose|i: int|
                    {
                        &&& 0 <= i < front.len()
                        &&& applied(#[trigger] front[i], candidates) == Err::<LinkView, Seq<char>>(
                            path,
                        )
                        &&& forall|j: int|
                            0 <= j < i ==> applied(#[trigger] front[j], candidates) is Ok
                    };
                assert(rules[i] == front[i]);
                assert forall|j: int| 0 <= j < i implies applied(
                    #[trigger] rules[j],
                    candidates,
                ) is Ok by {
                    assert(rules[j] == front[j]);
                }
            },
            Ok(links) => {
                assert forall|j: int| 0 <= j < front.len() implies applied(
                    #[trigger] rules[j],
                    candidates,
                ) == Ok::<LinkView, Seq<char>>(links[j]) by {
                    assert(rules[j] == front[j]);
                }
                match applied(rules.last(), candidates) {
                    Err(path) => {
                        assert(rules[rules.len() - 1] == rules.last());
                    },
                    Ok(link) => {},
                }
            },
        }
    }
}

/// There is a navigation exactly where every rule, nested ones included,
/// names one of its candidates. Where there is none, the path that comes
/// back is one that a rule names and that matches none of the rule's
/// candidates.
pub proof fn lemma_failure_names_unmatched_rule(
    rules: Seq<NavRuleView>,
    candidates: Seq<LinkView>,
)
    ensures
        customized(rules, candidates) matches Err(path) ==> names_unmatched(
            rules,
            candidates,
            path,
        ),
        customized(rules, candidates) is Ok ==> forall|path: Seq<char>|
            !names_unmatched(rules, candidates, path),
    decreases rules,
{
    lemma_customized_follows_rules(rules, candidates);
    match customized(rules, candidates) {
        Err(path) => {
            let i = choose|i: int|
                {
                    &&& 0 <= i < rules.len()
                    &&& applied(#[trigger] rules[i], candidates) == Err::<LinkView, Seq<char>>(path)
                    &&& forall|j: int| 0 <= j < i ==> applied(#[trigger] rules[j], candidates) is Ok
                };
            lemma_rule_failure_names_unmatched_rule(rules[i], candidates);
        },
        Ok(links) => {
            assert forall|path: Seq<char>| !names_unmatched(rules, candidates, path) by {
                if names_unmatched(rules, candidates, path) {
                    let i = choose|i: int|
                        0 <= i < rules.len() && rule_names_unmatched(
                            #[trigger] rules[i],
                            candidates,
                            path,
                        );
                    assert(applied(rules[i], candidates) is Ok);
                    lemma_rule_failure_names_unmatched_rule(rules[i], candidates);
                }
            }
        },
    }
}

/// The same of a single rule: it gives an entry exactly where it and the
/// rules nested in it each name one of their candidates.
pub proof fn lemma_rule_failure_names_unmatched_rule(rule: NavRuleView, candidates: Seq<LinkView>)
    ensures
        applied(rule, candidates) matches Err(path) ==> rule_names_unmatched(
            rule,
            candidates,
            path,
        ),
        applied(rule, candidates) is Ok ==> forall|path: Seq<char>|
            !rule_names_unmatched(rule, candidates, path),
    decreases rule,
{
    match matching_link(rule.path(), candidates) {
        None => {},
        Some(link) => match rule {
            NavRuleView::Dir(_, Some(DirIncludeRuleView::Explicit(nested))) => {
                lemma_failure_names_unmatched_rule(nested, link.children);
                if applied(rule, candidates) is Ok {
                    assert forall|path: Seq<char>| !rule_names_unmatched(
                        rule,
                        candidates,
                        path,
                    ) by {
                        assert(!names_unmatched(nested, link.children, path));
                    }
                }
            },
            _ => {},
        },
    }
}

/// The navigation that rules select from well-formed links holds
/// well-formed links only.
pub proof fn lemma_customized_well_formed(rules: Seq<NavRuleView>, candidates: Seq<LinkView>)
    requires
        all_well_formed(candidates),
    ensures
        customized(rules, candidates) matches Ok(links) ==> all_well_formed(links),
    decreases rules,
{
    if rules.len() > 0 {
        lemma_customized_well_formed(rules.drop_last(), candidates);
        lemma_entry_well_formed(rules.last(), candidates);
    }
}

/// The entry that a rule gives from well-formed links is well formed.
pub proof fn lemma_entry_well_formed(rule: NavRuleView, candidates: Seq<LinkView>)
    requires
        all_well_formed(candidates),
    ensures
        applied(rule, candidates) matches Ok(entry) ==> entry.well_formed(),
    decreases rule,
{
    lemma_first_match(candidates, uri_below_root(rule.path()));
    match matching_link(rule.path(), candidates) {
        None => {},
        Some(link) => {
            assert(link.well_formed());
            match rule {
                NavRuleView::Dir(_, Some(DirIncludeRuleView::Explicit(nested))) => {
                    lemma_customized_well_formed(nested, link.children);
                },
                _ => {},
            }
        },
    }
}

/// A rule that names none of the candidates leaves no navigation, whatever
/// the other rules are.
pub proof fn lemma_unmatched_rule_fails(
    rules: Seq<NavRuleView>,
    candidates: Seq<LinkView>,
    i: int,
)
    requires
        0 <= i < rules.len(),
        matching_link(rules[i].path(), candidates) is None,
    ensures
        customized(rules, candidates) is Err,
{
    lemma_customized_follows_rules(rules, candidates);
}

/// Where the first `k` rules name a path that matches nothing, so do all
/// the rules, and it is the same path.
pub proof fn lemma_failure_of_prefix(rules: Seq<NavRuleView>, k: int, candidates: Seq<LinkView>)
    requires
        0 <= k <= rules.len(),
        customized(rules.take(k), candidates) is Err,
    ensures
        customized(rules, candidates) == customized(rules.take(k), candidates),
    decreases rules.len() - k,
{
    if k < rules.len() {
        assert(rules.take(k + 1).drop_last() =~= rules.take(k));
        lemma_failure_of_prefix(rules, k + 1, candidates);
    } else {
        assert(rules.take(k) =~= rules);
    }
}

} // verus!
