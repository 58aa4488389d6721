use doc_navigation::{Config, DirIncludeRule, Directory, Document, Link, NavRule, Navigation, NavigationError};

fn doc(path: &str, title: &str) -> Document {
    Document { title: String::from(title), path: String::from(path) }
}

fn entry(path: &str, title: &str, children: Vec<Link>) -> Link {
    Link { path: String::from(path), title: String::from(title), children }
}

fn file(path: &str) -> NavRule {
    NavRule::File(String::from(path))
}

fn dir(path: &str, below: Option<DirIncludeRule>) -> NavRule {
    NavRule::Dir(String::from(path), below)
}

fn unmatched(path: &str) -> NavigationError {
    NavigationError::UnmatchedRule(String::from(path))
}

/// The default navigation of a small site: two pages, and a directory with
/// a page and a further directory.
fn candidates() -> Vec<Link> {
    vec![
        entry(
            "/child",
            "Nested Root",
            vec![
                entry("/child/nested", "Deep", vec![entry("/child/nested/four", "Four", vec![])]),
                entry("/child/three", "Three", vec![]),
            ],
        ),
        entry("/one", "One", vec![]),
        entry("/two", "Two", vec![]),
    ]
}

fn customize(rules: &[NavRule], links: &[Link]) -> Result<Vec<Link>, NavigationError> {
    let config = Config::new(None);
    Navigation::new(&config).customize(rules, links)
}

#[test]
fn rules_decide_the_order() {
    let rules = vec![file("docs/two.md"), file("docs/one.md"), dir("docs/child", None)];
    assert_eq!(
        customize(&rules, &candidates()),
        Ok(vec![
            entry("/two", "Two", vec![]),
            entry("/one", "One", vec![]),
            entry("/child", "Nested Root", vec![]),
        ])
    );
}

#[test]
fn links_without_a_rule_are_left_out() {
    let rules = vec![file("docs/one.md"), dir("docs/child", Some(DirIncludeRule::WildCard))];
    let found = customize(&rules, &candidates()).unwrap();
    assert_eq!(found.len(), 2);
    assert_eq!(found[0], entry("/one", "One", vec![]));
    assert_eq!(found[1], candidates()[0]);
    assert!(found.iter().all(|l| l.title != "Two"));
}

#[test]
fn no_rules_give_an_empty_navigation() {
    assert_eq!(customize(&[], &candidates()), Ok(vec![]));
}

#[test]
fn a_rule_may_be_given_twice() {
    let rules = vec![file("docs/one.md"), file("docs/one.md")];
    assert_eq!(
        customize(&rules, &candidates()),
        Ok(vec![entry("/one", "One", vec![]), entry("/one", "One", vec![])])
    );
}

#[test]
fn directory_rule_alone_shows_no_children() {
    let rules = vec![dir("docs/child", None)];
    assert_eq!(customize(&rules, &candidates()), Ok(vec![entry("/child", "Nested Root", vec![])]));
}

#[test]
fn wildcard_keeps_the_whole_subtree() {
    let rules = vec![dir("docs/child", Some(DirIncludeRule::WildCard))];
    assert_eq!(customize(&rules, &candidates()), Ok(vec![candidates().remove(0)]));
}

#[test]
fn file_rule_keeps_the_children_of_its_link() {
    let rules = vec![file("docs/child")];
    assert_eq!(customize(&rules, &candidates()), Ok(vec![candidates().remove(0)]));
}

#[test]
fn nested_rules_reorder_the_children() {
    let rules = vec![dir(
        "docs/child",
        Some(DirIncludeRule::Explicit(vec![
            file("docs/child/three.md"),
            dir("docs/child/nested", None),
        ])),
    )];
    assert_eq!(
        customize(&rules, &candidates()),
        Ok(vec![entry(
            "/child",
            "Nested Root",
            vec![entry("/child/three", "Three", vec![]), entry("/child/nested", "Deep", vec![])],
        )])
    );
}

#[test]
fn nested_rules_select_a_single_grandchild() {
    let rules = vec![dir(
        "docs/child",
        Some(DirIncludeRule::Explicit(vec![dir(
            "docs/child/nested",
            Some(DirIncludeRule::Explicit(vec![file("docs/child/nested/four.md")])),
        )])),
    )];
    assert_eq!(
        customize(&rules, &candidates()),
        Ok(vec![entry(
            "/child",
            "Nested Root",
            vec![entry(
                "/child/nested",
                "Deep",
                vec![entry("/child/nested/four", "Four", vec![])],
            )],
        )])
    );
}

#[test]
fn empty_nested_rules_show_no_children() {
    let rules = vec![dir("docs/child", Some(DirIncludeRule::Explicit(vec![])))];
    assert_eq!(customize(&rules, &candidates()), Ok(vec![entry("/child", "Nested Root", vec![])]));
}

#[test]
fn nested_rules_select_from_the_children_only() {
    let rules = vec![dir("docs/child", Some(DirIncludeRule::Explicit(vec![file("docs/one.md")])))];
    assert_eq!(customize(&rules, &candidates()), Err(unmatched("docs/one.md")));
}

#[test]
fn unmatched_file_rule_is_an_error() {
    let rules = vec![file("docs/missing.md")];
    assert_eq!(customize(&rules, &candidates()), Err(unmatched("docs/missing.md")));
}

#[test]
fn unmatched_directory_rule_is_an_error() {
    for below in [None, Some(DirIncludeRule::WildCard), Some(DirIncludeRule::Explicit(vec![]))] {
        let rules = vec![file("docs/one.md"), dir("docs/nowhere", below)];
        assert_eq!(customize(&rules, &candidates()), Err(unmatched("docs/nowhere")));
    }
}

#[test]
fn unmatched_nested_rule_is_an_error() {
    let rules = vec![
        file("docs/one.md"),
        dir("docs/child", Some(DirIncludeRule::Explicit(vec![file("docs/child/five.md")]))),
    ];
    assert_eq!(customize(&rules, &candidates()), Err(unmatched("docs/child/five.md")));
}

#[test]
fn first_unmatched_rule_is_named() {
    let rules = vec![
        file("docs/one.md"),
        dir("docs/child", Some(DirIncludeRule::Explicit(vec![file("docs/child/five.md")]))),
        file("docs/missing.md"),
    ];
    assert_eq!(customize(&rules, &candidates()), Err(unmatched("docs/child/five.md")));
    let rules = vec![file("docs/missing.md"), file("docs/gone.md")];
    assert_eq!(customize(&rules, &candidates()), Err(unmatched("docs/missing.md")));
}

#[test]
fn unmatched_directory_is_named_before_its_nested_rules() {
    let rules =
        vec![dir("docs/nowhere", Some(DirIncludeRule::Explicit(vec![file("docs/missing.md")])))];
    assert_eq!(customize(&rules, &candidates()), Err(unmatched("docs/nowhere")));
}

#[test]
fn error_keeps_the_path_as_the_rule_gives_it() {
    let rules = vec![file("docs//missing.md")];
    let error = customize(&rules, &candidates()).unwrap_err();
    assert_eq!(error.path(), "docs//missing.md");
}

#[test]
fn first_component_of_a_rule_path_is_not_compared() {
    let rules = vec![file("anything/one.md"), file("one.md/two.html")];
    assert_eq!(
        customize(&rules, &candidates()),
        Ok(vec![entry("/one", "One", vec![]), entry("/two", "Two", vec![])])
    );
}

#[test]
fn rule_for_the_root_alone_names_the_root() {
    let links = vec![entry("/", "Home", vec![]), entry("/one", "One", vec![])];
    assert_eq!(customize(&[file("docs")], &links), Ok(vec![entry("/", "Home", vec![])]));
    assert_eq!(customize(&[file("")], &links), Ok(vec![entry("/", "Home", vec![])]));
    assert_eq!(customize(&[file("docs/index.md")], &links), Ok(vec![entry("/", "Home", vec![])]));
    assert_eq!(customize(&[file("docs")], &candidates()), Err(unmatched("docs")));
}

#[test]
fn first_of_two_links_at_one_uri_is_taken() {
    let links = vec![entry("/one", "First", vec![]), entry("/one", "Second", vec![])];
    assert_eq!(customize(&[file("docs/one.md")], &links), Ok(vec![entry("/one", "First", vec![])]));
}

#[test]
fn find_matching_link_copies_the_link() {
    let config = Config::new(None);
    let navigation = Navigation::new(&config);
    let links = candidates();
    assert_eq!(navigation.find_matching_link("docs/child", &links), Ok(candidates().remove(0)));
    assert_eq!(navigation.find_matching_link("docs/two.md", &links), Ok(entry("/two", "Two", vec![])));
    assert_eq!(navigation.find_matching_link("docs/three.md", &links), Err(unmatched("docs/three.md")));
    assert_eq!(navigation.find_matching_link("docs/one.md", &[]), Err(unmatched("docs/one.md")));
    assert_eq!(links, candidates());
}

fn site() -> Directory {
    Directory {
        docs: vec![doc("index.html", "Home"), doc("b.html", "B"), doc("a.html", "A")],
        dirs: vec![Directory {
            docs: vec![doc("guide/z.html", "Z"), doc("guide/index.html", "Guide")],
            dirs: vec![],
            index: 1,
        }],
        index: 0,
    }
}

#[test]
fn settings_without_rules_give_the_default_navigation() {
    let config = Config::new(None);
    let root = site();
    assert_eq!(Navigation::new(&config).build_for(&root), Ok(root.default_links()));
    assert_eq!(
        root.default_links(),
        vec![
            entry("/a", "A", vec![]),
            entry("/b", "B", vec![]),
            entry("/guide", "Guide", vec![entry("/guide/z", "Z", vec![])]),
        ]
    );
}

#[test]
fn settings_with_rules_reshape_the_default_navigation() {
    let config = Config::new(Some(vec![
        dir("docs/guide", Some(DirIncludeRule::WildCard)),
        file("docs/b.md"),
    ]));
    assert_eq!(
        Navigation::new(&config).build_for(&site()),
        Ok(vec![
            entry("/guide", "Guide", vec![entry("/guide/z", "Z", vec![])]),
            entry("/b", "B", vec![]),
        ])
    );
}

#[test]
fn settings_with_an_unmatched_rule_give_no_navigation() {
    let config = Config::new(Some(vec![file("docs/b.md"), file("docs/c.md")]));
    assert_eq!(Navigation::new(&config).build_for(&site()), Err(unmatched("docs/c.md")));
}

#[test]
fn settings_with_no_rule_at_all_give_an_empty_navigation() {
    let config = Config::new(Some(vec![]));
    assert_eq!(Navigation::new(&config).build_for(&site()), Ok(vec![]));
}

#[test]
fn settings_hand_out_their_rules() {
    assert!(Config::new(None).navigation().is_none());
    let config = Config::new(Some(vec![file("docs/b.md")]));
    assert_eq!(config.navigation().as_ref().map(|rules| rules.len()), Some(1));
}
