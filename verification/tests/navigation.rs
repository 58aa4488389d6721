use std::path::Path;

use doc_navigation::directory::{Directory, Document};
use doc_navigation::link::Link;
use doc_navigation::navigation::{Navigation, NavigationError};
use doc_navigation::rules::{Config, DirIncludeRule, NavRule};

/// A page written at `path`: a `README.md` is rendered as its directory's
/// `index.html`, any other page under its own name.
fn page(path: &str, name: &str) -> Document {
    let source = Path::new(path);
    let rendered = if source.file_name().and_then(|f| f.to_str()) == Some("README.md") {
        source.with_file_name("index.html")
    } else {
        source.with_extension("html")
    };
    Document { title: name.to_string(), path: rendered.to_str().unwrap().to_string() }
}

/// A directory whose index page is its `README.md`.
fn directory(docs: Vec<Document>, dirs: Vec<Directory>) -> Directory {
    let index = docs
        .iter()
        .position(|d| Path::new(&d.path).file_name().and_then(|f| f.to_str()) == Some("index.html"))
        .unwrap();
    Directory { docs, dirs, index }
}

fn small_site() -> Directory {
    directory(
        vec![page("README.md", "Getting Started"), page("one.md", "One"), page("two.md", "Two")],
        vec![directory(
            vec![page("child/README.md", "Nested Root"), page("child/three.md", "Three")],
            vec![],
        )],
    )
}

fn nested_site() -> Directory {
    directory(
        vec![page("README.md", "Getting Started"), page("one.md", "One"), page("two.md", "Two")],
        vec![directory(
            vec![page("child/README.md", "Nested Root"), page("child/three.md", "Three")],
            vec![directory(
                vec![
                    page("child/nested/README.md", "Nested Root"),
                    page("child/nested/four.md", "Four"),
                ],
                vec![],
            )],
        )],
    )
}

#[test]
fn basic() {
    let config = Config::new(None);
    let root = small_site();

    let navigation = Navigation::new(&config);

    assert_eq!(
        navigation.build_for(&root),
        Ok(vec![
            Link {
                path: String::from("/child"),
                title: String::from("Nested Root"),
                children: vec![Link {
                    path: String::from("/child/three"),
                    title: String::from("Three"),
                    children: vec![]
                }]
            },
            Link { path: String::from("/one"), title: String::from("One"), children: vec![] },
            Link { path: String::from("/two"), title: String::from("Two"), children: vec![] },
        ])
    )
}

#[test]
fn sorting_alphanumerically() {
    let config = Config::new(None);
    let root = directory(
        vec![page("README.md", "Getting Started"), page("001.md", "bb"), page("002.md", "11")],
        vec![
            directory(
                vec![
                    page("child/README.md", "Index"),
                    page("child/001.md", "BB"),
                    page("child/002.md", "22"),
                    page("child/003.md", "AA"),
                    page("child/004.md", "11"),
                ],
                vec![],
            ),
            directory(
                vec![
                    page("child2/README.md", "Index"),
                    page("child2/001.md", "123"),
                    page("child2/002.md", "aa"),
                    page("child2/003.md", "cc"),
                    page("child2/004.md", "bb"),
                ],
                vec![],
            ),
        ],
    );

    let navigation = Navigation::new(&config);

    assert_eq!(
        navigation.build_for(&root),
        Ok(vec![
            Link { path: String::from("/002"), title: String::from("11"), children: vec![] },
            Link {
                path: String::from("/child"),
                title: String::from("Index"),
                children: vec![
                    Link {
                        path: String::from("/child/004"),
                        title: String::from("11"),
                        children: vec![],
                    },
                    Link {
                        path: String::from("/child/002"),
                        title: String::from("22"),
                        children: vec![],
                    },
                    Link {
                        path: String::from("/child/003"),
                        title: String::from("AA"),
                        children: vec![],
                    },
                    Link {
                        path: String::from("/child/001"),
                        title: String::from("BB"),
                        children: vec![],
                    },
                ]
            },
            Link {
                path: String::from("/child2"),
                title: String::from("Index"),
                children: vec![
                    Link {
                        path: String::from("/child2/001"),
                        title: String::from("123"),
                        children: vec![]
                    },
                    Link {
                        path: String::from("/child2/002"),
                        title: String::from("aa"),
                        children: vec![]
                    },
                    Link {
                        path: String::from("/child2/004"),
                        title: String::from("bb"),
                        children: vec![]
                    },
                    Link {
                        path: String::from("/child2/003"),
                        title: String::from("cc"),
                        children: vec![]
                    },
                ]
            },
            Link { path: String::from("/001"), title: String::from("bb"), children: vec![] },
        ]),
    )
}

#[test]
fn manual_menu_simple() {
    let root = small_site();

    let rules = vec![
        NavRule::File(String::from("docs/one.md")),
        NavRule::Dir(String::from("docs/child"), Some(DirIncludeRule::WildCard)),
    ];

    let config = Config::new(None);
    let navigation = Navigation::new(&config);
    let links: Vec<Link> = root.default_links();

    assert_eq!(
        navigation.customize(&rules, &links),
        Ok(vec![
            Link { path: String::from("/one"), title: String::from("One"), children: vec![] },
            Link {
                path: String::from("/child"),
                title: String::from("Nested Root"),
                children: vec![Link {
                    path: String::from("/child/three"),
                    title: String::from("Three"),
                    children: vec![],
                },],
            },
        ])
    )
}

#[test]
fn manual_menu_nested() {
    let root = nested_site();

    let rules = vec![
        NavRule::File(String::from("docs/one.md")),
        NavRule::Dir(
            String::from("docs/child"),
            Some(DirIncludeRule::Explicit(vec![NavRule::Dir(
                String::from("docs/child/nested"),
                Some(DirIncludeRule::Explicit(vec![NavRule::File(String::from(
                    "docs/child/nested/four.md",
                ))])),
            )])),
        ),
    ];

    let config = Config::new(None);
    let navigation = Navigation::new(&config);
    let links: Vec<Link> = root.default_links();

    assert_eq!(
        navigation.customize(&rules, &links),
        Ok(vec![
            Link { path: String::from("/one"), title: String::from("One"), children: vec![] },
            Link {
                path: String::from("/child"),
                title: String::from("Nested Root"),
                children: vec![Link {
                    path: String::from("/child/nested"),
                    title: String::from("Nested Root"),
                    children: vec![Link {
                        path: String::from("/child/nested/four"),
                        title: String::from("Four"),
                        children: vec![]
                    },]
                }]
            }
        ])
    );
}

#[test]
fn unmatched_rule_names_its_path() {
    let root = small_site();
    let rules = vec![
        NavRule::File(String::from("docs/one.md")),
        NavRule::File(String::from("docs/missing.md")),
    ];
    let config = Config::new(Some(rules));
    let navigation = Navigation::new(&config);
    assert_eq!(
        navigation.build_for(&root),
        Err(NavigationError::UnmatchedRule(String::from("docs/missing.md")))
    );
}

#[test]
fn readme_is_rendered_as_the_index_of_its_directory() {
    assert_eq!(Link::path_to_uri(&page("one.md", "One").path), "/one");
    assert_eq!(Link::path_to_uri(&page("child/README.md", "Nested Root").path), "/child");
    assert_eq!(Link::path_to_uri(&page("README.md", "Getting Started").path), "/");
    assert_eq!(Link::path_to_uri(""), "/");
}
