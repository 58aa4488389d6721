use doc_navigation::{Directory, Document, Link};

fn doc(path: &str, title: &str) -> Document {
    Document { title: String::from(title), path: String::from(path) }
}

fn leaf(path: &str, title: &str) -> Link {
    Link { path: String::from(path), title: String::from(title), children: vec![] }
}

#[test]
fn index_page_is_not_listed_in_its_own_directory() {
    let root = Directory {
        docs: vec![doc("b.html", "B"), doc("index.html", "Home"), doc("a.html", "A")],
        dirs: vec![],
        index: 1,
    };
    let links = root.default_links();
    assert_eq!(links, vec![leaf("/a", "A"), leaf("/b", "B")]);
    assert!(links.iter().all(|l| l.path != "/"));
}

#[test]
fn directory_with_its_index_page_alone_is_empty() {
    let root = Directory { docs: vec![doc("index.html", "Home")], dirs: vec![], index: 0 };
    assert_eq!(root.default_links(), vec![]);
}

#[test]
fn directory_is_listed_once_with_its_index_title() {
    let root = Directory {
        docs: vec![doc("index.html", "Home")],
        dirs: vec![Directory {
            docs: vec![doc("guide/index.html", "Guide"), doc("guide/intro.html", "Intro")],
            dirs: vec![],
            index: 0,
        }],
        index: 0,
    };
    assert_eq!(
        root.default_links(),
        vec![Link {
            path: String::from("/guide"),
            title: String::from("Guide"),
            children: vec![leaf("/guide/intro", "Intro")],
        }]
    );
}

#[test]
fn any_page_may_be_the_index_page() {
    let root = Directory {
        docs: vec![doc("intro.html", "Intro"), doc("start.html", "Start")],
        dirs: vec![],
        index: 1,
    };
    assert_eq!(root.default_links(), vec![leaf("/intro", "Intro")]);
}

#[test]
fn pages_at_the_uri_of_the_index_page_are_left_out() {
    let root = Directory {
        docs: vec![doc("index.html", "Home"), doc("index.htm", "Other"), doc("a.html", "A")],
        dirs: vec![],
        index: 0,
    };
    assert_eq!(root.default_links(), vec![leaf("/a", "A")]);
}

#[test]
fn pages_and_directories_are_sorted_together() {
    let root = Directory {
        docs: vec![doc("index.html", "Home"), doc("z.html", "10 Z"), doc("a.html", "2 A")],
        dirs: vec![
            Directory { docs: vec![doc("m/index.html", "3 M")], dirs: vec![], index: 0 },
            Directory { docs: vec![doc("b/index.html", "1 B")], dirs: vec![], index: 0 },
        ],
        index: 0,
    };
    assert_eq!(
        root.default_links(),
        vec![leaf("/b", "1 B"), leaf("/a", "2 A"), leaf("/m", "3 M"), leaf("/z", "10 Z")]
    );
}

#[test]
fn pages_come_before_directories_of_the_same_title() {
    let root = Directory {
        docs: vec![doc("index.html", "Home"), doc("page.html", "Same")],
        dirs: vec![Directory { docs: vec![doc("dir/index.html", "Same")], dirs: vec![], index: 0 }],
        index: 0,
    };
    assert_eq!(root.default_links(), vec![leaf("/page", "Same"), leaf("/dir", "Same")]);
}

#[test]
fn every_level_is_sorted() {
    let root = Directory {
        docs: vec![doc("index.html", "Home")],
        dirs: vec![Directory {
            docs: vec![
                doc("a/index.html", "A"),
                doc("a/y.html", "Y"),
                doc("a/x.html", "X"),
            ],
            dirs: vec![Directory {
                docs: vec![
                    doc("a/w/index.html", "W"),
                    doc("a/w/2.html", "20"),
                    doc("a/w/1.html", "3"),
                ],
                dirs: vec![],
                index: 0,
            }],
            index: 0,
        }],
        index: 0,
    };
    assert_eq!(
        root.default_links(),
        vec![Link {
            path: String::from("/a"),
            title: String::from("A"),
            children: vec![
                Link {
                    path: String::from("/a/w"),
                    title: String::from("W"),
                    children: vec![leaf("/a/w/1", "3"), leaf("/a/w/2", "20")],
                },
                leaf("/a/x", "X"),
                leaf("/a/y", "Y"),
            ],
        }]
    );
}

#[test]
fn well_formed_directory_has_its_index_pages() {
    let good = Directory {
        docs: vec![doc("index.html", "Home")],
        dirs: vec![Directory { docs: vec![doc("a/index.html", "A")], dirs: vec![], index: 0 }],
        index: 0,
    };
    assert!(good.is_well_formed());
}

#[test]
fn directory_without_pages_is_not_well_formed() {
    let empty = Directory { docs: vec![], dirs: vec![], index: 0 };
    assert!(!empty.is_well_formed());
}

#[test]
fn index_beyond_the_pages_is_not_well_formed() {
    let off = Directory { docs: vec![doc("index.html", "Home")], dirs: vec![], index: 1 };
    assert!(!off.is_well_formed());
}

#[test]
fn ill_formed_directory_below_makes_the_tree_ill_formed() {
    let tree = Directory {
        docs: vec![doc("index.html", "Home")],
        dirs: vec![
            Directory { docs: vec![doc("a/index.html", "A")], dirs: vec![], index: 0 },
            Directory {
                docs: vec![doc("b/index.html", "B")],
                dirs: vec![Directory { docs: vec![], dirs: vec![], index: 0 }],
                index: 0,
            },
        ],
        index: 0,
    };
    assert!(!tree.is_well_formed());
}

#[test]
fn clone_copies_the_whole_subtree() {
    let link = Link {
        path: String::from("/a"),
        title: String::from("A"),
        children: vec![Link {
            path: String::from("/a/b"),
            title: String::from("B"),
            children: vec![leaf("/a/b/c", "C")],
        }],
    };
    assert_eq!(link.clone(), link);
    assert_eq!(link.duplicate(), link);
}
