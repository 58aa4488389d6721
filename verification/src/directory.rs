//! The tree of documents, and the navigation that it gives by default.

use vstd::prelude::*;
use crate::link::{Link, LinkView, all_well_formed, views};
use crate::sorting::{
    in_title_order, lemma_sorted_holds_given_links, lemma_sorted_in_title_order,
    lemma_sorted_same_links, sort_by_title, sorted_by_title, strict_weak_order_on,
};
use crate::uri::{lemma_uri_is_canonical, uri_of_path};

verus! {

/// An authored page.
#[derive(Debug, PartialEq, Eq)]
pub struct Document {
    /// Title shown for the page.
    pub title: String,
    /// Where the rendered page lies, relative to the site's root.
    pub path: String,
}

/// A directory of pages and of further directories.
#[derive(Debug, PartialEq, Eq)]
pub struct Directory {
    /// The pages of the directory, its index page among them.
    pub docs: Vec<Document>,
    /// The directories directly below this one.
    pub dirs: Vec<Directory>,
    /// The position in `docs` of the index page, which stands for the
    /// directory itself.
    pub index: usize,
}

/// The mathematical value of a [`Document`].
pub struct DocumentView {
    pub title: Seq<char>,
    pub path: Seq<char>,
}

/// The mathematical value of a [`Directory`].
pub struct DirectoryView {
    pub docs: Seq<DocumentView>,
    pub dirs: Seq<DirectoryView>,
    pub index: int,
}

impl View for Document {
    type V = DocumentView;

    open spec fn view(&self) -> DocumentView {
        DocumentView { title: self.title@, path: self.path@ }
    }
}

/// The value of a directory: the values of its pages and of its directories,
/// in order, and the position of its index page.
pub open spec fn directory_view(dir: Directory) -> DirectoryView
    decreases dir,
{
    DirectoryView {
        docs: Seq::new(dir.docs@.len(), |i: int| dir.docs@[i]@),
        dirs: Seq::new(
            dir.dirs@.len(),
            |i: int|
                if 0 <= i < dir.dirs@.len() {
                    directory_view(dir.dirs@[i])
                } else {
                    arbitrary()
                },
        ),
        index: dir.index as int,
    }
}

impl View for Directory {
    type V = DirectoryView;

    open spec fn view(&self) -> DirectoryView {
        directory_view(*self)
    }
}

impl DirectoryView {
    /// Every directory of the tree has its index page among its pages.
    pub open spec fn well_formed(self) -> bool
        decreases self,
    {
        &&& 0 <= self.index < self.docs.len()
        &&& forall|i: int|
            0 <= i < self.dirs.len() ==> (#[trigger] self.dirs[i]).well_formed()
    }

    /// The index page of the directory.
    pub open spec fn index_page(self) -> DocumentView {
        self.docs[self.index]
    }

    /// The URI of the directory, which is that of its index page.
    pub open spec fn uri(self) -> Seq<char> {
        uri_of_path(self.index_page().path)
    }
}

/// The link to a page: its title, its URI, nothing below it.
pub open spec fn page_link(doc: DocumentView) -> LinkView {
    LinkView { path: uri_of_path(doc.path), title: doc.title, children: Seq::empty() }
}

/// The links to the pages `docs`, in order, but for those at the URI `index_uri`.
pub open spec fn page_links(docs: Seq<DocumentView>, index_uri: Seq<char>) -> Seq<LinkView>
    decreases docs.len(),
{
    if docs.len() == 0 {
        Seq::empty()
    } else if uri_of_path(docs.last().path) == index_uri {
        page_links(docs.drop_last(), index_uri)
    } else {
        page_links(docs.drop_last(), index_uri).push(page_link(docs.last()))
    }
}

/// The link to a directory: the title and URI of its index page, and below
/// it the directory's own navigation.
pub open spec fn directory_link(dir: DirectoryView) -> LinkView
    decreases dir, 3int,
{
    LinkView { path: dir.uri(), title: dir.index_page().title, children: default_links(dir) }
}

/// The links to the directories directly below `dir`, in order.
pub open spec fn directory_links(dir: DirectoryView) -> Seq<LinkView>
    decreases dir, 0int,
{
    Seq::new(
        dir.dirs.len(),
        |i: int|
            if 0 <= i < dir.dirs.len() {
                directory_link(dir.dirs[i])
            } else {
                arbitrary()
            },
    )
}

/// The links of a directory before they are sorted: one for each page but
/// the index page, then one for each directory.
pub open spec fn candidate_links(dir: DirectoryView) -> Seq<LinkView>
    decreases dir, 1int,
{
    page_links(dir.docs, dir.uri()) + directory_links(dir)
}

/// The navigation that a directory gives by default: its candidate links,
/// sorted by title.
pub open spec fn default_links(dir: DirectoryView) -> Seq<LinkView>
    decreases dir, 2int,
{
    sorted_by_title(candidate_links(dir))
}

/// Whether the list and every list below one of its links is in natural
/// order of its titles.
pub open spec fn in_title_order_throughout(links: Seq<LinkView>) -> bool
    decreases links,
{
    &&& in_title_order(links)
    &&& forall|i: int|
        0 <= i < links.len() ==> in_title_order_throughout((#[trigger] links[i]).children)
}

impl DirectoryView {
    /// Whether the title of every page of the tree is among `titles`.
    pub open spec fn titled_within(self, titles: Set<Seq<char>>) -> bool
        decreases self,
    {
        &&& forall|i: int| 0 <= i < self.docs.len() ==> titles.contains(#[trigger] self.docs[i].title)
        &&& forall|i: int|
            0 <= i < self.dirs.len() ==> (#[trigger] self.dirs[i]).titled_within(titles)
    }
}

/// The page links are the links to the pages that lie elsewhere than at
/// `index_uri`: each of them is the link to one of the pages and lies
/// elsewhere, and each such page has its link among them.
pub proof fn lemma_page_links(docs: Seq<DocumentView>, index_uri: Seq<char>)
    ensures
        forall|k: int|
            0 <= k < page_links(docs, index_uri).len() ==> {
                &&& (#[trigger] page_links(docs, index_uri)[k]).path != index_uri
                &&& exists|i: int|
                    0 <= i < docs.len() && page_links(docs, index_uri)[k] == page_link(
                        #[trigger] docs[i],
                    )
            },
        forall|i: int|
            0 <= i < docs.len() && uri_of_path(docs[i].path) != index_uri ==> page_links(
                docs,
                index_uri,
            ).contains(page_link(#[trigger] docs[i])),
    decreases docs.len(),
{
    if docs.len() > 0 {
        let front = docs.drop_last();
        let links = page_links(docs, index_uri);
        lemma_page_links(front, index_uri);
        assert forall|k: int| 0 <= k < links.len() implies {
            &&& (#[trigger] links[k]).path != index_uri
            &&& exists|i: int| 0 <= i < docs.len() && links[k] == page_link(#[trigger] docs[i])
        } by {
            if k < page_links(front, index_uri).len() {
                assert(links[k] == page_links(front, index_uri)[k]);
                let i = choose|i: int|
                    0 <= i < front.len() && page_links(front, index_uri)[k] == page_link(
                        #[trigger] front[i],
                    );
                assert(front[i] == docs[i]);
            } else {
                assert(links[k] == page_link(docs[docs.len() - 1]));
            }
        }
        assert forall|i: int|
            0 <= i < docs.len() && uri_of_path(docs[i].path) != index_uri implies links.contains(
            page_link(#[trigger] docs[i]),
        ) by {
            if i < front.len() {
                assert(front[i] == docs[i]);
                let k = choose|k: int|
                    0 <= k < page_links(front, index_uri).len() && page_links(front, index_uri)[k]
                        == page_link(front[i]);
                assert(links[k] == page_link(docs[i]));
            } else {
                assert(links[links.len() - 1] == page_link(docs[i]));
            }
        }
    }
}

/// The default navigation of a directory holds its candidate links, each as
/// often as it is a candidate, and nothing else.
pub proof fn lemma_default_links_are_candidates(dir: DirectoryView)
    ensures
        default_links(dir).to_multiset() == candidate_links(dir).to_multiset(),
        default_links(dir).len() == page_links(dir.docs, dir.uri()).len() + dir.dirs.len(),
        forall|link: LinkView|
            default_links(dir).contains(link) <==> page_links(dir.docs, dir.uri()).contains(link)
                || directory_links(dir).contains(link),
{
    lemma_sorted_same_links(candidate_links(dir));
    lemma_sorted_holds_given_links(candidate_links(dir));
    let pages = page_links(dir.docs, dir.uri());
    let below = directory_links(dir);
    assert forall|link: LinkView| (pages + below).contains(link) <==> pages.contains(link)
        || below.contains(link) by {
        if pages.contains(link) {
            let k = choose|k: int| 0 <= k < pages.len() && pages[k] == link;
            assert((pages + below)[k] == link);
        }
        if below.contains(link) {
            let k = choose|k: int| 0 <= k < below.len() && below[k] == link;
            assert((pages + below)[pages.len() + k] == link);
        }
        if (pages + below).contains(link) {
            let k = choose|k: int| 0 <= k < (pages + below).len() && (pages + below)[k] == link;
            if k < pages.len() {
                assert(pages[k] == link);
            } else {
                assert(below[k - pages.len()] == link);
            }
        }
    }
}

/// The index page of a directory is no entry of the directory's own
/// navigation: where no directory directly below lies at the directory's
/// URI, no entry of its default navigation does.
pub proof fn lemma_index_page_is_no_entry(dir: DirectoryView)
    requires
        forall|i: int| 0 <= i < dir.dirs.len() ==> (#[trigger] dir.dirs[i]).uri() != dir.uri(),
    ensures
        forall|k: int|
            0 <= k < default_links(dir).len() ==> (#[trigger] default_links(dir)[k]).path
                != dir.uri(),
{
    lemma_default_links_are_candidates(dir);
    lemma_page_links(dir.docs, dir.uri());
    let pages = page_links(dir.docs, dir.uri());
    let below = directory_links(dir);
    assert forall|k: int| 0 <= k < default_links(dir).len() implies (#[trigger] default_links(
        dir,
    )[k]).path != dir.uri() by {
        let link = default_links(dir)[k];
        assert(default_links(dir).contains(link));
        if pages.contains(link) {
            let at = choose|at: int| 0 <= at < pages.len() && pages[at] == link;
        } else {
            let at = choose|at: int| 0 <= at < below.len() && below[at] == link;
            assert(link == directory_link(dir.dirs[at]));
        }
    }
}

/// A directory is entered in the navigation of the directory above it once
/// for each time it is listed there: with the title and the URI of its index
/// page, and with its own default navigation below.
pub proof fn lemma_directory_entry(dir: DirectoryView, i: int)
    requires
        0 <= i < dir.dirs.len(),
    ensures
        directory_links(dir)[i].path == dir.dirs[i].uri(),
        directory_links(dir)[i].title == dir.dirs[i].index_page().title,
        directory_links(dir)[i].children == default_links(dir.dirs[i]),
        default_links(dir).contains(directory_links(dir)[i]),
{
    lemma_default_links_are_candidates(dir);
    assert(directory_links(dir).contains(directory_links(dir)[i]));
}

/// Every link of the default navigation of a tree lies at a canonical URI.
pub proof fn lemma_default_links_well_formed(dir: DirectoryView)
    ensures
        all_well_formed(default_links(dir)),
    decreases dir,
{
    let pages = page_links(dir.docs, dir.uri());
    let below = directory_links(dir);
    let links = default_links(dir);
    lemma_page_links(dir.docs, dir.uri());
    lemma_default_links_are_candidates(dir);
    assert forall|k: int| 0 <= k < links.len() implies (#[trigger] links[k]).well_formed() by {
        let link = links[k];
        assert(links.contains(link));
        if pages.contains(link) {
            let at = choose|at: int| 0 <= at < pages.len() && pages[at] == link;
            let i = choose|i: int|
                0 <= i < dir.docs.len() && pages[at] == page_link(#[trigger] dir.docs[i]);
            lemma_uri_is_canonical(dir.docs[i].path);
        } else {
            let at = choose|at: int| 0 <= at < below.len() && below[at] == link;
            let sub = dir.dirs[at];
            assert(link == directory_link(sub));
            lemma_uri_is_canonical(sub.index_page().path);
            lemma_default_links_well_formed(sub);
        }
    }
}

/// Where natural order is a strict weak order on the titles of the pages of
/// a tree, the default navigation of the tree is in natural order of its
/// titles at every level.
pub proof fn lemma_default_links_in_title_order(dir: DirectoryView, titles: Set<Seq<char>>)
    requires
        dir.well_formed(),
        dir.titled_within(titles),
        strict_weak_order_on(titles),
    ensures
        in_title_order_throughout(default_links(dir)),
    decreases dir,
{
    let pages = page_links(dir.docs, dir.uri());
    let below = directory_links(dir);
    let candidates = candidate_links(dir);
    let links = default_links(dir);
    lemma_page_links(dir.docs, dir.uri());
    lemma_default_links_are_candidates(dir);
    assert forall|k: int| 0 <= k < candidates.len() implies titles.contains(
        #[trigger] candidates[k].title,
    ) by {
        if k < pages.len() {
            assert(candidates[k] == pages[k]);
            let i = choose|i: int|
                0 <= i < dir.docs.len() && pages[k] == page_link(#[trigger] dir.docs[i]);
        } else {
            let sub = dir.dirs[k - pages.len()];
            assert(candidates[k] == directory_link(sub));
            assert(sub.well_formed() && sub.titled_within(titles));
            assert(titles.contains(sub.docs[sub.index].title));
        }
    }
    lemma_sorted_in_title_order(candidates, titles);
    assert forall|k: int| 0 <= k < links.len() implies in_title_order_throughout(
        (#[trigger] links[k]).children,
    ) by {
        let link = links[k];
        assert(links.contains(link));
        if pages.contains(link) {
            let at = choose|at: int| 0 <= at < pages.len() && pages[at] == link;
            let i = choose|i: int|
                0 <= i < dir.docs.len() && pages[at] == page_link(#[trigger] dir.docs[i]);
            assert(link.children =~= Seq::<LinkView>::empty());
        } else {
            let at = choose|at: int| 0 <= at < below.len() && below[at] == link;
            let sub = dir.dirs[at];
            assert(link == directory_link(sub));
            assert(sub.well_formed() && sub.titled_within(titles));
            lemma_default_links_in_title_order(sub, titles);
        }
    }
}

impl Directory {
    /// Whether every directory of the tree has its index page among its
    /// pages.
    pub fn is_well_formed(&self) -> (ok: bool)
        ensures
            ok == self@.well_formed(),
        decreases self,
    {
        if self.index >= self.docs.len() {
            return false;
        }
        let mut i: usize = 0;
        while i < self.dirs.len()
            invariant
                i <= self.dirs.len(),
                0 <= self.index < self.docs.len(),
                forall|k: int| 0 <= k < i ==> (#[trigger] self@.dirs[k]).well_formed(),
            decreases self.dirs.len() - i,
        {
            if !self.dirs[i].is_well_formed() {
                assert(!self@.dirs[i as int].well_formed());
                return false;
            }
            i += 1;
        }
        true
    }

    /// The navigation that the directory gives by default: a link for each
    /// page but the index page and for each directory, sorted by title.
    pub fn default_links(&self) -> (links: Vec<Link>)
        requires
            self@.well_formed(),
        ensures
            views(links@) == default_links(self@),
        decreases self,
    {
        let index_uri = Link::path_to_uri(self.docs[self.index].path.as_str());
        assert(index_uri@ == self@.uri());
        let mut links: Vec<Link> = Vec::new();
        let mut i: usize = 0;
        assert(self@.docs.take(0) =~= Seq::<DocumentView>::empty());
        assert(views(links@) =~= page_links(self@.docs.take(0), index_uri@));
        while i < self.docs.len()
            invariant
                i <= self.docs.len(),
                views(links@) == page_links(self@.docs.take(i as int), index_uri@),
            decreases self.docs.len() - i,
        {
            let doc = &self.docs[i];
            let path = Link::path_to_uri(doc.path.as_str());
            let ghost before = views(links@);
            assert(self@.docs.take(i + 1).drop_last() =~= self@.docs.take(i as int));
            assert(self@.docs.take(i + 1).last() == doc@);
            if !(path == index_uri) {
                let link = Link { path, title: doc.title.clone(), children: Vec::new() };
                assert(link@.children =~= Seq::<LinkView>::empty());
                links.push(link);
                assert(views(links@) =~= before.push(link@));
            }
            i += 1;
        }
        assert(self@.docs.take(i as int) =~= self@.docs);
        let ghost pages = views(links@);
        let mut j: usize = 0;
        assert(views(links@) =~= pages + directory_links(self@).take(0));
        while j < self.dirs.len()
            invariant
                j <= self.dirs.len(),
                self@.well_formed(),
                views(links@) == pages + directory_links(self@).take(j as int),
            decreases self.dirs.len() - j,
        {
            let dir = &self.dirs[j];
            assert(dir@ == self@.dirs[j as int]);
            assert(dir@.well_formed());
            assert(dir@.docs.len() == dir.docs@.len());
            let children = dir.default_links();
            let link = Link {
                path: Link::path_to_uri(dir.docs[dir.index].path.as_str()),
                title: dir.docs[dir.index].title.clone(),
                children,
            };
            assert(link@.children =~= default_links(dir@));
            assert(link@ == directory_link(dir@));
            let ghost before = views(links@);
            links.push(link);
            assert(views(links@) =~= before.push(link@));
            assert(directory_links(self@).take(j + 1) =~= directory_links(self@).take(j as int).push(
                link@,
            ));
            j += 1;
        }
        assert(directory_links(self@).take(j as int) =~= directory_links(self@));
        sort_by_title(links)
    }
}

} // verus!
