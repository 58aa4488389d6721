//! The navigation entry and its mathematical model.

use vstd::prelude::*;
use crate::uri::{is_canonical, page_uri, uri_of_path};

verus! {

/// One entry of a navigation tree.
#[derive(Debug, PartialEq, Eq)]
pub struct Link {
    /// Canonical URI of the page.
    pub path: String,
    /// Title shown for the entry.
    pub title: String,
    /// Entries nested below this one.
    pub children: Vec<Link>,
}

/// The mathematical value of a [`Link`].
pub struct LinkView {
    pub path: Seq<char>,
    pub title: Seq<char>,
    pub children: Seq<LinkView>,
}

/// The value of a link: its two strings as character sequences, and the
/// values of its children in order.
pub open spec fn link_view(link: Link) -> LinkView
    decreases link,
{
    LinkView {
        path: link.path@,
        title: link.title@,
        children: Seq::new(
            link.children@.len(),
            |i: int|
                if 0 <= i < link.children@.len() {
                    link_view(link.children@[i])
                } else {
                    arbitrary()
                },
        ),
    }
}

impl View for Link {
    type V = LinkView;

    open spec fn view(&self) -> LinkView {
        link_view(*self)
    }
}

impl LinkView {
    /// Whether the link and every link below it lies at a canonical URI.
    pub open spec fn well_formed(self) -> bool
        decreases self,
    {
        &&& is_canonical(self.path)
        &&& forall|i: int|
            0 <= i < self.children.len() ==> (#[trigger] self.children[i]).well_formed()
    }
}

/// Whether every link of the list is well formed.
pub open spec fn all_well_formed(links: Seq<LinkView>) -> bool {
    forall|i: int| 0 <= i < links.len() ==> (#[trigger] links[i]).well_formed()
}

/// The values of a list of links, in order.
pub open spec fn views(links: Seq<Link>) -> Seq<LinkView> {
    Seq::new(links.len(), |i: int| links[i]@)
}

impl Link {
    /// The canonical URI of the page at `path`: the components of the path
    /// behind a leading `/` and with `/` between them, the last one without
    /// its extension, and left out where it is `index`.
    pub fn path_to_uri(path: &str) -> (uri: String)
        ensures
            uri@ == uri_of_path(path@),
    {
        page_uri(path)
    }

    /// A copy of the whole subtree.
    pub fn duplicate(&self) -> (copy: Link)
        ensures
            copy@ == self@,
        decreases self,
    {
        let mut children: Vec<Link> = Vec::new();
        let mut i: usize = 0;
        while i < self.children.len()
            invariant
                i <= self.children.len(),
                children@.len() == i,
                forall|k: int| 0 <= k < i ==> children@[k]@ == self.children@[k]@,
            decreases self.children.len() - i,
        {
            let child = self.children[i].duplicate();
            children.push(child);
            i += 1;
        }
        let copy = Link { path: self.path.clone(), title: self.title.clone(), children };
        assert(copy@.children =~= self@.children);
        copy
    }
}

impl Clone for Link {
    fn clone(&self) -> (copy: Link)
        ensures
            copy@ == self@,
    {
        self.duplicate()
    }
}

} // verus!
