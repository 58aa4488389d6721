//! Stable sorting of links by title.

use vstd::prelude::*;
use crate::link::{Link, LinkView, views};
use crate::natural::{precedes, title_precedes};

verus! {

/// Where a link with the given title enters a sorted list: behind the last
/// link that its title does not come strictly before.
pub open spec fn insertion_point(sorted: Seq<LinkView>, title: Seq<char>) -> nat
    decreases sorted.len(),
{
    if sorted.len() > 0 && precedes(title, sorted.last().title) {
        insertion_point(sorted.drop_last(), title)
    } else {
        sorted.len()
    }
}

/// The sorted list with one more link, at its insertion point.
pub open spec fn inserted(sorted: Seq<LinkView>, link: LinkView) -> Seq<LinkView> {
    sorted.insert(insertion_point(sorted, link.title) as int, link)
}

/// The links in natural order of their titles. Each link in turn enters the
/// list of those before it at its insertion point, so links of which neither
/// title comes before the other keep the order in which they were given.
pub open spec fn sorted_by_title(links: Seq<LinkView>) -> Seq<LinkView>
    decreases links.len(),
{
    if links.len() == 0 {
        links
    } else {
        inserted(sorted_by_title(links.drop_last()), links.last())
    }
}

/// The insertion point of `title` in `sorted`.
pub(crate) fn find_insertion_point(sorted: &Vec<Link>, title: &str) -> (point: usize)
    ensures
        point == insertion_point(views(sorted@), title@),
{
    let ghost all = views(sorted@);
    let mut point: usize = sorted.len();
    assert(all.take(point as int) =~= all);
    while point > 0 && title_precedes(title, sorted[point - 1].title.as_str())
        invariant
            point <= sorted.len(),
            all == views(sorted@),
            insertion_point(all, title@) == insertion_point(all.take(point as int), title@),
        decreases point,
    {
        assert(all.take(point as int).drop_last() =~= all.take(point - 1));
        point -= 1;
    }
    point
}

/// Sorts the links by title, in natural order and stably.
pub fn sort_by_title(links: Vec<Link>) -> (sorted: Vec<Link>)
    ensures
        views(sorted@) == sorted_by_title(views(links@)),
{
    let ghost given = views(links@);
    let mut sorted: Vec<Link> = Vec::new();
    assert(views(sorted@) =~= sorted_by_title(given.take(0)));
    for link in it: links
        invariant
            views(it.seq()) == given,
            views(sorted@) == sorted_by_title(given.take(it.index())),
    {
        let point: usize = find_insertion_point(&sorted, link.title.as_str());
        proof {
            lemma_insertion_point_divides(views(sorted@), link.title@);
            assert(given.take(it.index() + 1).drop_last() =~= given.take(it.index()));
            assert(views(sorted@.insert(point as int, link)) =~= views(sorted@).insert(
                point as int,
                link@,
            ));
        }
        sorted.insert(point, link);
    }
    assert(given.take(given.len() as int) =~= given);
    sorted
}

/// Whether natural order is a strict weak order on the given titles: no
/// two of them come before each other, and where one comes before another,
/// every third one comes after the first or before the second.
pub open spec fn strict_weak_order_on(titles: Set<Seq<char>>) -> bool {
    &&& forall|a: Seq<char>, b: Seq<char>|
        titles.contains(a) && titles.contains(b) && #[trigger] precedes(a, b) ==> !precedes(b, a)
    &&& forall|a: Seq<char>, b: Seq<char>, c: Seq<char>|
        #![trigger precedes(a, b), precedes(b, c)]
        titles.contains(a) && titles.contains(b) && titles.contains(c) && precedes(a, c)
            ==> precedes(a, b) || precedes(b, c)
}

/// Whether the title of every link of the list is among `titles`.
pub open spec fn titled_within(links: Seq<LinkView>, titles: Set<Seq<char>>) -> bool {
    forall|i: int| 0 <= i < links.len() ==> titles.contains(#[trigger] links[i].title)
}

/// Whether the list is in natural order of its titles: no title comes
/// strictly before the title of an earlier link.
pub open spec fn in_title_order(links: Seq<LinkView>) -> bool {
    forall|i: int, j: int|
        0 <= i < j < links.len() ==> !precedes(#[trigger] links[j].title, #[trigger] links[i].title)
}

/// The title comes strictly before those of all links from its insertion
/// point on, and not before that of the link just ahead of it.
pub proof fn lemma_insertion_point_divides(sorted: Seq<LinkView>, title: Seq<char>)
    ensures
        insertion_point(sorted, title) <= sorted.len(),
        forall|j: int|
            insertion_point(sorted, title) <= j < sorted.len() ==> precedes(
                title,
                #[trigger] sorted[j].title,
            ),
        insertion_point(sorted, title) > 0 ==> !precedes(
            title,
            sorted[insertion_point(sorted, title) - 1].title,
        ),
    decreases sorted.len(),
{
    if sorted.len() > 0 && precedes(title, sorted.last().title) {
        let front = sorted.drop_last();
        lemma_insertion_point_divides(front, title);
        assert forall|j: int| insertion_point(sorted, title) <= j < sorted.len() implies precedes(
            title,
            #[trigger] sorted[j].title,
        ) by {
            if j < front.len() {
                assert(sorted[j] == front[j]);
            }
        }
        if insertion_point(sorted, title) > 0 {
            assert(sorted[insertion_point(sorted, title) - 1] == front[insertion_point(
                front,
                title,
            ) - 1]);
        }
    }
}

/// Sorting neither adds nor loses a link: the sorted list holds each link
/// as often as the given one.
pub proof fn lemma_sorted_same_links(links: Seq<LinkView>)
    ensures
        sorted_by_title(links).to_multiset() == links.to_multiset(),
        sorted_by_title(links).len() == links.len(),
    decreases links.len(),
{
    broadcast use vstd::seq_lib::group_to_multiset_ensures;

    if links.len() > 0 {
        let front = links.drop_last();
        let sorted = sorted_by_title(front);
        lemma_sorted_same_links(front);
        lemma_insertion_point_divides(sorted, links.last().title);
        assert(front.push(links.last()) =~= links);
    }
}

/// Every link of the sorted list is one of the given list, and every link
/// of the given list is one of the sorted list.
pub proof fn lemma_sorted_holds_given_links(links: Seq<LinkView>)
    ensures
        forall|link: LinkView| sorted_by_title(links).contains(link) <==> links.contains(link),
{
    broadcast use vstd::seq_lib::to_multiset_contains;

    lemma_sorted_same_links(links);
    assert forall|link: LinkView| sorted_by_title(links).contains(link) <==> links.contains(
        link,
    ) by {
        assert(sorted_by_title(links).to_multiset().count(link) == links.to_multiset().count(link));
    }
}

/// Where natural order is a strict weak order on the titles of the links,
/// the sorted list is in natural order of its titles.
pub proof fn lemma_sorted_in_title_order(links: Seq<LinkView>, titles: Set<Seq<char>>)
    requires
        strict_weak_order_on(titles),
        titled_within(links, titles),
    ensures
        in_title_order(sorted_by_title(links)),
    decreases links.len(),
{
    if links.len() > 0 {
        let front = links.drop_last();
        let link = links.last();
        let sorted = sorted_by_title(front);
        let point = insertion_point(sorted, link.title) as int;
        let all = sorted_by_title(links);
        lemma_sorted_in_title_order(front, titles);
        lemma_sorted_holds_given_links(front);
        lemma_insertion_point_divides(sorted, link.title);
        assert(titles.contains(link.title));
        assert forall|k: int| 0 <= k < sorted.len() implies titles.contains(
            #[trigger] sorted[k].title,
        ) by {
            assert(sorted.contains(sorted[k]));
            assert(front.contains(sorted[k]));
            let at = choose|at: int| 0 <= at < front.len() && front[at] == sorted[k];
            assert(front[at] == links[at]);
        }
        assert forall|i: int, j: int| 0 <= i < j < all.len() implies !precedes(
            #[trigger] all[j].title,
            #[trigger] all[i].title,
        ) by {
            if j < point {
                assert(all[i] == sorted[i] && all[j] == sorted[j]);
            } else if j == point {
                assert(all[i] == sorted[i] && all[j] == link);
                if i < point - 1 {
                    assert(!precedes(sorted[point - 1].title, sorted[i].title));
                    assert(precedes(link.title, sorted[i].title) ==> precedes(
                        link.title,
                        sorted[point - 1].title,
                    ) || precedes(sorted[point - 1].title, sorted[i].title));
                }
            } else if i < point {
                assert(all[i] == sorted[i] && all[j] == sorted[j - 1]);
            } else if i == point {
                assert(all[i] == link && all[j] == sorted[j - 1]);
                assert(precedes(link.title, sorted[j - 1].title));
            } else {
                assert(all[i] == sorted[i - 1] && all[j] == sorted[j - 1]);
            }
        }
    }
}

/// Whether neither title comes strictly before the other.
pub open spec fn ranked_alike(a: Seq<char>, b: Seq<char>) -> bool {
    !precedes(a, b) && !precedes(b, a)
}

/// The links of the list whose titles rank with `title`, in their order.
pub open spec fn ranked_with(links: Seq<LinkView>, title: Seq<char>) -> Seq<LinkView> {
    links.filter(|link: LinkView| ranked_alike(link.title, title))
}

/// Where no link of the list ranks with the title, none is picked.
proof fn lemma_none_ranked_with(links: Seq<LinkView>, title: Seq<char>)
    requires
        forall|k: int| 0 <= k < links.len() ==> !ranked_alike(#[trigger] links[k].title, title),
    ensures
        ranked_with(links, title) == Seq::<LinkView>::empty(),
    decreases links.len(),
{
    reveal(Seq::filter);
    if links.len() > 0 {
        let front = links.drop_last();
        assert forall|k: int| 0 <= k < front.len() implies !ranked_alike(
            #[trigger] front[k].title,
            title,
        ) by {
            assert(front[k] == links[k]);
        }
        lemma_none_ranked_with(front, title);
        assert(!ranked_alike(links[links.len() - 1].title, title));
    }
}

/// Sorting is stable: where natural order is a strict weak order on the
/// titles, the links whose titles rank with one of them stand in the sorted
/// list in the order in which they were given.
pub proof fn lemma_sorted_keeps_given_order(
    links: Seq<LinkView>,
    titles: Set<Seq<char>>,
    title: Seq<char>,
)
    requires
        strict_weak_order_on(titles),
        titled_within(links, titles),
        titles.contains(title),
    ensures
        ranked_with(sorted_by_title(links), title) == ranked_with(links, title),
    decreases links.len(),
{
    broadcast use Seq::filter_distributes_over_add, Seq::lemma_filter_push;

    if links.len() > 0 {
        let front = links.drop_last();
        let link = links.last();
        let sorted = sorted_by_title(front);
        let point = insertion_point(sorted, link.title) as int;
        let ahead = sorted.take(point);
        let behind = sorted.skip(point);
        lemma_sorted_keeps_given_order(front, titles, title);
        lemma_sorted_holds_given_links(front);
        lemma_insertion_point_divides(sorted, link.title);
        assert(links =~= front.push(link));
        assert(sorted =~= ahead + behind);
        assert(sorted_by_title(links) =~= ahead.push(link) + behind);
        assert(titles.contains(link.title));
        if ranked_alike(link.title, title) {
            assert forall|k: int| 0 <= k < behind.len() implies !ranked_alike(
                #[trigger] behind[k].title,
                title,
            ) by {
                let other = behind[k];
                assert(other == sorted[point + k]);
                assert(sorted.contains(other));
                assert(front.contains(other));
                let at = choose|at: int| 0 <= at < front.len() && front[at] == other;
                assert(front[at] == links[at]);
                assert(titles.contains(other.title));
                assert(precedes(link.title, other.title));
                assert(precedes(link.title, other.title) ==> precedes(link.title, title)
                    || precedes(title, other.title));
            }
            lemma_none_ranked_with(behind, title);
            assert(ranked_with(ahead.push(link), title) + Seq::<LinkView>::empty() =~= ranked_with(
                ahead.push(link),
                title,
            ));
            assert(ranked_with(ahead, title) + Seq::<LinkView>::empty() =~= ranked_with(
                ahead,
                title,
            ));
        }
    }
}

} // verus!
