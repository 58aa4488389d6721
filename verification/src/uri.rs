//! Canonical URIs of pages.
//!
//! A path is a string whose components are separated by `/`. Its URI starts
//! with `/`, names the components in order, carries no page-file extension,
//! and stands for the directory itself where the page is a directory's index.

use vstd::prelude::*;
use crate::text::{characters, push_range};

verus! {

/// The character that separates the components of a path and of a URI.
pub open spec fn separator() -> char {
    '/'
}

/// The name of the page that stands for its directory, without extension.
pub open spec fn index_marker() -> Seq<char> {
    seq!['i', 'n', 'd', 'e', 'x']
}

/// The number of characters before the first separator of `s`, or the length
/// of `s` where it holds none.
pub open spec fn name_length(s: Seq<char>) -> nat
    decreases s.len(),
{
    if s.len() == 0 || s[0] == separator() {
        0
    } else {
        1 + name_length(s.drop_first())
    }
}

/// The components of a path: its maximal runs of characters other than the
/// separator, in order. Repeated, leading and trailing separators give no
/// component.
pub open spec fn path_components(s: Seq<char>) -> Seq<Seq<char>>
    decreases s.len(),
    via path_components_decreases
{
    if s.len() == 0 {
        Seq::empty()
    } else if s[0] == separator() {
        path_components(s.drop_first())
    } else {
        seq![s.take(name_length(s) as int)] + path_components(s.skip(name_length(s) as int))
    }
}

#[via_fn]
proof fn path_components_decreases(s: Seq<char>) {
    lemma_name_length_bounds(s);
}

/// A name ends before the first separator, and no later than the string does.
pub proof fn lemma_name_length_bounds(s: Seq<char>)
    ensures
        name_length(s) <= s.len(),
        s.len() > 0 && s[0] != separator() ==> name_length(s) >= 1,
        forall|k: int| 0 <= k < name_length(s) ==> s[k] != separator(),
        name_length(s) < s.len() ==> s[name_length(s) as int] == separator(),
    decreases s.len(),
{
    if s.len() > 0 && s[0] != separator() {
        let rest = s.drop_first();
        lemma_name_length_bounds(rest);
        assert forall|k: int| 0 <= k < name_length(s) implies s[k] != separator() by {
            if k > 0 {
                assert(s[k] == rest[k - 1]);
            }
        }
        if name_length(s) < s.len() {
            assert(s[name_length(s) as int] == rest[name_length(rest) as int]);
        }
    }
}

/// The position of the last `.` in `name`, or -1 where it holds none.
pub open spec fn last_dot(name: Seq<char>) -> int
    decreases name.len(),
{
    if name.len() == 0 {
        -1
    } else if name.last() == '.' {
        name.len() - 1
    } else {
        last_dot(name.drop_last())
    }
}

/// A file name without its extension. The extension starts at the last `.`
/// of the name; a name whose only `.` is its first character has none.
pub open spec fn file_stem(name: Seq<char>) -> Seq<char> {
    if last_dot(name) > 0 {
        name.take(last_dot(name))
    } else {
        name
    }
}

/// The components that a page's URI names: those of its path, the last one
/// without its extension, and left out where it is the index marker.
pub open spec fn page_components(components: Seq<Seq<char>>) -> Seq<Seq<char>> {
    if components.len() == 0 {
        components
    } else if file_stem(components.last()) == index_marker() {
        components.drop_last()
    } else {
        components.drop_last().push(file_stem(components.last()))
    }
}

/// The components in order, with one separator between neighbours.
pub open spec fn joined(components: Seq<Seq<char>>) -> Seq<char>
    decreases components.len(),
{
    if components.len() == 0 {
        Seq::empty()
    } else if components.len() == 1 {
        components[0]
    } else {
        joined(components.drop_last()) + seq![separator()] + components.last()
    }
}

/// The URI of the page whose path has the given components.
pub open spec fn uri_of_components(components: Seq<Seq<char>>) -> Seq<char> {
    seq![separator()] + joined(page_components(components))
}

/// The canonical URI of the page at `path`.
pub open spec fn uri_of_path(path: Seq<char>) -> Seq<char> {
    uri_of_components(path_components(path))
}

/// The components but the first; none where there is none.
pub open spec fn without_first(components: Seq<Seq<char>>) -> Seq<Seq<char>> {
    if components.len() == 0 {
        components
    } else {
        components.drop_first()
    }
}

/// The canonical URI that a path below the documentation root stands for:
/// that of the path without its first component, the root's own name.
pub open spec fn uri_below_root(path: Seq<char>) -> Seq<char> {
    uri_of_components(without_first(path_components(path)))
}

/// Whether `name` can be a component: it is not empty and holds no
/// separator.
pub open spec fn is_name(name: Seq<char>) -> bool {
    &&& name.len() > 0
    &&& forall|k: int| 0 <= k < name.len() ==> name[k] != separator()
}

/// Whether every component of the list can be one.
pub open spec fn are_names(components: Seq<Seq<char>>) -> bool {
    forall|k: int| 0 <= k < components.len() ==> is_name(#[trigger] components[k])
}

/// Whether `uri` has the canonical form: it starts with a separator, ends
/// with one only where it is the root, and holds no two in a row.
pub open spec fn is_canonical(uri: Seq<char>) -> bool {
    &&& uri.len() > 0
    &&& uri[0] == separator()
    &&& uri.len() > 1 ==> uri.last() != separator()
    &&& forall|k: int|
        0 <= k < uri.len() - 1 ==> !(#[trigger] uri[k] == separator() && uri[k + 1] == separator())
}

/// Every component of a path is a name.
pub proof fn lemma_path_components_are_names(s: Seq<char>)
    ensures
        are_names(path_components(s)),
    decreases s.len(),
{
    if s.len() == 0 {
    } else if s[0] == separator() {
        lemma_path_components_are_names(s.drop_first());
    } else {
        lemma_name_length_bounds(s);
        let n = name_length(s) as int;
        lemma_path_components_are_names(s.skip(n));
        let rest = path_components(s.skip(n));
        assert forall|k: int| 0 <= k < path_components(s).len() implies is_name(
            #[trigger] path_components(s)[k],
        ) by {
            if k > 0 {
                assert(path_components(s)[k] == rest[k - 1]);
            }
        }
    }
}

/// A name is the one component of the path that it makes.
pub proof fn lemma_name_is_one_component(name: Seq<char>)
    requires
        is_name(name),
    ensures
        path_components(name) == seq![name],
{
    lemma_name_length_is(name, name.len());
    assert(name.take(name.len() as int) =~= name);
    assert(path_components(name.skip(name.len() as int)) =~= Seq::<Seq<char>>::empty());
    assert(path_components(name) =~= seq![name]);
}

/// A separator parts a path: the components of two paths with a separator
/// between them are those of the first, then those of the second.
pub proof fn lemma_components_around_separator(a: Seq<char>, b: Seq<char>)
    ensures
        path_components(a + seq![separator()] + b) == path_components(a) + path_components(b),
    decreases a.len(),
{
    let whole = a + seq![separator()] + b;
    if a.len() == 0 {
        assert(whole.drop_first() =~= b);
        assert(path_components(a) + path_components(b) =~= path_components(b));
    } else if a[0] == separator() {
        assert(whole.drop_first() =~= a.drop_first() + seq![separator()] + b);
        lemma_components_around_separator(a.drop_first(), b);
    } else {
        lemma_name_length_bounds(a);
        let n = name_length(a);
        assert forall|k: int| 0 <= k < n implies whole[k] != separator() by {
            assert(whole[k] == a[k]);
        }
        if n < a.len() {
            assert(whole[n as int] == a[n as int]);
        }
        lemma_name_length_is(whole, n);
        assert(whole.take(n as int) =~= a.take(n as int));
        assert(whole.skip(n as int) =~= a.skip(n as int) + seq![separator()] + b);
        lemma_components_around_separator(a.skip(n as int), b);
        assert(path_components(whole) =~= path_components(a) + path_components(b));
    }
}

/// The stem of a name with an extension: what stands before the dot, where
/// that is not empty and no further dot follows.
pub proof fn lemma_stem_before_extension(stem: Seq<char>, extension: Seq<char>)
    requires
        stem.len() > 0,
        forall|k: int| 0 <= k < extension.len() ==> extension[k] != '.',
    ensures
        last_dot(stem + seq!['.'] + extension) == stem.len(),
        file_stem(stem + seq!['.'] + extension) == stem,
    decreases extension.len(),
{
    let name = stem + seq!['.'] + extension;
    if extension.len() > 0 {
        let shorter = extension.drop_last();
        assert(name.last() == extension[extension.len() - 1]);
        assert forall|k: int| 0 <= k < shorter.len() implies shorter[k] != '.' by {
            assert(shorter[k] == extension[k]);
        }
        assert(name.drop_last() =~= stem + seq!['.'] + shorter);
        lemma_stem_before_extension(stem, shorter);
        assert(last_dot(name) == stem.len());
    } else {
        assert(name.last() == '.');
        assert(last_dot(name) == stem.len());
    }
    assert(name.take(stem.len() as int) =~= stem);
}

/// A name without a dot is its own stem.
pub proof fn lemma_stem_without_dot(name: Seq<char>)
    requires
        forall|k: int| 0 <= k < name.len() ==> name[k] != '.',
    ensures
        file_stem(name) == name,
    decreases name.len(),
{
    if name.len() > 0 {
        let front = name.drop_last();
        assert forall|k: int| 0 <= k < front.len() implies front[k] != '.' by {
            assert(front[k] == name[k]);
        }
        lemma_stem_without_dot(front);
        lemma_last_dot_in_range(front);
        assert(name.last() == name[name.len() - 1]);
        if last_dot(front) >= 0 {
            assert(front[last_dot(front)] == name[last_dot(front)]);
        }
    }
}

/// The stem of a name is a name.
pub proof fn lemma_file_stem_is_name(name: Seq<char>)
    requires
        is_name(name),
    ensures
        is_name(file_stem(name)),
{
    lemma_last_dot_in_range(name);
}

/// The last dot is a position of the name, and a dot stands there.
pub proof fn lemma_last_dot_in_range(name: Seq<char>)
    ensures
        -1 <= last_dot(name) < name.len(),
        last_dot(name) >= 0 ==> name[last_dot(name)] == '.',
        forall|k: int| last_dot(name) < k < name.len() ==> name[k] != '.',
    decreases name.len(),
{
    if name.len() > 0 && name.last() != '.' {
        let front = name.drop_last();
        lemma_last_dot_in_range(front);
        assert forall|k: int| last_dot(name) < k < name.len() implies name[k] != '.' by {
            if k < front.len() {
                assert(name[k] == front[k]);
            }
        }
        if last_dot(name) >= 0 {
            assert(name[last_dot(name)] == front[last_dot(front)]);
        }
    }
}

/// Names joined by separators start and end with a character of a name, and
/// hold no two separators in a row.
pub proof fn lemma_joined_names(components: Seq<Seq<char>>)
    requires
        are_names(components),
    ensures
        components.len() == 0 ==> joined(components).len() == 0,
        components.len() > 0 ==> {
            &&& joined(components).len() > 0
            &&& joined(components)[0] != separator()
            &&& joined(components).last() != separator()
        },
        forall|k: int|
            0 <= k < joined(components).len() - 1 ==> !(#[trigger] joined(components)[k] == separator()
                && joined(components)[k + 1] == separator()),
    decreases components.len(),
{
    if components.len() > 1 {
        let front = components.drop_last();
        let last = components.last();
        assert(is_name(last));
        assert forall|k: int| 0 <= k < front.len() implies is_name(#[trigger] front[k]) by {
            assert(front[k] == components[k]);
        }
        lemma_joined_names(front);
        let head = joined(front);
        let all = joined(components);
        assert(all =~= head + seq![separator()] + last);
        assert forall|k: int| 0 <= k < all.len() - 1 implies !(#[trigger] all[k] == separator()
            && all[k + 1] == separator()) by {
            if k + 1 < head.len() {
                assert(all[k] == head[k] && all[k + 1] == head[k + 1]);
            } else if k + 1 == head.len() {
                assert(all[k] == head.last());
            } else {
                assert(all[k + 1] == last[k - head.len()]);
            }
        }
        assert(all[0] == head[0]);
        assert(all.last() == last.last());
    } else if components.len() == 1 {
        assert(is_name(components[0]));
    }
}

/// The URI of a page whose path has names as components is canonical.
pub proof fn lemma_uri_of_components_is_canonical(components: Seq<Seq<char>>)
    requires
        are_names(components),
    ensures
        is_canonical(uri_of_components(components)),
{
    let kept = page_components(components);
    if components.len() > 0 {
        assert(is_name(components.last()));
        lemma_file_stem_is_name(components.last());
        assert forall|k: int| 0 <= k < kept.len() implies is_name(#[trigger] kept[k]) by {
            if k < components.len() - 1 {
                assert(kept[k] == components[k]);
            }
        }
    }
    lemma_joined_names(kept);
    let uri = uri_of_components(components);
    let tail = joined(kept);
    assert(uri =~= seq![separator()] + tail);
    assert forall|k: int| 0 <= k < uri.len() - 1 implies !(#[trigger] uri[k] == separator()
        && uri[k + 1] == separator()) by {
        if k > 0 {
            assert(uri[k] == tail[k - 1] && uri[k + 1] == tail[k]);
        } else {
            assert(uri[1] == tail[0]);
        }
    }
    if uri.len() > 1 {
        assert(uri.last() == tail.last());
    }
}

/// The URI of every path is canonical: it starts with a separator, ends
/// with one only where it is the root, and holds no two in a row. So is the
/// URI that a path stands for below the documentation root.
pub proof fn lemma_uri_is_canonical(path: Seq<char>)
    ensures
        is_canonical(uri_of_path(path)),
        is_canonical(uri_below_root(path)),
{
    lemma_path_components_are_names(path);
    let components = path_components(path);
    lemma_uri_of_components_is_canonical(components);
    let rest = without_first(components);
    assert forall|k: int| 0 <= k < rest.len() implies is_name(#[trigger] rest[k]) by {
        assert(rest[k] == components[k + 1]);
    }
    lemma_uri_of_components_is_canonical(rest);
}

/// The texts of the character ranges `spans` of `chars`.
pub(crate) open spec fn span_texts(chars: Seq<char>, spans: Seq<(usize, usize)>) -> Seq<Seq<char>> {
    Seq::new(spans.len(), |k: int| chars.subrange(spans[k].0 as int, spans[k].1 as int))
}

/// Every range is non-empty and lies within `chars`.
pub(crate) open spec fn spans_within(chars: Seq<char>, spans: Seq<(usize, usize)>) -> bool {
    forall|k: int| 0 <= k < spans.len() ==> (#[trigger] spans[k]).0 < spans[k].1 <= chars.len()
}

/// A run of `n` characters without separator that ends the string or stands
/// before a separator is the first name of the string.
proof fn lemma_name_length_is(s: Seq<char>, n: nat)
    requires
        n <= s.len(),
        forall|k: int| 0 <= k < n ==> s[k] != separator(),
        n < s.len() ==> s[n as int] == separator(),
    ensures
        name_length(s) == n,
    decreases n,
{
    if n > 0 {
        let rest = s.drop_first();
        assert forall|k: int| 0 <= k < n - 1 implies rest[k] != separator() by {
            assert(rest[k] == s[k + 1]);
        }
        lemma_name_length_is(rest, (n - 1) as nat);
    }
}

/// The ranges of the components of `chars`, in order.
pub(crate) fn component_spans(chars: &Vec<char>) -> (spans: Vec<(usize, usize)>)
    ensures
        spans_within(chars@, spans@),
        span_texts(chars@, spans@) == path_components(chars@),
{
    let mut spans: Vec<(usize, usize)> = Vec::new();
    let mut i: usize = 0;
    assert(chars@.skip(0) =~= chars@);
    assert(span_texts(chars@, spans@) + path_components(chars@) =~= path_components(chars@));
    while i < chars.len()
        invariant
            i <= chars.len(),
            spans_within(chars@, spans@),
            path_components(chars@) == span_texts(chars@, spans@) + path_components(
                chars@.skip(i as int),
            ),
        decreases chars.len() - i,
    {
        let ghost rest = chars@.skip(i as int);
        if chars[i] == '/' {
            assert(rest.drop_first() =~= chars@.skip(i + 1));
            i += 1;
        } else {
            let start: usize = i;
            i += 1;
            while i < chars.len() && chars[i] != '/'
                invariant
                    start < i <= chars.len(),
                    forall|k: int| start <= k < i ==> chars@[k] != separator(),
                decreases chars.len() - i,
            {
                i += 1;
            }
            proof {
                lemma_name_length_is(rest, (i - start) as nat);
                assert(rest.take(i - start) =~= chars@.subrange(start as int, i as int));
                assert(rest.skip(i - start) =~= chars@.skip(i as int));
                assert(span_texts(chars@, spans@.push((start, i))) =~= span_texts(chars@, spans@)
                    + seq![chars@.subrange(start as int, i as int)]);
            }
            spans.push((start, i));
        }
    }
    assert(path_components(chars@.skip(i as int)) =~= Seq::<Seq<char>>::empty());
    spans
}

/// Where the stem of the name `chars[start..end]` ends.
pub(crate) fn stem_end(chars: &Vec<char>, start: usize, end: usize) -> (stop: usize)
    requires
        start <= end <= chars.len(),
    ensures
        start <= stop <= end,
        chars@.subrange(start as int, stop as int) == file_stem(
            chars@.subrange(start as int, end as int),
        ),
{
    let ghost name = chars@.subrange(start as int, end as int);
    let mut k: usize = end;
    assert(name.take(k - start) =~= name);
    while k > start && chars[k - 1] != '.'
        invariant
            start <= k <= end <= chars.len(),
            name == chars@.subrange(start as int, end as int),
            last_dot(name) == last_dot(name.take(k - start)),
        decreases k,
    {
        assert(name.take(k - start).drop_last() =~= name.take(k - start - 1));
        k -= 1;
    }
    // Here `k - 1` is the last dot, where `k > start`.
    if k - start > 1 {
        assert(name.take(k - start).last() == '.');
        assert(name.take(k - 1 - start) =~= chars@.subrange(start as int, k - 1));
        k - 1
    } else {
        end
    }
}

/// Whether `chars[start..end]` is the index marker.
pub(crate) fn is_index_marker(chars: &Vec<char>, start: usize, end: usize) -> (yes: bool)
    requires
        start <= end <= chars.len(),
    ensures
        yes == (chars@.subrange(start as int, end as int) == index_marker()),
{
    let ghost name = chars@.subrange(start as int, end as int);
    assert(index_marker().len() == 5);
    if end - start != 5 {
        return false;
    }
    let yes = chars[start] == 'i' && chars[start + 1] == 'n' && chars[start + 2] == 'd'
        && chars[start + 3] == 'e' && chars[start + 4] == 'x';
    proof {
        assert(name[0] == chars@[start as int]);
        assert(name[1] == chars@[start + 1]);
        assert(name[2] == chars@[start + 2]);
        assert(name[3] == chars@[start + 3]);
        assert(name[4] == chars@[start + 4]);
        if yes {
            assert(name =~= index_marker());
        }
    }
    yes
}

/// The URI of the page whose path has the components `spans` of `chars`.
pub(crate) fn uri_of_spans(chars: &Vec<char>, spans: Vec<(usize, usize)>) -> (uri: String)
    requires
        spans_within(chars@, spans@),
    ensures
        uri@ == uri_of_components(span_texts(chars@, spans@)),
{
    let mut spans = spans;
    let ghost given = span_texts(chars@, spans@);
    if spans.len() > 0 {
        let last: usize = spans.len() - 1;
        let (start, end) = spans[last];
        let stop: usize = stem_end(chars, start, end);
        if is_index_marker(chars, start, stop) {
            spans.pop();
            assert(span_texts(chars@, spans@) =~= page_components(given));
        } else {
            spans.set(last, (start, stop));
            assert(span_texts(chars@, spans@) =~= page_components(given));
        }
    }
    let ghost kept = span_texts(chars@, spans@);
    assert(kept == page_components(given));
    let mut uri = String::new();
    uri.push('/');
    let mut k: usize = 0;
    assert(kept.take(0) =~= Seq::<Seq<char>>::empty());
    assert(uri@ =~= seq![separator()] + joined(kept.take(0)));
    while k < spans.len()
        invariant
            k <= spans.len(),
            kept == span_texts(chars@, spans@),
            forall|j: int| 0 <= j < spans.len() ==> (#[trigger] spans[j]).0 <= spans[j].1 <= chars.len(),
            uri@ == seq![separator()] + joined(kept.take(k as int)),
        decreases spans.len() - k,
    {
        if k > 0 {
            uri.push('/');
        }
        let (start, end) = spans[k];
        push_range(&mut uri, chars, start, end);
        proof {
            let next = kept.take(k + 1);
            assert(next.drop_last() =~= kept.take(k as int));
            assert(next.last() == chars@.subrange(start as int, end as int));
            assert(uri@ =~= seq![separator()] + joined(next));
        }
        k += 1;
    }
    assert(kept.take(k as int) =~= kept);
    uri
}

/// The canonical URI of the page at `path`.
pub fn page_uri(path: &str) -> (uri: String)
    ensures
        uri@ == uri_of_path(path@),
{
    let chars = characters(path);
    let spans = component_spans(&chars);
    uri_of_spans(&chars, spans)
}

/// The canonical URI that `path`, a path below the documentation root,
/// stands for.
pub fn page_uri_below_root(path: &str) -> (uri: String)
    ensures
        uri@ == uri_below_root(path@),
{
    let chars = characters(path);
    let mut spans = component_spans(&chars);
    if spans.len() > 0 {
        spans.remove(0);
        assert(span_texts(chars@, spans@) =~= without_first(path_components(chars@)));
    }
    uri_of_spans(&chars, spans)
}

} // verus!
