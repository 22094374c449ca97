//! The order of a listing.
//!
//! A listing is shown in the order of its elements' names, compared byte by
//! byte. Elements of equal name keep the order in which they were found.

use vstd::prelude::*;
use crate::fs::{element_views, ElementView, FSElement};

verus! {

/// The lexicographic order on names: `a` comes no later than `b`. Bytes are
/// compared from the front, and a name comes before every longer name that
/// starts with it.
pub open spec fn name_le(a: Seq<u8>, b: Seq<u8>) -> bool
    decreases a.len(),
{
    if a.len() == 0 {
        true
    } else if b.len() == 0 {
        false
    } else if a[0] != b[0] {
        a[0] < b[0]
    } else {
        name_le(a.skip(1), b.skip(1))
    }
}

/// Every element comes no later than the ones after it.
pub open spec fn sorted_by_name(listing: Seq<ElementView>) -> bool {
    forall|i: int, j: int|
        0 <= i < j < listing.len() ==> name_le(listing[i].name, listing[j].name)
}

/// The elements called `name`, as a predicate to filter with.
pub open spec fn named(name: Seq<u8>) -> spec_fn(ElementView) -> bool {
    |element: ElementView| element.name == name
}

/// `sorted` is `elements` in the order of their names: it is sorted, and for
/// every name it holds the elements of that name that `elements` holds, in
/// the same order.
pub open spec fn is_sorted_listing(elements: Seq<ElementView>, sorted: Seq<ElementView>) -> bool {
    &&& sorted_by_name(sorted)
    &&& forall|name: Seq<u8>| #[trigger]
        sorted.filter(named(name)) == elements.filter(named(name))
}

/// A name comes no later than itself.
pub proof fn lemma_name_le_reflexive(a: Seq<u8>)
    ensures
        name_le(a, a),
    decreases a.len(),
{
    if a.len() > 0 {
        lemma_name_le_reflexive(a.skip(1));
    }
}

/// Of two names, one comes no later than the other.
pub proof fn lemma_name_le_total(a: Seq<u8>, b: Seq<u8>)
    ensures
        name_le(a, b) || name_le(b, a),
    decreases a.len(),
{
    if a.len() > 0 && b.len() > 0 && a[0] == b[0] {
        lemma_name_le_total(a.skip(1), b.skip(1));
    }
}

/// The order of names is transitive.
pub proof fn lemma_name_le_transitive(a: Seq<u8>, b: Seq<u8>, c: Seq<u8>)
    requires
        name_le(a, b),
        name_le(b, c),
    ensures
        name_le(a, c),
    decreases a.len(),
{
    if a.len() > 0 && b.len() > 0 && c.len() > 0 && a[0] == b[0] && b[0] == c[0] {
        lemma_name_le_transitive(a.skip(1), b.skip(1), c.skip(1));
    }
}

/// Two names that come no later than each other are one name.
pub proof fn lemma_name_le_antisymmetric(a: Seq<u8>, b: Seq<u8>)
    requires
        name_le(a, b),
        name_le(b, a),
    ensures
        a == b,
    decreases a.len(),
{
    if a.len() > 0 && b.len() > 0 {
        lemma_name_le_antisymmetric(a.skip(1), b.skip(1));
        assert(a =~= seq![a[0]] + a.skip(1));
        assert(b =~= seq![b[0]] + b.skip(1));
    } else {
        assert(a =~= b);
    }
}

/// Filtering a sequence whose last element passes keeps that element last,
/// and filtering one whose last element fails is filtering the rest.
proof fn lemma_filter_last(listing: Seq<ElementView>, name: Seq<u8>)
    requires
        listing.len() > 0,
    ensures
        listing.last().name == name ==> listing.filter(named(name)) == listing.drop_last().filter(
            named(name),
        ).push(listing.last()),
        listing.last().name != name ==> listing.filter(named(name)) == listing.drop_last().filter(
            named(name),
        ),
{
    reveal(Seq::filter);
}

/// An element of a sorted listing comes no later than the last one.
proof fn lemma_last_is_latest(listing: Seq<ElementView>, element: ElementView)
    requires
        sorted_by_name(listing),
        listing.contains(element),
    ensures
        name_le(element.name, listing.last().name),
{
    let i = choose|i: int| 0 <= i < listing.len() && listing[i] == element;
    if i == listing.len() - 1 {
        lemma_name_le_reflexive(element.name);
    }
}

/// Two sorted listings that hold the same elements under every name, in the
/// same order, are one listing.
proof fn lemma_same_groups(a: Seq<ElementView>, b: Seq<ElementView>)
    requires
        sorted_by_name(a),
        sorted_by_name(b),
        forall|name: Seq<u8>| #[trigger] a.filter(named(name)) == b.filter(named(name)),
    ensures
        a == b,
    decreases a.len(),
{
    if a.len() == 0 {
        if b.len() > 0 {
            lemma_filter_last(b, b.last().name);
            assert(a.filter(named(b.last().name)).len() <= a.len()) by {
                a.lemma_filter_len(named(b.last().name));
            }
        }
        assert(a =~= b);
    } else {
        let x = a.last();
        lemma_filter_last(a, x.name);
        assert(b.filter(named(x.name)).last() == x);
        assert(b.len() > 0) by {
            b.lemma_filter_len(named(x.name));
        }
        let y = b.last();
        lemma_filter_last(b, y.name);
        assert(a.filter(named(y.name)).last() == y);
        assert(a.contains(y)) by {
            let group = a.filter(named(y.name));
            assert(group.contains(group[group.len() - 1]));
            a.lemma_filter_contains_rev(named(y.name), y);
        }
        assert(b.contains(x)) by {
            let group = b.filter(named(x.name));
            assert(group.contains(group[group.len() - 1]));
            b.lemma_filter_contains_rev(named(x.name), x);
        }
        lemma_last_is_latest(a, y);
        lemma_last_is_latest(b, x);
        lemma_name_le_antisymmetric(x.name, y.name);
        assert(x == y);
        assert forall|name: Seq<u8>| #[trigger]
            a.drop_last().filter(named(name)) == b.drop_last().filter(named(name)) by {
            lemma_filter_last(a, name);
            lemma_filter_last(b, name);
            assert(a.filter(named(name)) == b.filter(named(name)));
            if x.name == name {
                let ga = a.drop_last().filter(named(name));
                let gb = b.drop_last().filter(named(name));
                assert(ga.push(x).drop_last() == ga);
                assert(gb.push(x).drop_last() == gb);
            }
        }
        lemma_same_groups(a.drop_last(), b.drop_last());
        assert(a == a.drop_last().push(x));
        assert(b == b.drop_last().push(y));
    }
}

/// A listing has one order of names only: two sorted listings of the same
/// elements are equal.
pub proof fn lemma_sorted_listing_unique(
    elements: Seq<ElementView>,
    first: Seq<ElementView>,
    second: Seq<ElementView>,
)
    requires
        is_sorted_listing(elements, first),
        is_sorted_listing(elements, second),
    ensures
        first == second,
{
    assert forall|name: Seq<u8>| #[trigger]
        first.filter(named(name)) == second.filter(named(name)) by {
        assert(first.filter(named(name)) == elements.filter(named(name)));
        assert(second.filter(named(name)) == elements.filter(named(name)));
    }
    lemma_same_groups(first, second);
}

/// A sorted listing holds every element as often as the listing it was made
/// from: it has the same length.
pub proof fn lemma_sorted_listing_length(elements: Seq<ElementView>, sorted: Seq<ElementView>)
    requires
        is_sorted_listing(elements, sorted),
    ensures
        sorted.len() == elements.len(),
    decreases elements.len(),
{
    if elements.len() == 0 {
        if sorted.len() > 0 {
            lemma_filter_last(sorted, sorted.last().name);
            assert(sorted.filter(named(sorted.last().name)) == elements.filter(
                named(sorted.last().name),
            ));
            elements.lemma_filter_len(named(sorted.last().name));
        }
    } else {
        let x = elements.last();
        let name = x.name;
        lemma_filter_last(elements, name);
        let group = sorted.filter(named(name));
        assert(group == elements.filter(named(name)));
        assert(group.last() == x);
        lemma_remove_last_of_name(sorted, name);
        let at = last_index_of_name(sorted, name);
        let fewer = sorted.remove(at);
        assert forall|other: Seq<u8>| #[trigger]
            fewer.filter(named(other)) == elements.drop_last().filter(named(other)) by {
            lemma_filter_last(elements, other);
            assert(sorted.filter(named(other)) == elements.filter(named(other)));
            if other == name {
                let rest = elements.drop_last().filter(named(name));
                assert(rest.push(x).drop_last() == rest);
            }
        }
        assert(sorted_by_name(fewer));
        lemma_sorted_listing_length(elements.drop_last(), fewer);
    }
}

/// The position of the last element called `name`.
spec fn last_index_of_name(listing: Seq<ElementView>, name: Seq<u8>) -> int
    decreases listing.len(),
{
    if listing.len() == 0 {
        -1
    } else if listing.last().name == name {
        listing.len() - 1
    } else {
        last_index_of_name(listing.drop_last(), name)
    }
}

/// Taking the last element called `name` out of a listing takes the last
/// element out of the group of that name and leaves the other groups alone.
proof fn lemma_remove_last_of_name(listing: Seq<ElementView>, name: Seq<u8>)
    requires
        listing.filter(named(name)).len() > 0,
    ensures
        0 <= last_index_of_name(listing, name) < listing.len(),
        listing[last_index_of_name(listing, name)].name == name,
        listing.remove(last_index_of_name(listing, name)).filter(named(name)) == listing.filter(
            named(name),
        ).drop_last(),
        forall|other: Seq<u8>|
            other != name ==> #[trigger] listing.remove(last_index_of_name(listing, name)).filter(
                named(other),
            ) == listing.filter(named(other)),
    decreases listing.len(),
{
    reveal(Seq::filter);
    if listing.len() > 0 {
        let at = last_index_of_name(listing, name);
        lemma_filter_last(listing, name);
        if listing.last().name == name {
            assert(listing.remove(at) == listing.drop_last());
            let rest = listing.drop_last().filter(named(name));
            assert(rest.push(listing.last()).drop_last() == rest);
            assert forall|other: Seq<u8>| other != name implies #[trigger] listing.remove(
                at,
            ).filter(named(other)) == listing.filter(named(other)) by {
                lemma_filter_last(listing, other);
            }
        } else {
            lemma_remove_last_of_name(listing.drop_last(), name);
            let shorter = listing.drop_last().remove(at);
            assert(listing.remove(at) == shorter.push(listing.last()));
            assert(listing.remove(at).drop_last() == shorter);
            lemma_filter_last(listing.remove(at), name);
            assert forall|other: Seq<u8>| other != name implies #[trigger] listing.remove(
                at,
            ).filter(named(other)) == listing.filter(named(other)) by {
                lemma_filter_last(listing, other);
                lemma_filter_last(listing.remove(at), other);
                assert(shorter.filter(named(other)) == listing.drop_last().filter(named(other)));
            }
        }
    }
}

/// Whether `a` comes no later than `b` in the order of names.
pub fn name_comes_first(a: &[u8], b: &[u8]) -> (first: bool)
    ensures
        first == name_le(a@, b@),
{
    let mut i: usize = 0;
    proof {
        assert(a@.skip(0) == a@);
        assert(b@.skip(0) == b@);
    }
    while i < a.len() && i < b.len()
        invariant
            i <= a.len(),
            i <= b.len(),
            name_le(a@, b@) == name_le(a@.skip(i as int), b@.skip(i as int)),
        decreases a.len() - i,
    {
        if a[i] != b[i] {
            return a[i] < b[i];
        }
        proof {
            assert(a@.skip(i as int).skip(1) == a@.skip(i + 1));
            assert(b@.skip(i as int).skip(1) == b@.skip(i + 1));
        }
        i += 1;
    }
    i == a.len()
}

/// How far a merge has come: `merged` holds the first `i` elements of `left`
/// and the first `j` elements of `right` in the order of their names, those
/// of `left` before those of `right` where the names are equal.
spec fn merged_so_far(
    merged: Seq<ElementView>,
    left: Seq<ElementView>,
    right: Seq<ElementView>,
    i: int,
    j: int,
) -> bool {
    &&& 0 <= i <= left.len()
    &&& 0 <= j <= right.len()
    &&& sorted_by_name(left)
    &&& sorted_by_name(right)
    &&& sorted_by_name(merged)
    &&& forall|name: Seq<u8>| #[trigger]
        merged.filter(named(name)) == left.take(i).filter(named(name)) + right.take(j).filter(
            named(name),
        )
    &&& i < left.len() ==> forall|k: int|
        0 <= k < j ==> !name_le(left[i].name, #[trigger] right[k].name)
    &&& merged.len() > 0 && i < left.len() ==> name_le(merged.last().name, left[i].name)
    &&& merged.len() > 0 && j < right.len() ==> name_le(merged.last().name, right[j].name)
}

/// An element that comes no earlier than the last one can be put at the end
/// of a sorted listing.
proof fn lemma_push_keeps_sorted(listing: Seq<ElementView>, element: ElementView)
    requires
        sorted_by_name(listing),
        listing.len() > 0 ==> name_le(listing.last().name, element.name),
    ensures
        sorted_by_name(listing.push(element)),
{
    let grown = listing.push(element);
    assert forall|p: int, q: int| 0 <= p < q < grown.len() implies name_le(
        grown[p].name,
        grown[q].name,
    ) by {
        if q == listing.len() && p < listing.len() - 1 {
            lemma_name_le_transitive(listing[p].name, listing.last().name, element.name);
        }
    }
}

/// A merge goes on with the next element of `left` where that element comes
/// no later than the next one of `right`, or `right` is used up.
proof fn lemma_merge_left(
    merged: Seq<ElementView>,
    left: Seq<ElementView>,
    right: Seq<ElementView>,
    i: int,
    j: int,
)
    requires
        merged_so_far(merged, left, right, i, j),
        i < left.len(),
        j < right.len() ==> name_le(left[i].name, right[j].name),
    ensures
        merged_so_far(merged.push(left[i]), left, right, i + 1, j),
{
    let next = left[i];
    let grown = merged.push(next);
    lemma_push_keeps_sorted(merged, next);
    assert(left.take(i + 1) == left.take(i).push(next));
    assert forall|name: Seq<u8>| #[trigger]
        grown.filter(named(name)) == left.take(i + 1).filter(named(name)) + right.take(j).filter(
            named(name),
        ) by {
        let pred = named(name);
        merged.lemma_filter_push(next, pred);
        left.take(i).lemma_filter_push(next, pred);
        assert(merged.filter(pred) == left.take(i).filter(pred) + right.take(j).filter(pred));
        if next.name == name {
            let behind = right.take(j);
            assert forall|k: int| 0 <= k < behind.len() implies !pred(#[trigger] behind[k]) by {
                lemma_name_le_reflexive(next.name);
                assert(!name_le(next.name, right[k].name));
            }
            assert(behind.all(|x: ElementView| !pred(x)));
            behind.lemma_all_neg_filter_empty(pred);
            assert(behind.filter(pred) == Seq::<ElementView>::empty());
            assert((left.take(i).filter(pred) + behind.filter(pred)).push(next) == left.take(
                i,
            ).filter(pred).push(next) + behind.filter(pred));
        }
    }
    if i + 1 < left.len() {
        assert forall|k: int| 0 <= k < j implies !name_le(
            left[i + 1].name,
            #[trigger] right[k].name,
        ) by {
            if name_le(left[i + 1].name, right[k].name) {
                lemma_name_le_transitive(next.name, left[i + 1].name, right[k].name);
            }
        }
    }
}

/// A merge goes on with the next element of `right` where that element comes
/// before the next one of `left`, or `left` is used up.
proof fn lemma_merge_right(
    merged: Seq<ElementView>,
    left: Seq<ElementView>,
    right: Seq<ElementView>,
    i: int,
    j: int,
)
    requires
        merged_so_far(merged, left, right, i, j),
        j < right.len(),
        i < left.len() ==> !name_le(left[i].name, right[j].name),
    ensures
        merged_so_far(merged.push(right[j]), left, right, i, j + 1),
{
    let next = right[j];
    let grown = merged.push(next);
    lemma_push_keeps_sorted(merged, next);
    assert(right.take(j + 1) == right.take(j).push(next));
    assert forall|name: Seq<u8>| #[trigger]
        grown.filter(named(name)) == left.take(i).filter(named(name)) + right.take(j + 1).filter(
            named(name),
        ) by {
        let pred = named(name);
        merged.lemma_filter_push(next, pred);
        right.take(j).lemma_filter_push(next, pred);
        assert(merged.filter(pred) == left.take(i).filter(pred) + right.take(j).filter(pred));
        if next.name == name {
            assert((left.take(i).filter(pred) + right.take(j).filter(pred)).push(next)
                == left.take(i).filter(pred) + right.take(j).filter(pred).push(next));
        }
    }
    if i < left.len() {
        lemma_name_le_total(left[i].name, next.name);
    }
}

/// The elements in the opposite order.
fn reversed(elements: Vec<FSElement>) -> (turned: Vec<FSElement>)
    ensures
        turned.len() == elements.len(),
        forall|k: int|
            0 <= k < turned.len() ==> (#[trigger] turned@[k]) == elements@[elements.len() - 1 - k],
{
    let mut rest = elements;
    let mut turned: Vec<FSElement> = Vec::new();
    loop
        invariant
            rest.len() + turned.len() == elements.len(),
            forall|k: int| 0 <= k < rest.len() ==> (#[trigger] rest@[k]) == elements@[k],
            forall|k: int|
                0 <= k < turned.len() ==> (#[trigger] turned@[k]) == elements@[elements.len() - 1
                    - k],
        ensures
            rest.len() == 0,
            rest.len() + turned.len() == elements.len(),
            forall|k: int|
                0 <= k < turned.len() ==> (#[trigger] turned@[k]) == elements@[elements.len() - 1
                    - k],
        decreases rest.len(),
    {
        match rest.pop() {
            Some(element) => turned.push(element),
            None => {
                break ;
            },
        }
    }
    turned
}

/// Merges two listings that are in the order of their names into one.
/// Elements of equal name stay in their order, those of `left` before those
/// of `right`.
fn merge_by_name(left: Vec<FSElement>, right: Vec<FSElement>) -> (merged: Vec<FSElement>)
    requires
        sorted_by_name(element_views(left@)),
        sorted_by_name(element_views(right@)),
    ensures
        sorted_by_name(element_views(merged@)),
        forall|name: Seq<u8>| #[trigger]
            element_views(merged@).filter(named(name)) == element_views(left@).filter(named(name))
                + element_views(right@).filter(named(name)),
{
    let ghost firsts = element_views(left@);
    let ghost seconds = element_views(right@);
    // Both listings are turned round, so that the next element of each is
    // its last and can be taken off
    let mut left_rest = reversed(left);
    let mut right_rest = reversed(right);
    let mut merged: Vec<FSElement> = Vec::new();
    proof {
        reveal(Seq::filter);
        let nothing = Seq::<ElementView>::empty();
        assert(firsts.take(0) == nothing);
        assert(seconds.take(0) == nothing);
        assert(element_views(merged@) == nothing);
        assert forall|name: Seq<u8>| #[trigger]
            element_views(merged@).filter(named(name)) == firsts.take(0).filter(named(name))
                + seconds.take(0).filter(named(name)) by {
            assert(nothing.filter(named(name)) + nothing.filter(named(name)) == nothing);
        }
    }
    loop
        invariant
            left_rest.len() <= firsts.len(),
            right_rest.len() <= seconds.len(),
            forall|k: int|
                0 <= k < left_rest.len() ==> (#[trigger] left_rest@[k])@ == firsts[firsts.len() - 1
                    - k],
            forall|k: int|
                0 <= k < right_rest.len() ==> (#[trigger] right_rest@[k])@ == seconds[seconds.len()
                    - 1 - k],
            merged_so_far(
                element_views(merged@),
                firsts,
                seconds,
                firsts.len() - left_rest.len(),
                seconds.len() - right_rest.len(),
            ),
        ensures
            left_rest.len() == 0,
            right_rest.len() == 0,
            merged_so_far(
                element_views(merged@),
                firsts,
                seconds,
                firsts.len() - left_rest.len(),
                seconds.len() - right_rest.len(),
            ),
        decreases left_rest.len() + right_rest.len(),
    {
        let ghost so_far = element_views(merged@);
        let ghost i = firsts.len() - left_rest.len();
        let ghost j = seconds.len() - right_rest.len();
        let from_left = if left_rest.len() == 0 {
            false
        } else if right_rest.len() == 0 {
            true
        } else {
            name_comes_first(
                left_rest[left_rest.len() - 1].name.as_slice(),
                right_rest[right_rest.len() - 1].name.as_slice(),
            )
        };
        if from_left {
            let ghost held = left_rest@;
            match left_rest.pop() {
                Some(element) => {
                    proof {
                        assert(element == held[held.len() - 1]);
                        lemma_merge_left(so_far, firsts, seconds, i, j);
                    }
                    merged.push(element);
                    assert(element_views(merged@) =~= so_far.push(firsts[i]));
                },
                None => vstd::pervasive::unreached(),
            }
        } else {
            let ghost held = right_rest@;
            match right_rest.pop() {
                Some(element) => {
                    proof {
                        assert(element == held[held.len() - 1]);
                        lemma_merge_right(so_far, firsts, seconds, i, j);
                    }
                    merged.push(element);
                    assert(element_views(merged@) =~= so_far.push(seconds[j]));
                },
                None => {
                    break ;
                },
            }
        }
    }
    proof {
        assert(firsts.take(firsts.len() as int) == firsts);
        assert(seconds.take(seconds.len() as int) == seconds);
    }
    merged
}

/// Puts a listing in the order of its elements' names. Elements of equal
/// name stay in the order in which they stand in `elements`.
pub fn sort_by_name(elements: Vec<FSElement>) -> (sorted: Vec<FSElement>)
    ensures
        is_sorted_listing(element_views(elements@), element_views(sorted@)),
    decreases elements.len(),
{
    if elements.len() <= 1 {
        return elements;
    }
    let ghost all = element_views(elements@);
    let mut left = elements;
    let half: usize = left.len() / 2;
    let right = left.split_off(half);
    let ghost first = element_views(left@);
    let ghost second = element_views(right@);
    assert(all == first + second);
    let left = sort_by_name(left);
    let right = sort_by_name(right);
    let merged = merge_by_name(left, right);
    proof {
        assert forall|name: Seq<u8>| #[trigger]
            element_views(merged@).filter(named(name)) == all.filter(named(name)) by {
            Seq::filter_distributes_over_add(first, second, named(name));
            assert(element_views(left@).filter(named(name)) == first.filter(named(name)));
            assert(element_views(right@).filter(named(name)) == second.filter(named(name)));
        }
    }
    merged
}

} // verus!
