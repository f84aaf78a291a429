//! Putting things in order without losing any: a stable sort, and what it keeps.
use vstd::prelude::*;

use crate::text::chars_of;

verus! {

/// Something that comes before or after another of its kind.
pub trait Ordered: Sized {
    /// `self` comes strictly before `other`.
    spec fn before(&self, other: &Self) -> bool;
}

/// [`Ordered`], and able to say so.
pub trait Ranked: Ordered {
    /// Whether `self` comes strictly before `other`.
    fn is_before(&self, other: &Self) -> (yes: bool)
        ensures
            yes == self.before(other),
    ;
}

impl Ordered for i64 {
    open spec fn before(&self, other: &Self) -> bool {
        *self < *other
    }
}

impl Ranked for i64 {
    fn is_before(&self, other: &Self) -> (yes: bool) {
        *self < *other
    }
}

/// How many of `list` stay ahead of `item`: it goes in behind everything it
/// does not come before, counting from the back.
pub open spec fn slot<T: Ordered>(list: Seq<T>, item: T) -> nat
    decreases list.len(),
{
    if list.len() == 0 || !item.before(&list.last()) {
        list.len()
    } else {
        slot(list.drop_last(), item)
    }
}

/// `items` in order, ties left as they stood.
pub open spec fn stably<T: Ordered>(items: Seq<T>) -> Seq<T>
    decreases items.len(),
{
    if items.len() == 0 {
        Seq::empty()
    } else {
        let rest = stably(items.drop_last());
        rest.insert(slot(rest, items.last()) as int, items.last())
    }
}

/// An item has somewhere to go.
pub proof fn slot_is_within<T: Ordered>(list: Seq<T>, item: T)
    ensures
        slot(list, item) <= list.len(),
        forall|i: int| slot(list, item) <= i < list.len() ==> item.before(&#[trigger] list[i]),
        slot(list, item) > 0 ==> !item.before(&list[slot(list, item) - 1]),
    decreases list.len(),
{
    if list.len() > 0 && item.before(&list.last()) {
        slot_is_within(list.drop_last(), item);
        assert forall|i: int| slot(list, item) <= i < list.len() implies item.before(
            &#[trigger] list[i],
        ) by {
            if i < list.len() - 1 {
                assert(list.drop_last()[i] == list[i]);
            }
        }
    }
}

/// Put `items` in order, ties left as they stood.
pub fn sort<T: Ranked>(items: Vec<T>) -> (out: Vec<T>)
    ensures
        out@ == stably(items@),
{
    let ghost all = items@;
    let mut out: Vec<T> = Vec::new();
    for item in iter: items
        invariant
            iter.seq() == all,
            out@ == stably(all.take(iter.index() as int)),
    {
        let ghost was = out@;
        proof {
            let upto = all.take(iter.index() as int + 1);
            assert(upto.drop_last() =~= all.take(iter.index() as int));
            assert(upto.last() == item);
            assert(was.take(was.len() as int) =~= was);
        }
        let mut at: usize = out.len();
        while at > 0 && item.is_before(&out[at - 1])
            invariant
                at <= out@.len(),
                out@ == was,
                slot(was, item) == slot(was.take(at as int), item),
            decreases at,
        {
            assert(was.take(at as int).drop_last() =~= was.take(at - 1));
            at -= 1;
        }
        out.insert(at, item);
    }
    assert(all.take(all.len() as int) =~= all);
    out
}

/// Sorting loses nothing and invents nothing.
pub proof fn sorting_keeps_everything<T: Ordered>(items: Seq<T>)
    ensures
        stably(items).to_multiset() == items.to_multiset(),
        stably(items).len() == items.len(),
    decreases items.len(),
{
    broadcast use vstd::seq_lib::group_to_multiset_ensures;

    if items.len() == 0 {
        assert(stably(items) =~= items);
    } else {
        let rest = stably(items.drop_last());
        let last = items.last();
        sorting_keeps_everything(items.drop_last());
        slot_is_within(rest, last);
        let at = slot(rest, last) as int;
        assert(rest.insert(at, last).to_multiset() =~= rest.to_multiset().insert(last)) by {
            vstd::seq_lib::to_multiset_insert(rest, at, last);
        }
        assert(items =~= items.drop_last().push(last));
        assert(items.to_multiset() =~= items.drop_last().to_multiset().insert(last));
    }
}

/// An order in which nothing comes both before and after another, and not
/// coming after is carried along.
pub open spec fn weak_order<T: Ordered>() -> bool {
    &&& forall|a: T, b: T| #[trigger] a.before(&b) ==> !b.before(&a)
    &&& forall|a: T, b: T, c: T|
        !#[trigger] b.before(&a) && !#[trigger] c.before(&b) ==> !c.before(&a)
}

/// Nothing sorted comes before anything that stands ahead of it.
pub proof fn sorting_orders<T: Ordered>(items: Seq<T>)
    requires
        weak_order::<T>(),
    ensures
        forall|i: int, j: int|
            #![trigger stably(items)[i], stably(items)[j]]
            0 <= i < j < stably(items).len() ==> !stably(items)[j].before(&stably(items)[i]),
    decreases items.len(),
{
    if items.len() > 0 {
        let rest = stably(items.drop_last());
        let last = items.last();
        sorting_orders(items.drop_last());
        slot_is_within(rest, last);
        let at = slot(rest, last) as int;
        let out = stably(items);
        assert forall|i: int, j: int|
            #![trigger out[i], out[j]]
            0 <= i < j < out.len() implies !out[j].before(&out[i]) by {
            let a = if i < at { i } else { i - 1 };
            let b = if j < at { j } else { j - 1 };
            if i == at {
                assert(out[j] == rest[b]);
                assert(last.before(&rest[b]));
            } else if j == at {
                assert(out[i] == rest[a]);
                assert(!last.before(&rest[at - 1]));
                if a < at - 1 {
                    assert(!rest[at - 1].before(&rest[a]));
                }
            } else {
                assert(out[i] == rest[a]);
                assert(out[j] == rest[b]);
            }
        }
    }
}

/// Sorting and then looking at the items is looking at them and then sorting,
/// where what is looked at decides the order.
pub proof fn sorting_views<A: Ordered, B: Ordered>(items: Seq<A>, look: spec_fn(A) -> B)
    requires
        forall|a: A, b: A| #[trigger] a.before(&b) == look(a).before(&look(b)),
    ensures
        stably(items.map_values(look)) == stably(items).map_values(look),
    decreases items.len(),
{
    let seen = items.map_values(look);
    if items.len() == 0 {
        assert(stably(seen) =~= stably(items).map_values(look));
    } else {
        let rest = stably(items.drop_last());
        let last = items.last();
        sorting_views(items.drop_last(), look);
        assert(seen.drop_last() =~= items.drop_last().map_values(look));
        slot_of_views(rest, last, look);
        slot_is_within(rest, last);
        let at = slot(rest, last) as int;
        assert(rest.insert(at, last).map_values(look) =~= rest.map_values(look).insert(
            at,
            look(last),
        ));
    }
}

proof fn slot_of_views<A: Ordered, B: Ordered>(list: Seq<A>, item: A, look: spec_fn(A) -> B)
    requires
        forall|a: A, b: A| #[trigger] a.before(&b) == look(a).before(&look(b)),
    ensures
        slot(list.map_values(look), look(item)) == slot(list, item),
    decreases list.len(),
{
    if list.len() > 0 {
        assert(list.map_values(look).drop_last() =~= list.drop_last().map_values(look));
        assert(item.before(&list.last()) == look(item).before(&look(list.last())));
        slot_of_views(list.drop_last(), item, look);
    }
}

/// The order of two texts: the first character in which they differ decides,
/// and a text comes before its own continuations.
pub open spec fn text_before(a: Seq<char>, b: Seq<char>) -> bool
    decreases a.len(),
{
    if b.len() == 0 {
        false
    } else if a.len() == 0 {
        true
    } else if a[0] != b[0] {
        a[0] < b[0]
    } else {
        text_before(a.drop_first(), b.drop_first())
    }
}

/// Of two texts at most one comes before the other, and if neither does they
/// are the same text.
pub proof fn text_order_is_total(a: Seq<char>, b: Seq<char>)
    ensures
        text_before(a, b) ==> !text_before(b, a),
        !text_before(a, b) && !text_before(b, a) ==> a == b,
        !text_before(a, a),
    decreases a.len(),
{
    if a.len() > 0 {
        text_order_is_total(a.drop_first(), a.drop_first());
    }
    if a.len() > 0 && b.len() > 0 && a[0] == b[0] {
        text_order_is_total(a.drop_first(), b.drop_first());
        if a.drop_first() == b.drop_first() {
            assert(a =~= seq![a[0]] + a.drop_first());
            assert(b =~= seq![b[0]] + b.drop_first());
        }
    }
    if a.len() == 0 && b.len() == 0 {
        assert(a =~= b);
    }
}

/// The order of texts carries along.
pub proof fn text_order_carries(a: Seq<char>, b: Seq<char>, c: Seq<char>)
    ensures
        !text_before(b, a) && !text_before(c, b) ==> !text_before(c, a),
    decreases a.len(),
{
    if a.len() > 0 && b.len() > 0 && c.len() > 0 && a[0] == b[0] && b[0] == c[0] {
        text_order_carries(a.drop_first(), b.drop_first(), c.drop_first());
    }
}

/// Whether one text comes before another.
pub fn is_text_before(a: &str, b: &str) -> (yes: bool)
    ensures
        yes == text_before(a@, b@),
{
    let left = chars_of(a);
    let right = chars_of(b);
    let mut at: usize = 0;
    assert(left@.skip(0) =~= left@);
    assert(right@.skip(0) =~= right@);
    while at < left.len() && at < right.len() && left[at] == right[at]
        invariant
            left@ == a@,
            right@ == b@,
            at <= left@.len(),
            at <= right@.len(),
            text_before(a@, b@) == text_before(left@.skip(at as int), right@.skip(at as int)),
        decreases left@.len() - at,
    {
        assert(left@.skip(at as int).drop_first() =~= left@.skip(at + 1));
        assert(right@.skip(at as int).drop_first() =~= right@.skip(at + 1));
        at += 1;
    }
    if at >= right.len() {
        false
    } else if at >= left.len() {
        true
    } else {
        left[at] < right[at]
    }
}

impl Ordered for String {
    open spec fn before(&self, other: &Self) -> bool {
        text_before(self@, other@)
    }
}

impl Ranked for String {
    fn is_before(&self, other: &Self) -> (yes: bool) {
        is_text_before(self.as_str(), other.as_str())
    }
}

/// Sorting neither loses nor adds anything.
pub proof fn sorting_keeps_each<T: Ordered>(items: Seq<T>, item: T)
    ensures
        stably(items).contains(item) <==> items.contains(item),
{
    broadcast use vstd::seq_lib::group_to_multiset_ensures;

    sorting_keeps_everything(items);
    assert(stably(items).to_multiset().contains(item) == items.to_multiset().contains(item));
}

/// Coming before is carried along.
pub proof fn text_order_is_strict(a: Seq<char>, b: Seq<char>, c: Seq<char>)
    ensures
        text_before(a, b) && text_before(b, c) ==> text_before(a, c),
        text_before(a, b) && !text_before(c, b) ==> text_before(a, c),
        !text_before(b, a) && text_before(b, c) ==> text_before(a, c),
{
    text_order_is_total(a, b);
    text_order_is_total(b, c);
    text_order_is_total(a, c);
    text_order_carries(a, b, c);
    text_order_carries(b, c, a);
    text_order_carries(c, a, b);
}

} // verus!
