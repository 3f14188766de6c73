//! What the items of a list hold, counted without regard to the order of the items.

use vstd::multiset::Multiset;
use vstd::prelude::*;

verus! {

/// All that the items of a list hold, each thing as often as it is held.
pub open spec fn gathered<A, B>(items: Seq<A>, held: spec_fn(A) -> Seq<B>) -> Multiset<B>
    decreases items.len(),
{
    if items.len() == 0 {
        Multiset::empty()
    } else {
        gathered(items.drop_last(), held).add(held(items.last()).to_multiset())
    }
}

/// An item more adds what it holds.
pub proof fn gathered_with_one_more<A, B>(items: Seq<A>, item: A, held: spec_fn(A) -> Seq<B>)
    ensures
        gathered(items.push(item), held) == gathered(items, held).add(held(item).to_multiset()),
{
    assert(items.push(item).drop_last() == items);
}

/// Two lists one after the other hold what each of them holds.
pub proof fn gathered_from_both<A, B>(a: Seq<A>, b: Seq<A>, held: spec_fn(A) -> Seq<B>)
    ensures
        gathered(a + b, held) == gathered(a, held).add(gathered(b, held)),
    decreases b.len(),
{
    if b.len() == 0 {
        assert(a + b == a);
        assert(gathered(a, held).add(Multiset::empty()) =~= gathered(a, held));
    } else {
        gathered_from_both(a, b.drop_last(), held);
        assert((a + b).drop_last() == a + b.drop_last());
        let last = held(b.last()).to_multiset();
        assert(gathered(a, held).add(gathered(b.drop_last(), held)).add(last) =~= gathered(
            a,
            held,
        ).add(gathered(b.drop_last(), held).add(last)));
    }
}

proof fn gathered_without_one<A, B>(items: Seq<A>, i: int, held: spec_fn(A) -> Seq<B>)
    requires
        0 <= i < items.len(),
    ensures
        gathered(items, held) == gathered(items.remove(i), held).add(held(items[i]).to_multiset()),
    decreases items.len(),
{
    let n = items.len() - 1;
    if i == n {
        assert(items.remove(i) == items.drop_last());
    } else {
        let front = items.drop_last();
        gathered_without_one(front, i, held);
        assert(items.remove(i).drop_last() == front.remove(i));
        assert(items.remove(i).last() == items.last());
        let one = held(items[i]).to_multiset();
        let last = held(items.last()).to_multiset();
        assert(gathered(front.remove(i), held).add(one).add(last) =~= gathered(
            front.remove(i),
            held,
        ).add(last).add(one));
    }
}

/// The order of the items does not matter.
pub proof fn gathered_in_any_order<A, B>(a: Seq<A>, b: Seq<A>, held: spec_fn(A) -> Seq<B>)
    requires
        a.to_multiset() == b.to_multiset(),
    ensures
        gathered(a, held) == gathered(b, held),
    decreases a.len(),
{
    broadcast use vstd::seq_lib::group_to_multiset_ensures;

    assert(a.len() == a.to_multiset().len());
    assert(b.len() == b.to_multiset().len());
    if a.len() > 0 {
        let n = a.len() - 1;
        let x = a[n];
        assert(a.contains(x));
        assert(b.to_multiset().count(x) > 0);
        assert(b.contains(x));
        let i = choose|i: int| 0 <= i < b.len() && b[i] == x;
        assert(a.remove(n) == a.drop_last());
        assert(a.remove(n).to_multiset() == a.to_multiset().remove(x));
        assert(b.remove(i).to_multiset() == b.to_multiset().remove(x));
        gathered_in_any_order(a.drop_last(), b.remove(i), held);
        gathered_without_one(b, i, held);
    }
}

/// Lists whose items hold the same, one by one, hold the same.
pub proof fn gathered_alike<A, B, C>(
    a: Seq<A>,
    in_a: spec_fn(A) -> Seq<B>,
    c: Seq<C>,
    in_c: spec_fn(C) -> Seq<B>,
)
    requires
        a.len() == c.len(),
        forall|i: int| 0 <= i < a.len() ==> in_a(#[trigger] a[i]) == in_c(c[i]),
    ensures
        gathered(a, in_a) == gathered(c, in_c),
    decreases a.len(),
{
    if a.len() > 0 {
        let n = a.len() - 1;
        let front = a.drop_last();
        assert forall|i: int| 0 <= i < front.len() implies in_a(#[trigger] front[i]) == in_c(
            c.drop_last()[i],
        ) by {
            assert(in_a(a[i]) == in_c(c[i]));
        }
        gathered_alike(front, in_a, c.drop_last(), in_c);
        assert(in_a(a[n]) == in_c(c[n]));
    }
}

}
