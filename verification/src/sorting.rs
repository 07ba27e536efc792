//! Order on names and sorting by it.
use crate::text::{chars_of, texts};
use vstd::prelude::*;

verus! {

/// Whether `a` comes before `b` or equals it when both are compared from
/// position `i` on, character by character; a name comes before every
/// name that it is a proper prefix of.
pub open spec fn ordered_from(a: Seq<char>, b: Seq<char>, i: int) -> bool
    decreases a.len() - i,
{
    if i < 0 || i >= a.len() {
        true
    } else if i >= b.len() {
        false
    } else if a[i] != b[i] {
        a[i] < b[i]
    } else {
        ordered_from(a, b, i + 1)
    }
}

/// Whether `a` comes before `b` or equals it.
pub open spec fn ordered(a: Seq<char>, b: Seq<char>) -> bool {
    ordered_from(a, b, 0)
}

/// `names`, which are in order, with `x` put behind the last name that
/// does not come behind it.
pub open spec fn inserted(names: Seq<Seq<char>>, x: Seq<char>) -> Seq<Seq<char>>
    decreases names.len(),
{
    if names.len() == 0 {
        seq![x]
    } else if ordered(names.last(), x) {
        names.push(x)
    } else {
        inserted(names.drop_last(), x).push(names.last())
    }
}

/// `names` in order.
pub open spec fn sorted(names: Seq<Seq<char>>) -> Seq<Seq<char>>
    decreases names.len(),
{
    if names.len() == 0 {
        Seq::empty()
    } else {
        inserted(sorted(names.drop_last()), names.last())
    }
}

/// Whether each of `names` comes before the next or equals it.
pub open spec fn in_order(names: Seq<Seq<char>>) -> bool {
    forall|i: int| 0 <= i < names.len() - 1 ==> ordered(#[trigger] names[i], names[i + 1])
}

/// Of two names one comes before the other or equals it.
pub proof fn lemma_order_is_total(a: Seq<char>, b: Seq<char>, i: int)
    requires
        0 <= i,
    ensures
        ordered_from(a, b, i) || ordered_from(b, a, i),
    decreases a.len() - i,
{
    if i < a.len() && i < b.len() && a[i] == b[i] {
        lemma_order_is_total(a, b, i + 1);
    }
}

/// Putting a name into names in order leaves them in order, one longer.
pub proof fn lemma_inserted_in_order(names: Seq<Seq<char>>, x: Seq<char>)
    requires
        in_order(names),
    ensures
        in_order(inserted(names, x)),
        inserted(names, x).len() == names.len() + 1,
        inserted(names, x).last() == x || (names.len() > 0 && inserted(names, x).last()
            == names.last() && ordered(x, names.last())),
        inserted(names, x).to_multiset() == names.to_multiset().insert(x),
    decreases names.len(),
{
    broadcast use vstd::seq_lib::group_to_multiset_ensures;

    if names.len() == 0 {
        assert(inserted(names, x) =~= Seq::<Seq<char>>::empty().push(x));
    } else if ordered(names.last(), x) {
        let r = names.push(x);
        assert forall|i: int| 0 <= i < r.len() - 1 implies ordered(#[trigger] r[i], r[i + 1]) by {
            if i < names.len() - 1 {
                assert(ordered(names[i], names[i + 1]));
            }
        }
    } else {
        let init = names.drop_last();
        assert forall|i: int| 0 <= i < init.len() - 1 implies ordered(
            #[trigger] init[i],
            init[i + 1],
        ) by {
            assert(ordered(names[i], names[i + 1]));
        }
        lemma_inserted_in_order(init, x);
        lemma_order_is_total(names.last(), x, 0);
        let mid = inserted(init, x);
        let r = mid.push(names.last());
        assert forall|i: int| 0 <= i < r.len() - 1 implies ordered(#[trigger] r[i], r[i + 1]) by {
            if i < mid.len() - 1 {
                assert(ordered(mid[i], mid[i + 1]));
            } else {
                if mid.last() != x {
                    assert(mid.last() == init.last());
                    assert(ordered(names[names.len() - 2], names[names.len() - 1]));
                }
            }
        }
        assert(names =~= init.push(names.last()));
        assert(r.to_multiset() =~= names.to_multiset().insert(x));
    }
}

/// Sorting gives the same names, each as often as before, in order.
pub proof fn law_sorted_is_in_order(names: Seq<Seq<char>>)
    ensures
        in_order(sorted(names)),
        sorted(names).len() == names.len(),
        sorted(names).to_multiset() == names.to_multiset(),
    decreases names.len(),
{
    broadcast use vstd::seq_lib::group_to_multiset_ensures;

    if names.len() > 0 {
        law_sorted_is_in_order(names.drop_last());
        lemma_inserted_in_order(sorted(names.drop_last()), names.last());
        assert(names =~= names.drop_last().push(names.last()));
    } else {
        assert(names =~= Seq::empty());
    }
}

/// Whether `a` comes before `b` or equals it.
pub fn comes_first(a: &str, b: &str) -> (r: bool)
    ensures
        r == ordered(a@, b@),
{
    let x = chars_of(a);
    let y = chars_of(b);
    let mut i: usize = 0;
    while i < x.len()
        invariant
            i <= x.len(),
            x@ == a@,
            y@ == b@,
            ordered_from(a@, b@, i as int) == ordered(a@, b@),
        decreases x.len() - i,
    {
        if i >= y.len() {
            return false;
        }
        if x[i] != y[i] {
            return x[i] < y[i];
        }
        i = i + 1;
    }
    true
}

/// Puts `name` into `names`, which are in order, at its place.
pub fn insert_name(names: &mut Vec<String>, name: String)
    ensures
        texts(final(names)@) == inserted(texts(old(names)@), name@),
{
    let mut k: usize = names.len();
    let ghost all = texts(names@);
    assert(all.skip(k as int) =~= Seq::empty());
    assert(all.take(k as int) =~= all);
    assert(inserted(all, name@) =~= inserted(all.take(k as int), name@) + all.skip(k as int));
    while k > 0 && !comes_first(names[k - 1].as_str(), name.as_str())
        invariant
            k <= names.len(),
            *names == *old(names),
            all == texts(names@),
            inserted(all, name@) == inserted(all.take(k as int), name@) + all.skip(k as int),
        decreases k,
    {
        proof {
            let head = all.take(k as int);
            assert(head.last() == names@[k - 1]@);
            assert(head.drop_last() =~= all.take(k - 1));
            assert(inserted(head, name@) == inserted(all.take(k - 1), name@).push(head.last()));
            assert(inserted(all.take(k - 1), name@).push(head.last()) + all.skip(k as int)
                =~= inserted(all.take(k - 1), name@) + all.skip(k - 1));
        }
        k = k - 1;
    }
    proof {
        let head = all.take(k as int);
        if k > 0 {
            assert(head.last() == names@[k - 1]@);
        }
        assert(inserted(head, name@) =~= head.push(name@));
    }
    names.insert(k, name);
    assert(texts(names@) =~= all.take(k as int).push(name@) + all.skip(k as int));
}

/// `names` in order.
pub fn sort_names(names: Vec<String>) -> (r: Vec<String>)
    ensures
        texts(r@) == sorted(texts(names@)),
{
    let mut out: Vec<String> = Vec::new();
    let mut i: usize = 0;
    assert(texts(names@).take(0) =~= Seq::empty());
    assert(texts(out@) =~= Seq::empty());
    while i < names.len()
        invariant
            i <= names.len(),
            texts(out@) == sorted(texts(names@).take(i as int)),
        decreases names.len() - i,
    {
        proof {
            let head = texts(names@).take(i + 1);
            assert(head.drop_last() =~= texts(names@).take(i as int));
            assert(head.last() == names@[i as int]@);
        }
        insert_name(&mut out, names[i].clone());
        i = i + 1;
    }
    assert(texts(names@).take(i as int) =~= texts(names@));
    out
}

} // verus!
