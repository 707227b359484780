//! Sorting that keeps the order of what neither comes before the other.
use vstd::prelude::*;

verus! {

/// Things that have an order.
pub trait Ordered: Sized {
    /// Whether this comes before another.
    spec fn before(self, other: Self) -> bool;

    /// The order is strict, and what does not come before is passed on.
    proof fn before_is_an_order(a: Self, b: Self, c: Self)
        ensures
            !b.before(a) && !c.before(b) ==> !c.before(a),
            a.before(b) ==> !b.before(a),
    ;

    /// Whether this comes before another.
    fn goes_before(&self, other: &Self) -> (r: bool)
        ensures
            r == self.before(*other),
    ;
}

/// Whether `a` comes before `b`.
pub open spec fn comes_before<T: Ordered>(a: T, b: T) -> bool {
    a.before(b)
}

/// `sorted` with `e` in front of the first entry that does not come before it.
pub open spec fn placed<T: Ordered>(e: T, sorted: Seq<T>) -> Seq<T>
    decreases sorted.len(),
{
    if sorted.len() == 0 || !comes_before(sorted[0], e) {
        seq![e] + sorted
    } else {
        seq![sorted[0]] + placed(e, sorted.drop_first())
    }
}

/// The entries in order. Entries that neither comes before the
/// other keep their order.
pub open spec fn in_order<T: Ordered>(entries: Seq<T>) -> Seq<T>
    decreases entries.len(),
{
    if entries.len() == 0 {
        entries
    } else {
        placed(entries[0], in_order(entries.drop_first()))
    }
}

/// Whether no entry comes before an earlier one.
pub open spec fn ordered<T: Ordered>(entries: Seq<T>) -> bool {
    forall|i: int, j: int|
        0 <= i < j < entries.len() ==> !comes_before(
            #[trigger] entries[j],
            #[trigger] entries[i],
        )
}

proof fn lemma_placed<T: Ordered>(e: T, sorted: Seq<T>)
    requires
        ordered(sorted),
    ensures
        ordered(placed(e, sorted)),
        placed(e, sorted).len() == sorted.len() + 1,
        placed(e, sorted).to_multiset() == sorted.to_multiset().insert(e),
    decreases sorted.len(),
{
    broadcast use vstd::seq_lib::group_to_multiset_ensures;

    let p = placed(e, sorted);
    if sorted.len() == 0 || !comes_before(sorted[0], e) {
        assert forall|i: int, j: int| 0 <= i < j < p.len() implies !comes_before(
            #[trigger] p[j],
            #[trigger] p[i],
        ) by {
            if i == 0 {
                if j > 1 {
                    assert(!comes_before(sorted[j - 1], sorted[0]));
                }
                T::before_is_an_order(e, sorted[0], sorted[j - 1]);
            } else {
                assert(!comes_before(sorted[j - 1], sorted[i - 1]));
            }
        }
        vstd::seq_lib::lemma_multiset_commutative(seq![e], sorted);
        assert(seq![e].to_multiset() =~= vstd::multiset::Multiset::singleton(e)) by {
            assert(seq![e] =~= Seq::<T>::empty().push(e));
        }
        assert(p.to_multiset() =~= sorted.to_multiset().insert(e));
    } else {
        let rest = sorted.drop_first();
        assert forall|i: int, j: int| 0 <= i < j < rest.len() implies !comes_before(
            #[trigger] rest[j],
            #[trigger] rest[i],
        ) by {
            assert(!comes_before(sorted[j + 1], sorted[i + 1]));
        }
        lemma_placed(e, rest);
        let q = placed(e, rest);
        T::before_is_an_order(sorted[0], e, e);
        assert forall|i: int| 0 <= i < q.len() implies !comes_before(#[trigger] q[i], sorted[0]) by {
            assert(q.to_multiset().count(q[i]) > 0) by {
                assert(q.contains(q[i]));
            }
            if q[i] != e {
                assert(rest.to_multiset().count(q[i]) > 0);
                assert(rest.contains(q[i]));
                let k = choose|k: int| 0 <= k < rest.len() && rest[k] == q[i];
                assert(!comes_before(sorted[k + 1], sorted[0]));
            }
        }
        assert forall|i: int, j: int| 0 <= i < j < p.len() implies !comes_before(
            #[trigger] p[j],
            #[trigger] p[i],
        ) by {
            if i == 0 {
                assert(p[j] == q[j - 1]);
            } else {
                assert(!comes_before(q[j - 1], q[i - 1]));
            }
        }
        vstd::seq_lib::lemma_multiset_commutative(seq![sorted[0]], q);
        vstd::seq_lib::lemma_multiset_commutative(seq![sorted[0]], rest);
        assert(seq![sorted[0]] + rest =~= sorted);
        assert(p.to_multiset() =~= sorted.to_multiset().insert(e));
    }
}

/// The entries in order are the same entries, and in order.
pub proof fn sorting_keeps_the_entries<T: Ordered>(entries: Seq<T>)
    ensures
        ordered(in_order(entries)),
        in_order(entries).len() == entries.len(),
        in_order(entries).to_multiset() == entries.to_multiset(),
    decreases entries.len(),
{
    broadcast use vstd::seq_lib::group_to_multiset_ensures;

    if entries.len() > 0 {
        let rest = entries.drop_first();
        sorting_keeps_the_entries(rest);
        lemma_placed(entries[0], in_order(rest));
        vstd::seq_lib::lemma_multiset_commutative(seq![entries[0]], rest);
        assert(seq![entries[0]].to_multiset() =~= vstd::multiset::Multiset::singleton(entries[0]))
            by {
            assert(seq![entries[0]] =~= Seq::<T>::empty().push(entries[0]));
        }
        assert(seq![entries[0]] + rest =~= entries);
        assert(in_order(entries).to_multiset() =~= entries.to_multiset());
    }
}

/// Whether neither of two entries comes before the other.
pub open spec fn tied<T: Ordered>(a: T, b: T) -> bool {
    !comes_before(a, b) && !comes_before(b, a)
}

/// The entries that tie with one, in the order they have.
pub open spec fn ties<T: Ordered>(entries: Seq<T>, t: T) -> Seq<T> {
    entries.filter(|x: T| tied(x, t))
}

proof fn lemma_filter_front<T>(x: T, rest: Seq<T>, keep: spec_fn(T) -> bool)
    ensures
        (seq![x] + rest).filter(keep) == if keep(x) {
            seq![x] + rest.filter(keep)
        } else {
            rest.filter(keep)
        },
{
    assert(seq![x].filter(keep) =~= if keep(x) {
        seq![x]
    } else {
        Seq::empty()
    }) by {
        reveal(Seq::filter);
        assert(seq![x].drop_last() =~= Seq::<T>::empty());
        assert(Seq::<T>::empty().filter(keep) =~= Seq::<T>::empty());
    }
    Seq::filter_distributes_over_add(seq![x], rest, keep);
    assert(Seq::<T>::empty() + rest.filter(keep) =~= rest.filter(keep));
}

proof fn lemma_placed_in_front_of_ties<T: Ordered>(e: T, sorted: Seq<T>, t: T)
    ensures
        placed(e, sorted).filter(|x: T| tied(x, t)) == if tied(e, t) {
            seq![e] + sorted.filter(|x: T| tied(x, t))
        } else {
            sorted.filter(|x: T| tied(x, t))
        },
    decreases sorted.len(),
{
    let keep = |x: T| tied(x, t);
    if sorted.len() == 0 || !comes_before(sorted[0], e) {
        lemma_filter_front(e, sorted, keep);
    } else {
        let rest = sorted.drop_first();
        assert(seq![sorted[0]] + rest =~= sorted);
        lemma_filter_front(sorted[0], rest, keep);
        lemma_filter_front(sorted[0], placed(e, rest), keep);
        lemma_placed_in_front_of_ties(e, rest, t);
        if tied(e, t) {
            T::before_is_an_order(e, t, sorted[0]);
            T::before_is_an_order(sorted[0], t, e);
            assert(!tied(sorted[0], t));
        }
    }
}

/// Of entries that tie, the one that was first stays first: among those that tie with any
/// given entry, sorting changes nothing.
pub proof fn sorting_keeps_ties_as_they_were<T: Ordered>(entries: Seq<T>, t: T)
    ensures
        ties(in_order(entries), t) == ties(entries, t),
    decreases entries.len(),
{
    if entries.len() > 0 {
        let rest = entries.drop_first();
        sorting_keeps_ties_as_they_were(rest, t);
        lemma_placed_in_front_of_ties(entries[0], in_order(rest), t);
        lemma_filter_front(entries[0], rest, |x: T| tied(x, t));
        assert(seq![entries[0]] + rest =~= entries);
    }
}

/// Sorts entries. Entries that neither comes before the other keep their order.
pub fn stable_sort<T: Ordered>(entries: Vec<T>) -> (r: Vec<T>)
    ensures
        r@ == in_order(entries@),
        ordered(r@),
        r@.to_multiset() == entries@.to_multiset(),
        forall|t: T| #[trigger] ties(r@, t) == ties(entries@, t),
{
    proof {
        assert forall|t: T| #[trigger] ties(in_order(entries@), t) == ties(entries@, t) by {
            sorting_keeps_ties_as_they_were(entries@, t);
        }
    }
    let ghost all = entries@;
    let mut left = entries;
    let mut out: Vec<T> = Vec::new();
    assert(all.skip(all.len() as int) =~= Seq::<T>::empty());
    assert(all.take(all.len() as int) =~= all);
    loop
        invariant
            left@ == all.take(left@.len() as int),
            left@.len() <= all.len(),
            out@ == in_order(all.skip(left@.len() as int)),
        ensures
            out@ == in_order(all),
        decreases left@.len(),
    {
        let ghost n = left@.len() as int;
        match left.pop() {
            None => {
                assert(all.skip(0) =~= all);
                break;
            },
            Some(e) => {
                let mut at: usize = 0;
                let ghost sorted = out@;
                proof {
                    assert(e == all[n - 1]);
                    assert(all.skip(n - 1).drop_first() =~= all.skip(n));
                    assert(all.skip(n - 1)[0] == e);
                    assert(sorted.skip(0) =~= sorted);
                    assert(sorted.take(0) + placed(e, sorted.skip(0)) =~= placed(e, sorted));
                }
                while at < out.len() && out[at].goes_before(&e)
                    invariant
                        at <= out@.len(),
                        sorted == out@,
                        placed(e, sorted) == sorted.take(at as int) + placed(
                            e,
                            sorted.skip(at as int),
                        ),
                    decreases out@.len() - at,
                {
                    proof {
                        let s = sorted.skip(at as int);
                        assert(s.drop_first() =~= sorted.skip(at + 1));
                        assert(comes_before(s[0], e));
                        assert(sorted.take(at as int) + (seq![s[0]] + placed(
                            e,
                            sorted.skip(at + 1),
                        )) =~= sorted.take(at + 1) + placed(e, sorted.skip(at + 1)));
                    }
                    at = at + 1;
                }
                proof {
                    let s = sorted.skip(at as int);
                    assert(s.len() > 0 ==> !comes_before(s[0], e));
                    assert(placed(e, s) == seq![e] + s);
                    assert(sorted.take(at as int) + (seq![e] + s) =~= sorted.insert(at as int, e));
                }
                out.insert(at, e);
                assert(left@ =~= all.take(n - 1));
            },
        }
    }
    proof {
        sorting_keeps_the_entries(all);
    }
    out
}

} // verus!
