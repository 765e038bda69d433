//! Facts about what filters leave of a list.

use vstd::prelude::*;

verus! {

/// What a filter leaves of a list.
pub open spec fn kept<A>(s: Seq<A>, keep: spec_fn(A) -> bool) -> Seq<A> {
    s.filter(keep)
}

/// A filter that keeps nothing of a list.
pub proof fn lemma_filter_none<A>(s: Seq<A>, keep: spec_fn(A) -> bool)
    requires
        forall|i: int| 0 <= i < s.len() ==> !keep(#[trigger] s[i]),
    ensures
        s.filter(keep) == Seq::<A>::empty(),
    decreases s.len(),
{
    reveal(Seq::filter);
    if s.len() > 0 {
        let t = s.drop_last();
        assert forall|i: int| 0 <= i < t.len() implies !keep(#[trigger] t[i]) by {
            assert(t[i] == s[i]);
        }
        lemma_filter_none(t, keep);
        assert(!keep(s[s.len() - 1]));
    }
}

/// A filter that keeps all of a list.
pub proof fn lemma_filter_all<A>(s: Seq<A>, keep: spec_fn(A) -> bool)
    requires
        forall|i: int| 0 <= i < s.len() ==> keep(#[trigger] s[i]),
    ensures
        s.filter(keep) == s,
    decreases s.len(),
{
    reveal(Seq::filter);
    if s.len() > 0 {
        let t = s.drop_last();
        assert forall|i: int| 0 <= i < t.len() implies keep(#[trigger] t[i]) by {
            assert(t[i] == s[i]);
        }
        lemma_filter_all(t, keep);
        assert(keep(s[s.len() - 1]));
        assert(s =~= t.push(s.last()));
    }
}

/// What is left after two filters, one after the other, is what both keep.
pub proof fn lemma_filter_filter<A>(
    s: Seq<A>,
    first: spec_fn(A) -> bool,
    then: spec_fn(A) -> bool,
)
    ensures
        s.filter(first).filter(then) == s.filter(|e: A| first(e) && then(e)),
    decreases s.len(),
{
    let joint = |e: A| first(e) && then(e);
    reveal(Seq::filter);
    if s.len() > 0 {
        lemma_filter_filter(s.drop_last(), first, then);
        if first(s.last()) {
            s.drop_last().filter(first).lemma_filter_push(s.last(), then);
        }
    }
}

/// A filter that goes by what a function does not change leaves the same of a list
/// before and after the function.
pub proof fn lemma_filter_map<A>(s: Seq<A>, f: spec_fn(A) -> A, keep: spec_fn(A) -> bool)
    requires
        forall|x: A| keep(#[trigger] f(x)) == keep(x),
    ensures
        s.map_values(f).filter(keep) == s.filter(keep).map_values(f),
    decreases s.len(),
{
    reveal(Seq::filter);
    if s.len() > 0 {
        lemma_filter_map(s.drop_last(), f, keep);
        assert(s.map_values(f).drop_last() =~= s.drop_last().map_values(f));
        assert(s.map_values(f).last() == f(s.last()));
    }
    assert(s.map_values(f).filter(keep) =~= s.filter(keep).map_values(f));
}

/// What a filter leaves comes from the list.
pub proof fn lemma_filter_from<A>(s: Seq<A>, keep: spec_fn(A) -> bool)
    ensures
        forall|i: int| 0 <= i < s.filter(keep).len() ==> s.contains(#[trigger] s.filter(keep)[i]),
    decreases s.len(),
{
    reveal(Seq::filter);
    if s.len() > 0 {
        let t = s.drop_last();
        lemma_filter_from(t, keep);
        assert forall|i: int| 0 <= i < s.filter(keep).len() implies s.contains(
            #[trigger] s.filter(keep)[i],
        ) by {
            if i < t.filter(keep).len() {
                assert(s.filter(keep)[i] == t.filter(keep)[i]);
                let k = choose|k: int| 0 <= k < t.len() && t[k] == t.filter(keep)[i];
                assert(s[k] == t[k]);
            } else {
                assert(s[s.len() - 1] == s.last());
            }
        }
    }
}

/// A filter leaves an item of a list exactly where it keeps it.
pub proof fn lemma_filter_contains<A>(s: Seq<A>, keep: spec_fn(A) -> bool, x: A)
    ensures
        s.filter(keep).contains(x) <==> s.contains(x) && keep(x),
    decreases s.len(),
{
    reveal(Seq::filter);
    if s.len() > 0 {
        let t = s.drop_last();
        let (a, b) = (t.filter(keep), s.filter(keep));
        lemma_filter_contains(t, keep, x);
        assert(s =~= t.push(s.last()));
        if s.contains(x) && keep(x) {
            let k = choose|k: int| 0 <= k < s.len() && s[k] == x;
            if k < t.len() {
                assert(t[k] == x);
                let j = choose|j: int| 0 <= j < a.len() && a[j] == x;
                assert(b[j] == x);
            } else {
                assert(b[b.len() - 1] == x);
            }
        }
        if b.contains(x) {
            let j = choose|j: int| 0 <= j < b.len() && b[j] == x;
            if j < a.len() {
                assert(a[j] == x);
                let k = choose|k: int| 0 <= k < t.len() && t[k] == x;
                assert(s[k] == x);
            } else {
                assert(s[s.len() - 1] == x);
            }
        }
    }
}

/// A filter leaves no more than there is.
pub proof fn lemma_filter_shrinks<A>(s: Seq<A>, keep: spec_fn(A) -> bool)
    ensures
        s.filter(keep).len() <= s.len(),
    decreases s.len(),
{
    reveal(Seq::filter);
    if s.len() > 0 {
        lemma_filter_shrinks(s.drop_last(), keep);
    }
}

/// A filter leaves as many of two lists of the same items, in whatever order they are.
pub proof fn lemma_filter_len<A>(a: Seq<A>, b: Seq<A>, keep: spec_fn(A) -> bool)
    requires
        a.to_multiset() == b.to_multiset(),
    ensures
        a.filter(keep).len() == b.filter(keep).len(),
    decreases a.len(),
{
    vstd::seq_lib::to_multiset_len(a);
    vstd::seq_lib::to_multiset_len(b);
    if a.len() == 0 {
        assert(a =~= b);
    } else {
        let x = a.last();
        let front = a.drop_last();
        assert(a =~= front.push(x));
        vstd::seq_lib::to_multiset_build(front, x);
        vstd::seq_lib::to_multiset_contains(a, x);
        vstd::seq_lib::to_multiset_contains(b, x);
        assert(a.contains(x)) by {
            assert(a[a.len() - 1] == x);
        }
        let i = choose|i: int| 0 <= i < b.len() && b[i] == x;
        let rest = b.take(i) + b.skip(i + 1);
        assert(rest.insert(i, x) =~= b);
        vstd::seq_lib::to_multiset_insert(rest, i, x);
        assert(front.to_multiset() =~= a.to_multiset().remove(x));
        assert(rest.to_multiset() =~= b.to_multiset().remove(x));
        lemma_filter_len(front, rest, keep);
        front.lemma_filter_push(x, keep);
        assert(b =~= (b.take(i) + seq![x]) + b.skip(i + 1));
        Seq::filter_distributes_over_add(b.take(i) + seq![x], b.skip(i + 1), keep);
        assert(b.take(i) + seq![x] =~= b.take(i).push(x));
        b.take(i).lemma_filter_push(x, keep);
        Seq::filter_distributes_over_add(b.take(i), b.skip(i + 1), keep);
    }
}

/// What is kept of a list is what the filter keeps of it, each as often as it stands there
/// and in the same order: a list is kept in turn with another, and an item is kept or not.
pub proof fn law_kept_in_turn<A>(a: Seq<A>, b: Seq<A>, x: A, keep: spec_fn(A) -> bool)
    ensures
        kept(a + b, keep) == kept(a, keep) + kept(b, keep),
        keep(x) ==> kept(seq![x], keep) == seq![x],
        !keep(x) ==> kept(seq![x], keep) == Seq::<A>::empty(),
        kept(a, keep).contains(x) <==> a.contains(x) && keep(x),
{
    Seq::filter_distributes_over_add(a, b, keep);
    lemma_filter_contains(a, keep, x);
    let none = Seq::<A>::empty();
    none.lemma_filter_push(x, keep);
    assert(none.push(x) =~= seq![x]);
    assert(none.filter(keep) =~= none) by {
        reveal(Seq::filter);
    }
}

} // verus!
