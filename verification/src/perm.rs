//! Facts about sequences that hold the same elements in another order.
use vstd::prelude::*;

verus! {

broadcast use vstd::seq_lib::group_seq_properties;

/// The elements of `s` that satisfy `p`, each transformed by `f`, in order.
pub open spec fn filter_map_seq<A, B>(s: Seq<A>, p: spec_fn(A) -> bool, f: spec_fn(A) -> B) -> Seq<B> {
    s.filter(p).map_values(f)
}

/// Filtering and mapping a sequence extended by one element.
pub proof fn lemma_filter_map_push<A, B>(s: Seq<A>, x: A, p: spec_fn(A) -> bool, f: spec_fn(A) -> B)
    ensures
        filter_map_seq(s.push(x), p, f) == if p(x) {
            filter_map_seq(s, p, f).push(f(x))
        } else {
            filter_map_seq(s, p, f)
        },
{
    s.lemma_filter_push(x, p);
    if p(x) {
        s.filter(p).lemma_push_map_commute(f, x);
    }
}

/// Removing one element from a sequence removes its image, if any, from the
/// filtered and mapped multiset.
pub proof fn lemma_filter_map_remove<A, B>(s: Seq<A>, i: int, p: spec_fn(A) -> bool, f: spec_fn(A) -> B)
    requires
        0 <= i < s.len(),
    ensures
        filter_map_seq(s, p, f).to_multiset() == if p(s[i]) {
            filter_map_seq(s.remove(i), p, f).to_multiset().insert(f(s[i]))
        } else {
            filter_map_seq(s.remove(i), p, f).to_multiset()
        },
    decreases s.len(),
{
    let last = s.last();
    let init = s.drop_last();
    assert(s == init.push(last));
    lemma_filter_map_push(init, last, p, f);
    if i == s.len() - 1 {
        assert(s.remove(i) =~= init);
        filter_map_seq(init, p, f).to_multiset_ensures();
    } else {
        lemma_filter_map_remove(init, i, p, f);
        assert(s.remove(i) =~= init.remove(i).push(last));
        lemma_filter_map_push(init.remove(i), last, p, f);
        filter_map_seq(init, p, f).to_multiset_ensures();
        filter_map_seq(init.remove(i), p, f).to_multiset_ensures();
        if p(s[i]) && p(last) {
            assert(filter_map_seq(init.remove(i), p, f).to_multiset().insert(f(s[i])).insert(f(last))
                =~= filter_map_seq(init.remove(i), p, f).to_multiset().insert(f(last)).insert(f(s[i])));
        }
    }
}

/// Sequences with the same elements keep the same elements after filtering
/// and mapping.
pub proof fn lemma_filter_map_perm<A, B>(s1: Seq<A>, s2: Seq<A>, p: spec_fn(A) -> bool, f: spec_fn(A) -> B)
    requires
        s1.to_multiset() == s2.to_multiset(),
    ensures
        filter_map_seq(s1, p, f).to_multiset() == filter_map_seq(s2, p, f).to_multiset(),
    decreases s1.len(),
{
    s1.to_multiset_ensures();
    s2.to_multiset_ensures();
    if s1.len() == 0 {
        assert(s2.len() == 0);
        assert(s1 =~= s2);
    } else {
        let x = s1.last();
        let init = s1.drop_last();
        assert(s1 == init.push(x));
        assert(s1.to_multiset().count(x) > 0);
        assert(s2.contains(x));
        let i = choose|i: int| 0 <= i < s2.len() && s2[i] == x;
        init.to_multiset_ensures();
        assert(init.to_multiset() =~= s1.to_multiset().remove(x));
        assert(s2.remove(i).to_multiset() =~= s2.to_multiset().remove(x));
        lemma_filter_map_perm(init, s2.remove(i), p, f);
        lemma_filter_map_push(init, x, p, f);
        lemma_filter_map_remove(s2, i, p, f);
        filter_map_seq(init, p, f).to_multiset_ensures();
    }
}

/// An element occurs in a sequence at most as often as the sequence is long.
pub proof fn lemma_count_le_len<A>(s: Seq<A>, x: A)
    ensures
        s.to_multiset().count(x) <= s.len(),
    decreases s.len(),
{
    s.to_multiset_ensures();
    if s.len() > 0 {
        let init = s.drop_last();
        assert(s == init.push(s.last()));
        init.to_multiset_ensures();
        lemma_count_le_len(init, x);
    }
}

/// Filtering and mapping never makes a sequence longer.
pub proof fn lemma_filter_map_len<A, B>(s: Seq<A>, p: spec_fn(A) -> bool, f: spec_fn(A) -> B)
    ensures
        filter_map_seq(s, p, f).len() <= s.len(),
    decreases s.len(),
{
    if s.len() > 0 {
        let init = s.drop_last();
        assert(s == init.push(s.last()));
        lemma_filter_map_push(init, s.last(), p, f);
        lemma_filter_map_len(init, p, f);
    }
}

} // verus!
