//! The in-degrees and out-degrees of the objects of a heap dump, and how
//! often each degree occurs.
use vstd::prelude::*;
use std::collections::{HashMap, HashSet};
use crate::heapdump::{HeapDump, HeapObject, NormalEdge};

verus! {

broadcast use vstd::std_specs::hash::group_hash_axioms;

/// The non-null references among `edges`, in order.
pub open spec fn refs_in(edges: Seq<NormalEdge>) -> Seq<u64>
    decreases edges.len(),
{
    if edges.len() == 0 {
        Seq::empty()
    } else {
        let r = edges.last().objref;
        if r != 0 {
            refs_in(edges.drop_last()).push(r)
        } else {
            refs_in(edges.drop_last())
        }
    }
}

/// The non-null references of the objects, object by object.
pub open spec fn refs_of(objs: Seq<HeapObject>) -> Seq<u64>
    decreases objs.len(),
{
    if objs.len() == 0 {
        Seq::empty()
    } else {
        refs_of(objs.drop_last()) + refs_in(objs.last().edges@)
    }
}

/// How often `t` occurs in `s`.
pub open spec fn occurrences(s: Seq<u64>, t: u64) -> nat
    decreases s.len(),
{
    if s.len() == 0 {
        0
    } else {
        occurrences(s.drop_last(), t) + if s.last() == t {
            1nat
        } else {
            0nat
        }
    }
}

/// The in-degree of `t`: how many references to it the objects hold.
pub open spec fn in_degree(objs: Seq<HeapObject>, t: u64) -> nat {
    occurrences(refs_of(objs), t)
}

/// The objects of `s` with in-degree `d`.
pub open spec fn with_in_degree(objs: Seq<HeapObject>, s: Set<u64>, d: nat) -> Set<u64> {
    s.filter(|t: u64| in_degree(objs, t) == d)
}

/// How many referenced objects have in-degree `d`.
pub open spec fn in_degree_frequency(objs: Seq<HeapObject>, d: nat) -> nat {
    with_in_degree(objs, refs_of(objs).to_set(), d).len()
}

proof fn lemma_with_insert(objs: Seq<HeapObject>, s: Set<u64>, t: u64, d: nat)
    ensures
        with_in_degree(objs, s.insert(t), d) == if in_degree(objs, t) == d {
            with_in_degree(objs, s, d).insert(t)
        } else {
            with_in_degree(objs, s, d)
        },
{
    if in_degree(objs, t) == d {
        assert(with_in_degree(objs, s.insert(t), d) =~= with_in_degree(objs, s, d).insert(t));
    } else {
        assert(with_in_degree(objs, s.insert(t), d) =~= with_in_degree(objs, s, d));
    }
}

/// The out-degree of an object: its non-null references.
pub open spec fn out_degree(obj: HeapObject) -> nat {
    refs_in(obj.edges@).len()
}

/// How many of the first `n` objects have out-degree `d`.
pub open spec fn out_count(objs: Seq<HeapObject>, n: int, d: nat) -> nat
    decreases n,
{
    if n <= 0 {
        0
    } else {
        out_count(objs, n - 1, d) + if out_degree(objs[n - 1]) == d {
            1nat
        } else {
            0nat
        }
    }
}

/// How many objects have out-degree `d`.
pub open spec fn out_degree_frequency(objs: Seq<HeapObject>, d: nat) -> nat {
    out_count(objs, objs.len() as int, d)
}

proof fn lemma_occurrences_concat(a: Seq<u64>, b: Seq<u64>, t: u64)
    ensures
        occurrences(a + b, t) == occurrences(a, t) + occurrences(b, t),
    decreases b.len(),
{
    if b.len() == 0 {
        assert(a + b =~= a);
    } else {
        lemma_occurrences_concat(a, b.drop_last(), t);
        assert((a + b).drop_last() =~= a + b.drop_last());
    }
}

proof fn lemma_occurrences_bound(s: Seq<u64>, t: u64)
    ensures
        occurrences(s, t) <= s.len(),
        occurrences(s, t) > 0 <==> s.contains(t),
    decreases s.len(),
{
    if s.len() > 0 {
        lemma_occurrences_bound(s.drop_last(), t);
        if s.drop_last().contains(t) {
            let i = choose|i: int| 0 <= i < s.drop_last().len() && s.drop_last()[i] == t;
            assert(s[i] == t);
        }
        if s.contains(t) && s.last() != t {
            let i = choose|i: int| 0 <= i < s.len() && s[i] == t;
            assert(s.drop_last()[i] == t);
        }
    }
}

/// The edges of `edges` that refer to an object.
pub open spec fn non_null(edges: Seq<NormalEdge>) -> Seq<NormalEdge> {
    edges.filter(|e: NormalEdge| e.objref != 0)
}

/// How many edges of the objects `objs` refer to `t`.
pub open spec fn edges_to(objs: Seq<HeapObject>, t: u64) -> nat
    decreases objs.len(),
{
    if objs.len() == 0 {
        0
    } else {
        edges_to(objs.drop_last(), t) + objs.last().edges@.filter(|e: NormalEdge| e.objref == t).len()
    }
}

proof fn lemma_refs_in_counts(edges: Seq<NormalEdge>, t: u64)
    ensures
        refs_in(edges).len() == non_null(edges).len(),
        occurrences(refs_in(edges), t) == if t == 0 {
            0
        } else {
            edges.filter(|e: NormalEdge| e.objref == t).len()
        },
    decreases edges.len(),
{
    reveal(Seq::filter);
    if edges.len() > 0 {
        lemma_refs_in_counts(edges.drop_last(), t);
        let prev = refs_in(edges.drop_last());
        let r = edges.last().objref;
        if r != 0 {
            assert(prev.push(r).drop_last() =~= prev);
            assert(occurrences(prev.push(r), t) == occurrences(prev, t) + if r == t { 1nat } else { 0nat });
        }
    }
}

/// The out-degree of an object is the number of its edges that are not
/// null.
pub proof fn lemma_out_degree_counts_non_null(obj: HeapObject)
    ensures
        out_degree(obj) == obj.edges@.filter(|e: NormalEdge| e.objref != 0).len(),
{
    lemma_refs_in_counts(obj.edges@, 0);
}

/// The in-degree of an address is the number of edges of the objects that
/// refer to it; null is never referred to, so it has in-degree 0 and is no
/// referenced object.
pub proof fn lemma_in_degree_counts_edges(objs: Seq<HeapObject>, t: u64)
    ensures
        in_degree(objs, t) == if t == 0 {
            0
        } else {
            edges_to(objs, t)
        },
        !refs_of(objs).contains(0),
    decreases objs.len(),
{
    if objs.len() > 0 {
        lemma_in_degree_counts_edges(objs.drop_last(), t);
        lemma_in_degree_counts_edges(objs.drop_last(), 0);
        lemma_occurrences_concat(refs_of(objs.drop_last()), refs_in(objs.last().edges@), t);
        lemma_occurrences_concat(refs_of(objs.drop_last()), refs_in(objs.last().edges@), 0);
        lemma_refs_in_counts(objs.last().edges@, t);
        lemma_refs_in_counts(objs.last().edges@, 0);
        lemma_occurrences_bound(refs_of(objs), 0);
        lemma_occurrences_bound(refs_of(objs.drop_last()), 0);
    } else {
        lemma_occurrences_bound(refs_of(objs), 0);
    }
}

/// For each positive degree, the in-degree frequency counts the addresses
/// that exactly that many edges of the objects refer to.
pub proof fn lemma_in_degree_frequency_counts_targets(objs: Seq<HeapObject>, d: nat)
    requires
        d > 0,
    ensures
        in_degree_frequency(objs, d) == Set::new(|t: u64| t != 0 && edges_to(objs, t) == d).len(),
{
    let a = with_in_degree(objs, refs_of(objs).to_set(), d);
    let b = Set::new(|t: u64| t != 0 && edges_to(objs, t) == d);
    assert forall|t: u64| a.contains(t) <==> b.contains(t) by {
        lemma_in_degree_counts_edges(objs, t);
        lemma_occurrences_bound(refs_of(objs), t);
    }
    assert(a =~= b);
}

/// The out-degree frequency of `d` counts the objects with exactly `d`
/// non-null edges.
pub proof fn lemma_out_degree_frequency_counts_objects(objs: Seq<HeapObject>, d: nat)
    ensures
        out_degree_frequency(objs, d) == objs.filter(
            |o: HeapObject| o.edges@.filter(|e: NormalEdge| e.objref != 0).len() == d,
        ).len(),
    decreases objs.len(),
{
    reveal(Seq::filter);
    if objs.len() > 0 {
        let init = objs.drop_last();
        lemma_out_degree_frequency_counts_objects(init, d);
        lemma_out_degree_counts_non_null(objs.last());
        assert forall|n: int| 0 <= n <= init.len() implies out_count(objs, n, d) == out_count(init, n, d) by {
            lemma_out_count_prefix(objs, init, n, d);
        }
    }
}

proof fn lemma_out_count_prefix(a: Seq<HeapObject>, b: Seq<HeapObject>, n: int, d: nat)
    requires
        0 <= n <= b.len(),
        n <= a.len(),
        forall|i: int| 0 <= i < n ==> a[i] == b[i],
    ensures
        out_count(a, n, d) == out_count(b, n, d),
    decreases n,
{
    if n > 0 {
        lemma_out_count_prefix(a, b, n - 1, d);
    }
}

/// The non-null references of the edges of `obj`.
fn object_refs(obj: &HeapObject) -> (r: Vec<u64>)
    ensures
        r@ == refs_in(obj.edges@),
{
    let mut r: Vec<u64> = Vec::new();
    let mut j: usize = 0;
    while j < obj.edges.len()
        invariant
            j <= obj.edges@.len(),
            r@ == refs_in(obj.edges@.subrange(0, j as int)),
        decreases obj.edges@.len() - j,
    {
        let t = obj.edges[j].objref;
        proof {
            assert(obj.edges@.subrange(0, j + 1).drop_last() =~= obj.edges@.subrange(0, j as int));
        }
        if t != 0 {
            r.push(t);
        }
        j += 1;
    }
    proof {
        assert(obj.edges@.subrange(0, obj.edges@.len() as int) =~= obj.edges@);
    }
    r
}

/// The references of the heap dump, object by object.
fn all_refs(objects: &Vec<HeapObject>) -> (r: Vec<u64>)
    ensures
        r@ == refs_of(objects@),
{
    let mut r: Vec<u64> = Vec::new();
    let mut i: usize = 0;
    while i < objects.len()
        invariant
            i <= objects@.len(),
            r@ == refs_of(objects@.subrange(0, i as int)),
        decreases objects@.len() - i,
    {
        let refs = object_refs(&objects[i]);
        proof {
            assert(objects@.subrange(0, i + 1).drop_last() =~= objects@.subrange(0, i as int));
        }
        let mut k: usize = 0;
        let ghost before = r@;
        while k < refs.len()
            invariant
                k <= refs@.len(),
                r@ == before + refs@.subrange(0, k as int),
            decreases refs@.len() - k,
        {
            r.push(refs[k]);
            proof {
                assert(before + refs@.subrange(0, k + 1) =~= (before + refs@.subrange(0, k as int)).push(refs@[k as int]));
            }
            k += 1;
        }
        proof {
            assert(refs@.subrange(0, refs@.len() as int) =~= refs@);
        }
        i += 1;
    }
    proof {
        assert(objects@.subrange(0, objects@.len() as int) =~= objects@);
    }
    r
}

/// How often each degree occurs among the objects of `heapdump`: the first
/// map gives, for each positive in-degree, how many referenced objects have
/// it; the second, for each out-degree, how many objects have it.
pub fn degree_frequencies(heapdump: &HeapDump) -> (r: (HashMap<u64, u64>, HashMap<u64, u64>))
    requires
        refs_of(heapdump.objects@).len() <= u64::MAX,
    ensures
        forall|d: u64| #[trigger] r.0@.contains_key(d) <==> in_degree_frequency(heapdump.objects@, d as nat) > 0,
        forall|d: u64| #[trigger] r.0@.contains_key(d) ==> r.0@[d] == in_degree_frequency(heapdump.objects@, d as nat),
        forall|d: u64| #[trigger] r.1@.contains_key(d) <==> out_degree_frequency(heapdump.objects@, d as nat) > 0,
        forall|d: u64| #[trigger] r.1@.contains_key(d) ==> r.1@[d] == out_degree_frequency(heapdump.objects@, d as nat),
{
    let objs = &heapdump.objects;
    let refs = all_refs(objs);
    let ghost rs = refs@;
    // The in-degree of every referenced object.
    let mut indeg: HashMap<u64, u64> = HashMap::new();
    let mut i: usize = 0;
    while i < refs.len()
        invariant
            i <= refs@.len(),
            rs == refs@,
            refs@.len() <= u64::MAX,
            forall|t: u64| #[trigger] indeg@.contains_key(t) <==> rs.subrange(0, i as int).contains(t),
            forall|t: u64| #[trigger] indeg@.contains_key(t) ==> indeg@[t] == occurrences(rs.subrange(0, i as int), t),
        decreases refs@.len() - i,
    {
        let t = refs[i];
        let ghost pre = rs.subrange(0, i as int);
        proof {
            assert(rs.subrange(0, i + 1) =~= pre.push(t));
            assert(pre.push(t).drop_last() =~= pre);
            lemma_occurrences_bound(pre, t);
        }
        let c: u64 = match indeg.get(&t) {
            Some(c) => *c,
            None => 0,
        };
        let ghost m0 = indeg@;
        indeg.insert(t, c + 1);
        proof {
            assert forall|u: u64| #[trigger] indeg@.contains_key(u) <==> pre.push(t).contains(u) by {
                assert(m0.contains_key(u) <==> pre.contains(u));
                if u == t {
                    assert(pre.push(t)[pre.len() as int] == t);
                }
                if pre.push(t).contains(u) && u != t {
                    let k = choose|k: int| 0 <= k < pre.push(t).len() && pre.push(t)[k] == u;
                    assert(pre[k] == u);
                }
                if pre.contains(u) {
                    let k = choose|k: int| 0 <= k < pre.len() && pre[k] == u;
                    assert(pre.push(t)[k] == u);
                }
            }
            assert forall|u: u64| #[trigger] indeg@.contains_key(u) implies indeg@[u] == occurrences(pre.push(t), u) by {
                if !pre.contains(u) {
                    lemma_occurrences_bound(pre, u);
                }
            }
        }
        i += 1;
    }
    proof {
        assert(rs.subrange(0, rs.len() as int) =~= rs);
    }
    // How many referenced objects have each in-degree.
    let mut in_freq: HashMap<u64, u64> = HashMap::new();
    let mut done: HashSet<u64> = HashSet::new();
    let ghost objs_s = objs@;
    proof {
        assert forall|d: nat| #[trigger] with_in_degree(objs_s, done@, d) =~= Set::<u64>::empty() by {}
        assert(rs.subrange(0, 0).to_set() =~= Set::<u64>::empty());
    }
    let mut i: usize = 0;
    while i < refs.len()
        invariant
            i <= refs@.len(),
            rs == refs@,
            rs == refs_of(objs_s),
            objs_s == heapdump.objects@,
            refs@.len() <= u64::MAX,
            forall|t: u64| #[trigger] indeg@.contains_key(t) <==> rs.contains(t),
            forall|t: u64| #[trigger] indeg@.contains_key(t) ==> indeg@[t] == in_degree(objs_s, t),
            done@ == rs.subrange(0, i as int).to_set(),
            done@.finite(),
            forall|d: u64| #[trigger] in_freq@.contains_key(d) <==> with_in_degree(objs_s, done@, d as nat).len() > 0,
            forall|d: u64| #[trigger] in_freq@.contains_key(d) ==> in_freq@[d] == with_in_degree(objs_s, done@, d as nat).len(),
            forall|d: nat| #[trigger] with_in_degree(objs_s, done@, d).len() <= i,
        decreases refs@.len() - i,
    {
        let t = refs[i];
        let ghost pre = rs.subrange(0, i as int);
        proof {
            assert(rs.subrange(0, i + 1) =~= pre.push(t));
            pre.lemma_push_to_set_commute(t);
            assert(rs.contains(t)) by {
                assert(rs[i as int] == t);
            }
        }
        if !done.contains(&t) {
            let d: u64 = *indeg.get(&t).unwrap();
            let ghost old_done = done@;
            proof {
                lemma_occurrences_bound(rs, t);
                assert forall|e: nat| #[trigger] with_in_degree(objs_s, old_done.insert(t), e) == if in_degree(objs_s, t) == e {
                    with_in_degree(objs_s, old_done, e).insert(t)
                } else {
                    with_in_degree(objs_s, old_done, e)
                } by {
                    lemma_with_insert(objs_s, old_done, t, e);
                }
                assert(!with_in_degree(objs_s, old_done, d as nat).contains(t));
                vstd::set_lib::lemma_len_subset(with_in_degree(objs_s, old_done, d as nat), old_done);
            }
            let c: u64 = match in_freq.get(&d) {
                Some(c) => *c,
                None => 0,
            };
            in_freq.insert(d, c + 1);
            done.insert(t);
            proof {
                assert forall|e: nat| #[trigger] with_in_degree(objs_s, done@, e).len() <= i + 1 by {
                    assert(with_in_degree(objs_s, old_done, e).len() <= i);
                }
            }
        } else {
            proof {
                assert(done@.insert(t) =~= done@);
            }
        }
        i += 1;
    }
    proof {
        assert(rs.subrange(0, rs.len() as int) =~= rs);
        assert(done@ == rs.to_set());
    }
    // How many objects have each out-degree.
    let mut out_freq: HashMap<u64, u64> = HashMap::new();
    let mut i: usize = 0;
    while i < objs.len()
        invariant
            i <= objs@.len(),
            objs_s == objs@,
            forall|d: u64| #[trigger] out_freq@.contains_key(d) <==> out_count(objs_s, i as int, d as nat) > 0,
            forall|d: u64| #[trigger] out_freq@.contains_key(d) ==> out_freq@[d] == out_count(objs_s, i as int, d as nat),
            forall|d: nat| #[trigger] out_count(objs_s, i as int, d) <= i,
        decreases objs@.len() - i,
    {
        let refs_i = object_refs(&objs[i]);
        let d = refs_i.len() as u64;
        let c: u64 = match out_freq.get(&d) {
            Some(c) => *c,
            None => 0,
        };
        proof {
            assert(out_count(objs_s, i as int, d as nat) <= i);
        }
        out_freq.insert(d, c + 1);
        proof {
            assert forall|e: nat| #[trigger] out_count(objs_s, i + 1, e) <= i + 1 by {
                assert(out_count(objs_s, i as int, e) <= i);
            }
        }
        i += 1;
    }
    (in_freq, out_freq)
}

} // verus!
