//! An independent reachability count over a heap dump, used to check the
//! tracing loops.
use vstd::prelude::*;
use std::collections::{HashMap, HashSet};
use crate::heapdump::{HeapObject, RootEdge};

verus! {

broadcast use vstd::std_specs::hash::group_hash_axioms;

/// Object `o` has a reference slot pointing at `t`.
pub open spec fn has_edge_to(o: HeapObject, t: u64) -> bool {
    exists|j: int| 0 <= j < o.edges@.len() && (#[trigger] o.edges@[j]).objref == t
}

/// `p` is a walk through the heap graph that starts at a root and follows
/// non-null references of objects of `objs`.
pub open spec fn is_path(objs: Map<u64, HeapObject>, roots: Seq<RootEdge>, p: Seq<u64>) -> bool {
    &&& p.len() >= 1
    &&& exists|r: int| 0 <= r < roots.len() && (#[trigger] roots[r]).objref == p[0]
    &&& forall|i: int|
        0 <= i < p.len() - 1 ==> {
            &&& objs.contains_key(#[trigger] p[i])
            &&& p[i + 1] != 0
            &&& has_edge_to(objs[p[i]], p[i + 1])
        }
}

/// Address `o` is reachable from the roots.
pub open spec fn reachable(objs: Map<u64, HeapObject>, roots: Seq<RootEdge>, o: u64) -> bool {
    exists|p: Seq<u64>| #[trigger] is_path(objs, roots, p) && p.last() == o
}

/// Every address reachable from the roots.
pub open spec fn reachable_set(objs: Map<u64, HeapObject>, roots: Seq<RootEdge>) -> Set<u64> {
    Set::new(|o: u64| reachable(objs, roots, o))
}

/// Extending a path by one reference gives a path.
proof fn lemma_path_extend(objs: Map<u64, HeapObject>, roots: Seq<RootEdge>, p: Seq<u64>, t: u64)
    requires
        is_path(objs, roots, p),
        objs.contains_key(p.last()),
        t != 0,
        has_edge_to(objs[p.last()], t),
    ensures
        is_path(objs, roots, p.push(t)),
{
    let q = p.push(t);
    let r = choose|r: int| 0 <= r < roots.len() && (#[trigger] roots[r]).objref == p[0];
    assert(roots[r].objref == q[0]);
    assert forall|i: int| 0 <= i < q.len() - 1 implies {
        &&& objs.contains_key(#[trigger] q[i])
        &&& q[i + 1] != 0
        &&& has_edge_to(objs[q[i]], q[i + 1])
    } by {
        if i < p.len() - 1 {
            assert(q[i] == p[i] && q[i + 1] == p[i + 1]);
        } else {
            assert(q[i] == p.last());
        }
    }
}

/// A set that holds the roots and is closed under references holds every
/// node of every path.
proof fn lemma_closed_set_holds_paths(
    objs: Map<u64, HeapObject>,
    roots: Seq<RootEdge>,
    v: Set<u64>,
    p: Seq<u64>,
    i: int,
)
    requires
        is_path(objs, roots, p),
        0 <= i < p.len(),
        forall|r: int| 0 <= r < roots.len() ==> v.contains(#[trigger] roots[r].objref),
        forall|x: u64, t: u64|
            v.contains(x) && objs.contains_key(x) && t != 0 && has_edge_to(objs[x], t) ==> #[trigger] v.contains(t)
                && #[trigger] has_edge_to(objs[x], t),
    ensures
        v.contains(p[i]),
    decreases i,
{
    if i == 0 {
        let r = choose|r: int| 0 <= r < roots.len() && (#[trigger] roots[r]).objref == p[0];
        assert(v.contains(roots[r].objref));
    } else {
        lemma_closed_set_holds_paths(objs, roots, v, p, i - 1);
        assert(objs.contains_key(p[i - 1]));
        assert(has_edge_to(objs[p[i - 1]], p[i]));
    }
}

/// Counts the objects reachable from `roots`.
pub fn sanity_trace(roots: &[RootEdge], objects: &HashMap<u64, HeapObject>) -> (r: usize)
    requires
        forall|o: u64| reachable(objects@, roots@, o) ==> objects@.contains_key(o),
    ensures
        r == reachable_set(objects@, roots@).len(),
{
    let ghost objs = objects@;
    let ghost rts = roots@;
    let mut reachable_objects: HashSet<u64> = HashSet::new();
    let mut mark_stack: Vec<u64> = Vec::new();
    let mut k: usize = 0;
    while k < roots.len()
        invariant
            k <= rts.len(),
            rts == roots@,
            mark_stack@.len() == k,
            forall|i: int| 0 <= i < k ==> #[trigger] mark_stack@[i] == rts[i].objref,
        decreases rts.len() - k,
    {
        mark_stack.push(roots[k].objref);
        k += 1;
    }
    proof {
        assert forall|i: int| 0 <= i < mark_stack@.len() implies reachable(objs, rts, #[trigger] mark_stack@[i]) by {
            let p = seq![mark_stack@[i]];
            assert(rts[i].objref == p[0]);
            assert(is_path(objs, rts, p));
        }
        vstd::std_specs::hash::axiom_hashmap_view_finite_dom(*objects);
        assert forall|r: int| 0 <= r < rts.len() implies mark_stack@.contains(#[trigger] rts[r].objref) by {
            assert(mark_stack@[r] == rts[r].objref);
        }
    }
    while mark_stack.len() > 0
        invariant
            objs == objects@,
            rts == roots@,
            objs.dom().finite(),
            forall|o: u64| reachable(objs, rts, o) ==> objs.contains_key(o),
            forall|x: u64| reachable_objects@.contains(x) ==> reachable(objs, rts, x),
            forall|x: u64| reachable_objects@.contains(x) ==> objs.contains_key(x),
            forall|i: int| 0 <= i < mark_stack@.len() ==> reachable(objs, rts, #[trigger] mark_stack@[i]),
            forall|r: int|
                0 <= r < rts.len() ==> reachable_objects@.contains(#[trigger] rts[r].objref)
                    || mark_stack@.contains(rts[r].objref),
            forall|x: u64, j: int|
                reachable_objects@.contains(x) && 0 <= j < objs[x].edges@.len() && (
                #[trigger] objs[x].edges@[j]).objref != 0 ==> reachable_objects@.contains(
                    objs[x].edges@[j].objref,
                ) || mark_stack@.contains(objs[x].edges@[j].objref),
        decreases objs.dom().len() - reachable_objects@.len(), mark_stack@.len(),
    {
        proof {
            assert(reachable_objects@.subset_of(objs.dom()));
            vstd::set_lib::lemma_len_subset(reachable_objects@, objs.dom());
        }
        let ghost old_stack = mark_stack@;
        let o = mark_stack.pop().unwrap();
        proof {
            assert(old_stack == mark_stack@.push(o));
            assert(reachable(objs, rts, old_stack[old_stack.len() - 1]));
        }
        if reachable_objects.contains(&o) {
            proof {
                assert forall|t: u64| old_stack.contains(t) implies reachable_objects@.contains(t)
                    || mark_stack@.contains(t) by {
                    let i = choose|i: int| 0 <= i < old_stack.len() && old_stack[i] == t;
                    if i < mark_stack@.len() {
                        assert(mark_stack@[i] == t);
                    }
                }
                assert forall|i: int| 0 <= i < mark_stack@.len() implies reachable(objs, rts, #[trigger] mark_stack@[i]) by {
                    assert(mark_stack@[i] == old_stack[i]);
                }
            }
            continue;
        }
        let ghost old_set = reachable_objects@;
        reachable_objects.insert(o);
        proof {
            assert(objs.contains_key(o));
            assert(reachable_objects@ == old_set.insert(o));
            assert(reachable_objects@.subset_of(objs.dom()));
            vstd::set_lib::lemma_len_subset(reachable_objects@, objs.dom());
            assert(reachable_objects@.len() == old_set.len() + 1);
        }
        let obj = objects.get(&o).unwrap();
        let ghost popped_stack = mark_stack@;
        let ghost path = choose|p: Seq<u64>| #[trigger] is_path(objs, rts, p) && p.last() == o;
        let mut j: usize = 0;
        while j < obj.edges.len()
            invariant
                objs == objects@,
                rts == roots@,
                objs.contains_key(o),
                *obj == objs[o],
                is_path(objs, rts, path),
                path.last() == o,
                j <= obj.edges@.len(),
                mark_stack@.len() >= popped_stack.len(),
                forall|i: int| 0 <= i < popped_stack.len() ==> mark_stack@[i] == popped_stack[i],
                forall|i: int| 0 <= i < mark_stack@.len() ==> reachable(objs, rts, #[trigger] mark_stack@[i]),
                forall|i: int| 0 <= i < popped_stack.len() ==> reachable(objs, rts, #[trigger] popped_stack[i]),
                forall|jj: int|
                    0 <= jj < j && (#[trigger] obj.edges@[jj]).objref != 0 ==> mark_stack@.contains(
                        obj.edges@[jj].objref,
                    ),
            decreases obj.edges@.len() - j,
        {
            let e = obj.edges[j];
            if e.objref != 0 {
                proof {
                    assert(has_edge_to(objs[o], e.objref)) by {
                        assert(objs[o].edges@[j as int] == e);
                    }
                    lemma_path_extend(objs, rts, path, e.objref);
                    assert(reachable(objs, rts, e.objref)) by {
                        assert(path.push(e.objref).last() == e.objref);
                    }
                }
                let ghost before = mark_stack@;
                mark_stack.push(e.objref);
                proof {
                    assert forall|jj: int|
                        0 <= jj <= j && (#[trigger] obj.edges@[jj]).objref != 0 implies mark_stack@.contains(
                            obj.edges@[jj].objref,
                        ) by {
                        if jj < j {
                            let i = choose|i: int| 0 <= i < before.len() && before[i] == obj.edges@[jj].objref;
                            assert(mark_stack@[i] == before[i]);
                        } else {
                            assert(mark_stack@[before.len() as int] == e.objref);
                        }
                    }
                }
            }
            j += 1;
        }
        proof {
            let s = mark_stack@;
            let v = reachable_objects@;
            assert forall|t: u64| old_stack.contains(t) implies v.contains(t) || s.contains(t) by {
                let i = choose|i: int| 0 <= i < old_stack.len() && old_stack[i] == t;
                if i < popped_stack.len() {
                    assert(s[i] == popped_stack[i]);
                } else {
                    assert(t == o);
                }
            }
            assert forall|x: u64| v.contains(x) implies reachable(objs, rts, x) by {
                if x == o {
                    assert(is_path(objs, rts, path) && path.last() == o);
                }
            }
            assert forall|x: u64, jj: int|
                v.contains(x) && 0 <= jj < objs[x].edges@.len() && (#[trigger] objs[x].edges@[jj]).objref != 0
                    implies v.contains(objs[x].edges@[jj].objref) || s.contains(objs[x].edges@[jj].objref) by {
                if x == o {
                    assert(obj.edges@[jj] == objs[x].edges@[jj]);
                } else {
                    assert(old_set.contains(x));
                    let t = objs[x].edges@[jj].objref;
                    assert(old_set.contains(t) || old_stack.contains(t));
                }
            }
            assert forall|rr: int| 0 <= rr < rts.len() implies v.contains(#[trigger] rts[rr].objref) || s.contains(
                rts[rr].objref,
            ) by {
                let t = rts[rr].objref;
                assert(old_set.contains(t) || old_stack.contains(t));
            }
        }
    }
    proof {
        let v = reachable_objects@;
        assert(mark_stack@.len() == 0);
        assert forall|x: u64, t: u64|
            v.contains(x) && objs.contains_key(x) && t != 0 && has_edge_to(objs[x], t) implies #[trigger] v.contains(t)
                && #[trigger] has_edge_to(objs[x], t) by {
            let jj = choose|jj: int| 0 <= jj < objs[x].edges@.len() && (#[trigger] objs[x].edges@[jj]).objref == t;
            assert(objs[x].edges@[jj].objref != 0);
        }
        assert forall|o: u64| reachable_set(objs, rts).contains(o) <==> v.contains(o) by {
            if reachable(objs, rts, o) {
                let p = choose|p: Seq<u64>| #[trigger] is_path(objs, rts, p) && p.last() == o;
                lemma_closed_set_holds_paths(objs, rts, v, p, p.len() - 1);
            }
        }
        assert(reachable_set(objs, rts) =~= v);
    }
    reachable_objects.len()
}

} // verus!
