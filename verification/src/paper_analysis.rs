//! The shapes of heap objects that the paper's analyses count: where an
//! object's reference slots lie, and how they group into runs of adjacent
//! slots.
use vstd::prelude::*;
use std::collections::HashMap;
use crate::heapdump::{HeapObject, NormalEdge};

verus! {

broadcast use {vstd::seq_lib::group_to_multiset_ensures, vstd::std_specs::hash::group_hash_axioms};

/// The offset of `slot` from the object start `start`, both read as
/// signed 64-bit numbers.
pub open spec fn slot_offset(slot: u64, start: u64) -> int {
    (slot as i64) - (start as i64)
}

/// Every reference slot of `obj` lies within a signed 64-bit offset of its start.
pub open spec fn offsets_fit(obj: HeapObject) -> bool {
    forall|i: int|
        0 <= i < obj.edges@.len() ==> i64::MIN <= #[trigger] slot_offset(obj.edges@[i].slot, obj.start)
            <= i64::MAX
}

/// The offsets of the reference slots of `obj`, in slot order.
pub open spec fn offsets_spec(obj: HeapObject) -> Seq<i64> {
    obj.edges@.map_values(|e: NormalEdge| slot_offset(e.slot, obj.start) as i64)
}

/// `s` does not decrease.
pub open spec fn sorted_i64(s: Seq<i64>) -> bool {
    forall|p: int, q: int| 0 <= p < q < s.len() ==> #[trigger] s[p] <= #[trigger] s[q]
}

/// The offsets of the reference slots of `obj`, in increasing order.
pub open spec fn sorted_offsets_spec(obj: HeapObject) -> Seq<i64> {
    choose|s: Seq<i64>| sorted_i64(s) && s.to_multiset() == offsets_spec(obj).to_multiset()
}

/// There is one increasing order of the offsets of `obj`.
proof fn lemma_sorted_offsets_unique(obj: HeapObject, s: Seq<i64>)
    requires
        sorted_i64(s),
        s.to_multiset() == offsets_spec(obj).to_multiset(),
    ensures
        s == sorted_offsets_spec(obj),
{
    let t = sorted_offsets_spec(obj);
    assert(sorted_i64(t) && t.to_multiset() == offsets_spec(obj).to_multiset());
    let leq = |a: i64, b: i64| a <= b;
    assert(vstd::relations::sorted_by(s, leq));
    assert(vstd::relations::sorted_by(t, leq));
    assert(vstd::relations::total_ordering(leq));
    vstd::seq_lib::lemma_sorted_unique(s, t, leq);
}

/// The offsets of `obj` can be put in increasing order.
proof fn lemma_sorted_offsets_exist(obj: HeapObject)
    ensures
        sorted_i64(sorted_offsets_spec(obj)),
        sorted_offsets_spec(obj).to_multiset() == offsets_spec(obj).to_multiset(),
{
    let leq = |a: i64, b: i64| a <= b;
    let t = offsets_spec(obj).sort_by(leq);
    assert(vstd::relations::total_ordering(leq));
    offsets_spec(obj).lemma_sort_by_ensures(leq);
    assert(sorted_i64(t)) by {
        assert forall|p: int, q: int| 0 <= p < q < t.len() implies #[trigger] t[p] <= #[trigger] t[q] by {
            assert(leq(t[p], t[q]));
        }
    }
}

/// The offsets of the reference slots of `obj`, in increasing order.
pub fn sorted_offsets(obj: &HeapObject) -> (r: Vec<i64>)
    requires
        offsets_fit(*obj),
    ensures
        sorted_i64(r@),
        r@.to_multiset() == offsets_spec(*obj).to_multiset(),
        r@ == sorted_offsets_spec(*obj),
{
    let ghost offs = offsets_spec(*obj);
    let mut out: Vec<i64> = Vec::new();
    let mut i: usize = 0;
    while i < obj.edges.len()
        invariant
            offs == offsets_spec(*obj),
            offsets_fit(*obj),
            i <= obj.edges@.len(),
            sorted_i64(out@),
            out@.to_multiset() == offs.subrange(0, i as int).to_multiset(),
        decreases obj.edges@.len() - i,
    {
        proof {
            assert(i64::MIN <= slot_offset(obj.edges@[i as int].slot, obj.start) <= i64::MAX);
        }
        let x: i64 = (obj.edges[i].slot as i64) - (obj.start as i64);
        let mut j: usize = out.len();
        while j > 0 && out[j - 1] > x
            invariant
                j <= out@.len(),
                sorted_i64(out@),
                forall|k: int| j <= k < out@.len() ==> #[trigger] out@[k] > x,
            decreases j,
        {
            j -= 1;
        }
        let ghost before = out@;
        out.insert(j, x);
        proof {
            assert(offs[i as int] == x);
            assert(offs.subrange(0, i + 1) =~= offs.subrange(0, i as int).push(x));
            assert(out@ == before.insert(j as int, x));
            assert forall|p: int, q: int| 0 <= p < q < out@.len() implies #[trigger] out@[p] <= #[trigger] out@[q] by {
                if q < j {
                } else if q == j {
                    if p < j && j > 0 {
                        assert(before[j - 1] <= x);
                        assert(before[p] <= before[j - 1]);
                    }
                } else {
                    assert(out@[q] == before[q - 1]);
                    if p < j {
                    } else if p == j {
                    } else {
                        assert(out@[p] == before[p - 1]);
                    }
                }
            }
        }
        i += 1;
    }
    assert(offs.subrange(0, obj.edges@.len() as int) =~= offs);
    proof {
        lemma_sorted_offsets_unique(*obj, out@);
    }
    out
}

/// How an object holds references: none, as an array of them, or in slots
/// at these offsets (in increasing order).
#[derive(Clone, Debug, PartialEq, Eq, Hash)]
pub enum ObjectShape {
    NoRef,
    RefArray,
    Refs(Vec<i64>),
}

impl ObjectShape {
    /// The shape of `obj`.
    pub fn from_object(obj: &HeapObject) -> (r: Self)
        requires
            offsets_fit(*obj),
        ensures
            obj.objarray_length is Some ==> r is RefArray,
            obj.objarray_length is None && obj.edges@.len() == 0 ==> r is NoRef,
            obj.objarray_length is None && obj.edges@.len() > 0 ==> (r matches ObjectShape::Refs(v) && v@
                == sorted_offsets_spec(*obj)),
    {
        if obj.objarray_length.is_some() {
            ObjectShape::RefArray
        } else if obj.edges.len() == 0 {
            ObjectShape::NoRef
        } else {
            ObjectShape::Refs(sorted_offsets(obj))
        }
    }

    /// The shape as a list of offsets: none for no references, the least
    /// `i64` alone for an array.
    pub fn into_array(self) -> (r: Vec<i64>)
        ensures
            self is NoRef ==> r@ == Seq::<i64>::empty(),
            self is RefArray ==> r@ == seq![i64::MIN],
            self matches ObjectShape::Refs(v) ==> r@ == v@,
    {
        match self {
            ObjectShape::NoRef => Vec::new(),
            ObjectShape::RefArray => vec![i64::MIN],
            ObjectShape::Refs(r) => r,
        }
    }
}

/// The number of bits needed to write `x`: the least `b` with `x < 2^b`.
pub open spec fn bit_length(x: nat) -> nat
    decreases x,
{
    if x == 0 {
        0
    } else {
        bit_length(x / 2) + 1
    }
}

proof fn lemma_bit_length_leading_zeros(x: u64)
    ensures
        64 - vstd::std_specs::bits::u64_leading_zeros(x) == bit_length(x as nat),
    decreases x,
{
    reveal(vstd::std_specs::bits::u64_leading_zeros);
    if x != 0 {
        lemma_bit_length_leading_zeros(x / 2);
    }
}

/// Writing `x` takes `bit_length(x)` bits and no fewer.
pub proof fn lemma_bit_length_bounds(x: nat)
    ensures
        x < vstd::arithmetic::power2::pow2(bit_length(x)),
        bit_length(x) > 0 ==> vstd::arithmetic::power2::pow2((bit_length(x) - 1) as nat) <= x,
    decreases x,
{
    vstd::arithmetic::power2::lemma2_to64();
    if x > 0 {
        lemma_bit_length_bounds(x / 2);
        vstd::arithmetic::power2::lemma_pow2_unfold(bit_length(x));
        if bit_length(x / 2) > 0 {
            vstd::arithmetic::power2::lemma_pow2_unfold(bit_length(x / 2));
        }
    }
}

/// A run of `edge_count` adjacent reference slots, and the bits needed to
/// write that count.
#[derive(Clone, Copy, Debug, PartialEq, Eq, Hash, Structural)]
pub struct EdgeChunk {
    pub chunk_size_log: u32,
    pub edge_count: usize,
}

/// The lengths of the runs of `s[..n]`: a run goes on while each offset is
/// the previous one plus eight.
pub open spec fn run_lengths(s: Seq<i64>, n: nat) -> Seq<nat>
    decreases n,
{
    if n <= 1 {
        seq![1nat]
    } else {
        let r = run_lengths(s, (n - 1) as nat);
        if s[n - 1] == s[n - 2] + 8 {
            r.update(r.len() - 1, r.last() + 1)
        } else {
            r.push(1nat)
        }
    }
}

/// The chunk of a run of `k` slots.
pub open spec fn chunk_of(k: nat) -> EdgeChunk {
    EdgeChunk { chunk_size_log: bit_length(k) as u32, edge_count: k as usize }
}

/// The chunks of the object whose reference offsets, in increasing order, are `s`.
pub open spec fn chunks_of_offsets(s: Seq<i64>) -> Seq<EdgeChunk> {
    run_lengths(s, s.len()).map_values(|k: nat| chunk_of(k))
}

/// The runs of adjacent reference slots of `obj`.
pub open spec fn object_chunks(obj: HeapObject) -> Seq<EdgeChunk> {
    match obj.objarray_length {
        Some(l) => seq![chunk_of((l as usize) as nat)],
        None => if obj.edges@.len() == 0 {
            Seq::empty()
        } else {
            chunks_of_offsets(sorted_offsets_spec(obj))
        },
    }
}

/// The sum of `r`.
pub open spec fn sum_nat(r: Seq<nat>) -> nat
    decreases r.len(),
{
    if r.len() == 0 {
        0
    } else {
        sum_nat(r.drop_last()) + r.last()
    }
}

proof fn lemma_sum_update_last(r: Seq<nat>, v: nat)
    requires
        r.len() > 0,
    ensures
        sum_nat(r.update(r.len() - 1, v)) == sum_nat(r) - r.last() + v,
{
    assert(r.update(r.len() - 1, v).drop_last() =~= r.drop_last());
}

/// The runs of a non-empty list of offsets hold every offset once: their
/// lengths add up to the number of offsets, and none is empty.
pub proof fn lemma_runs_cover(s: Seq<i64>, n: nat)
    requires
        1 <= n <= s.len(),
    ensures
        sum_nat(run_lengths(s, n)) == n,
        forall|k: int| 0 <= k < run_lengths(s, n).len() ==> #[trigger] run_lengths(s, n)[k] >= 1,
        run_lengths(s, n).len() <= n,
    decreases n,
{
    if n == 1 {
        assert(sum_nat(seq![1nat]) == sum_nat(seq![1nat].drop_last()) + 1);
        assert(seq![1nat].drop_last() =~= Seq::<nat>::empty());
    } else {
        lemma_runs_cover(s, (n - 1) as nat);
        let r = run_lengths(s, (n - 1) as nat);
        if s[n - 1] == s[n - 2] + 8 {
            lemma_sum_update_last(r, r.last() + 1);
        } else {
            assert(r.push(1nat).drop_last() =~= r);
        }
    }
}

/// Offset `j` of `s` is eight bytes after offset `j - 1`.
pub open spec fn step8(s: Seq<i64>, j: int) -> bool {
    s[j] == s[j - 1] + 8
}

/// Where run `k` of the runs `r` starts: the slots of the runs before it.
pub open spec fn run_start(r: Seq<nat>, k: int) -> int
    decreases k,
{
    if k <= 0 {
        0
    } else {
        run_start(r, k - 1) + r[k - 1]
    }
}

/// Where chunk `k` of `cs` starts among the sorted slots: the edges of the
/// chunks before it.
pub open spec fn chunk_start(cs: Seq<EdgeChunk>, k: int) -> int
    decreases k,
{
    if k <= 0 {
        0
    } else {
        chunk_start(cs, k - 1) + cs[k - 1].edge_count
    }
}

proof fn lemma_run_start_agree(r1: Seq<nat>, r2: Seq<nat>, k: int)
    requires
        0 <= k <= r1.len(),
        k <= r2.len(),
        forall|i: int| 0 <= i < k ==> r1[i] == r2[i],
    ensures
        run_start(r1, k) == run_start(r2, k),
    decreases k,
{
    if k > 0 {
        lemma_run_start_agree(r1, r2, k - 1);
    }
}

/// `r` splits the first `n` offsets of `s` into maximal runs of offsets
/// eight bytes apart.
pub open spec fn maximal_runs(s: Seq<i64>, r: Seq<nat>, n: nat) -> bool {
    &&& run_start(r, r.len() as int) == n
    &&& forall|k: int| 0 <= k < r.len() ==> #[trigger] r[k] >= 1
    &&& forall|k: int, j: int|
        #![trigger r[k], step8(s, j)]
        0 <= k < r.len() && run_start(r, k) < j < run_start(r, k) + r[k] ==> step8(s, j)
    &&& forall|k: int| 0 < k < r.len() ==> !#[trigger] step8(s, run_start(r, k))
}

proof fn lemma_runs_extend(s: Seq<i64>, p: Seq<nat>, n: nat)
    requires
        2 <= n <= s.len(),
        p.len() >= 1,
        maximal_runs(s, p, (n - 1) as nat),
        s[n - 1] == s[n - 2] + 8,
    ensures
        maximal_runs(s, p.update(p.len() - 1, p.last() + 1), n),
{
    let l = p.len() as int;
    let r = p.update(l - 1, p.last() + 1);
    assert(run_start(p, l) == run_start(p, l - 1) + p[l - 1]);
    assert forall|k: int| 0 <= k < l implies run_start(r, k) == run_start(p, k) by {
        lemma_run_start_agree(p, r, k);
    }
    assert(run_start(r, l) == run_start(r, l - 1) + r[l - 1]);
    assert forall|k: int, j: int|
        #![trigger r[k], step8(s, j)]
        0 <= k < r.len() && run_start(r, k) < j < run_start(r, k) + r[k] implies step8(s, j) by {
        if k < l - 1 {
            assert(r[k] == p[k]);
        } else if j < run_start(r, k) + p[k] {
            assert(p[k] >= 1);
        } else {
            assert(j == n - 1);
        }
    }
    assert forall|k: int| 0 < k < r.len() implies !#[trigger] step8(s, run_start(r, k)) by {
        assert(run_start(r, k) == run_start(p, k));
        assert(!step8(s, run_start(p, k)));
    }
}

proof fn lemma_runs_push(s: Seq<i64>, p: Seq<nat>, n: nat)
    requires
        2 <= n <= s.len(),
        maximal_runs(s, p, (n - 1) as nat),
        s[n - 1] != s[n - 2] + 8,
    ensures
        maximal_runs(s, p.push(1nat), n),
{
    let l = p.len() as int;
    let r = p.push(1nat);
    lemma_run_start_agree(p, r, l);
    assert(run_start(r, l + 1) == run_start(r, l) + r[l]);
    assert(!step8(s, run_start(r, l)));
    assert forall|k: int, j: int|
        #![trigger r[k], step8(s, j)]
        0 <= k < r.len() && run_start(r, k) < j < run_start(r, k) + r[k] implies step8(s, j) by {
        if k < l {
            lemma_run_start_agree(p, r, k);
            assert(r[k] == p[k]);
        }
    }
    assert forall|k: int| 0 < k < r.len() implies !#[trigger] step8(s, run_start(r, k)) by {
        if k < l {
            lemma_run_start_agree(p, r, k);
            assert(!step8(s, run_start(p, k)));
        }
    }
}

/// The runs of `s[..n]` are maximal runs of offsets eight bytes apart.
proof fn lemma_runs_maximal(s: Seq<i64>, n: nat)
    requires
        1 <= n <= s.len(),
    ensures
        maximal_runs(s, run_lengths(s, n), n),
    decreases n,
{
    let r = run_lengths(s, n);
    if n == 1 {
        assert(r == seq![1nat]);
        assert(run_start(r, 1) == run_start(r, 0) + r[0]);
    } else {
        lemma_runs_maximal(s, (n - 1) as nat);
        lemma_runs_cover(s, (n - 1) as nat);
        let p = run_lengths(s, (n - 1) as nat);
        if s[n - 1] == s[n - 2] + 8 {
            lemma_runs_extend(s, p, n);
        } else {
            lemma_runs_push(s, p, n);
        }
    }
}

proof fn lemma_chunk_start_of_runs(r: Seq<nat>, k: int)
    requires
        0 <= k <= r.len(),
        forall|i: int| 0 <= i < r.len() ==> #[trigger] r[i] <= usize::MAX,
    ensures
        chunk_start(r.map_values(|x: nat| chunk_of(x)), k) == run_start(r, k),
    decreases k,
{
    if k > 0 {
        lemma_chunk_start_of_runs(r, k - 1);
    }
}

proof fn lemma_run_start_bound(r: Seq<nat>, k: int, i: int)
    requires
        0 <= i < k <= r.len(),
    ensures
        run_start(r, k) >= run_start(r, i) + r[i],
    decreases k,
{
    if k > i + 1 {
        lemma_run_start_bound(r, k - 1, i);
    }
}

/// The chunks of a non-array object are the maximal runs of its reference
/// slots in increasing order of offset: together they hold every slot
/// once, each is non-empty and records the bits of its length, the slots
/// of a chunk lie eight bytes apart, and where one chunk ends and the next
/// begins the slots do not.
pub proof fn lemma_chunks_are_maximal_runs(obj: HeapObject)
    requires
        offsets_fit(obj),
        obj.objarray_length is None,
    ensures
        ({
            let cs = object_chunks(obj);
            let s = sorted_offsets_spec(obj);
            &&& s.len() == obj.edges@.len()
            &&& chunk_start(cs, cs.len() as int) == s.len()
            &&& forall|k: int|
                0 <= k < cs.len() ==> (#[trigger] cs[k]).edge_count >= 1 && cs[k].chunk_size_log == bit_length(
                    cs[k].edge_count as nat,
                )
            &&& forall|k: int, j: int|
                #![trigger cs[k], step8(s, j)]
                0 <= k < cs.len() && chunk_start(cs, k) < j < chunk_start(cs, k) + cs[k].edge_count ==> step8(s, j)
            &&& forall|k: int|
                0 < k < cs.len() ==> !#[trigger] step8(s, chunk_start(cs, k))
        }),
{
    let cs = object_chunks(obj);
    let s = sorted_offsets_spec(obj);
    lemma_sorted_offsets_exist(obj);
    vstd::seq_lib::to_multiset_len(s);
    vstd::seq_lib::to_multiset_len(offsets_spec(obj));
    assert(obj.edges@.len() == obj.edges.len());
    if obj.edges@.len() > 0 {
        let n = s.len();
        lemma_runs_maximal(s, n);
        lemma_runs_cover(s, n);
        let r = run_lengths(s, n);
        assert forall|i: int| 0 <= i < r.len() implies #[trigger] r[i] <= usize::MAX by {
            lemma_run_start_bound(r, r.len() as int, i);
            lemma_run_start_nonneg(r, i);
        }
        assert(cs == r.map_values(|x: nat| chunk_of(x)));
        lemma_chunk_start_of_runs(r, r.len() as int);
        assert forall|k: int| 0 <= k <= r.len() implies chunk_start(cs, k) == run_start(r, k) by {
            lemma_chunk_start_of_runs(r, k);
        }
        assert forall|k: int, j: int|
            #![trigger cs[k], step8(s, j)]
            0 <= k < cs.len() && chunk_start(cs, k) < j < chunk_start(cs, k) + cs[k].edge_count implies step8(s, j) by {
            assert(r[k] >= 1);
            assert(cs[k].edge_count == r[k]);
            lemma_chunk_start_of_runs(r, k);
        }
        assert forall|k: int| 0 < k < cs.len() implies !#[trigger] step8(s, chunk_start(cs, k)) by {
            lemma_chunk_start_of_runs(r, k);
            assert(chunk_start(cs, k) == run_start(r, k));
            assert(!step8(s, run_start(r, k)));
        }
        assert forall|k: int| 0 <= k < cs.len() implies (#[trigger] cs[k]).edge_count >= 1 && cs[k].chunk_size_log
            == bit_length(cs[k].edge_count as nat) by {
            assert(r[k] >= 1);
            assert(r[k] <= usize::MAX);
            lemma_bit_length_small(r[k]);
            assert(cs[k] == chunk_of(r[k]));
        }
    } else {
        assert(cs.len() == 0);
    }
}

proof fn lemma_bit_length_small(x: nat)
    requires
        x <= u64::MAX,
    ensures
        bit_length(x) <= 64,
{
    lemma_bit_length_bounds(x);
    vstd::arithmetic::power2::lemma2_to64();
    if bit_length(x) > 64 {
        vstd::arithmetic::power2::lemma_pow2_strictly_increases(64, (bit_length(x) - 1) as nat);
    }
}

proof fn lemma_run_start_nonneg(r: Seq<nat>, k: int)
    requires
        0 <= k <= r.len(),
    ensures
        run_start(r, k) >= 0,
    decreases k,
{
    if k > 0 {
        lemma_run_start_nonneg(r, k - 1);
    }
}

impl EdgeChunk {
    /// The number of bits needed to write `x`.
    pub fn log2_ceil(x: usize) -> (r: u32)
        ensures
            r == bit_length(x as nat),
    {
        let lz = (x as u64).leading_zeros();
        proof {
            lemma_bit_length_leading_zeros(x as u64);
        }
        64 - lz
    }

    /// The runs of adjacent reference slots of `obj`: an array is one run
    /// of its length; otherwise the slots, in increasing order of offset,
    /// split wherever one is not eight bytes after the one before.
    pub fn from_object(obj: &HeapObject) -> (r: Vec<EdgeChunk>)
        requires
            offsets_fit(*obj),
        ensures
            obj.objarray_length matches Some(l) ==> r@ == seq![chunk_of((l as usize) as nat)],
            obj.objarray_length is None && obj.edges@.len() == 0 ==> r@ == Seq::<EdgeChunk>::empty(),
            r@ == object_chunks(*obj),
    {
        if let Some(l) = obj.objarray_length {
            let n = l as usize;
            vec![EdgeChunk { chunk_size_log: Self::log2_ceil(n), edge_count: n }]
        } else if obj.edges.len() == 0 {
            Vec::new()
        } else {
            let offsets = sorted_offsets(obj);
            proof {
                vstd::seq_lib::to_multiset_len(offsets@);
                vstd::seq_lib::to_multiset_len(offsets_spec(*obj));
            }
            let ghost s = offsets@;
            let mut i: usize = 1;
            let mut chunk_size: usize = 1;
            let mut counts: Vec<EdgeChunk> = Vec::new();
            while i < offsets.len()
                invariant
                    s == offsets@,
                    1 <= i <= s.len(),
                    counts@ == run_lengths(s, i as nat).drop_last().map_values(|k: nat| chunk_of(k)),
                    chunk_size == run_lengths(s, i as nat).last(),
                    chunk_size <= i,
                decreases s.len() - i,
            {
                proof {
                    lemma_runs_cover(s, i as nat);
                }
                let ghost r = run_lengths(s, i as nat);
                let prev = offsets[i - 1];
                if prev > i64::MAX - 8 || offsets[i] != prev + 8 {
                    let log = Self::log2_ceil(chunk_size);
                    counts.push(EdgeChunk { chunk_size_log: log, edge_count: chunk_size });
                    proof {
                        assert(run_lengths(s, (i + 1) as nat) == r.push(1nat));
                        assert(r.push(1nat).drop_last() =~= r);
                        assert(r =~= r.drop_last().push(r.last()));
                    }
                    chunk_size = 1;
                } else {
                    proof {
                        assert(run_lengths(s, (i + 1) as nat) == r.update(r.len() - 1, r.last() + 1));
                        assert(r.update(r.len() - 1, r.last() + 1).drop_last() =~= r.drop_last());
                    }
                    chunk_size += 1;
                }
                i += 1;
            }
            let log = Self::log2_ceil(chunk_size);
            counts.push(EdgeChunk { chunk_size_log: log, edge_count: chunk_size });
            proof {
                let r = run_lengths(s, s.len());
                lemma_runs_cover(s, s.len());
                assert(r =~= r.drop_last().push(r.last()));
                assert(counts@ =~= chunks_of_offsets(s));
            }
            counts
        }
    }
}

/// The count kept for `k` in `m`, zero where there is none.
pub open spec fn count_of(m: Map<u32, usize>, k: u32) -> int {
    if m.contains_key(k) {
        m[k] as int
    } else {
        0
    }
}

/// `m` with the edges of each chunk of `cs` added to the count of its log size.
pub open spec fn add_chunks(m: Map<u32, usize>, cs: Seq<EdgeChunk>) -> Map<u32, usize>
    decreases cs.len(),
{
    if cs.len() == 0 {
        m
    } else {
        let m1 = add_chunks(m, cs.drop_last());
        let c = cs.last();
        m1.insert(c.chunk_size_log, (count_of(m1, c.chunk_size_log) + c.edge_count) as usize)
    }
}

/// Edges per chunk log size over the objects of `objs`.
pub open spec fn chunk_counts(objs: Seq<HeapObject>) -> Map<u32, usize>
    decreases objs.len(),
{
    if objs.len() == 0 {
        Map::empty()
    } else {
        add_chunks(chunk_counts(objs.drop_last()), object_chunks(objs.last()))
    }
}

/// The edges an object counts: its length for an array, else its slots.
pub open spec fn object_edges(obj: HeapObject) -> nat {
    match obj.objarray_length {
        Some(l) => (l as usize) as nat,
        None => obj.edges@.len(),
    }
}

/// The edges the objects of `objs` count.
pub open spec fn edge_total(objs: Seq<HeapObject>) -> nat
    decreases objs.len(),
{
    if objs.len() == 0 {
        0
    } else {
        edge_total(objs.drop_last()) + object_edges(objs.last())
    }
}

/// The chunks of an object hold each of its edges once.
pub proof fn lemma_object_chunks_total(obj: HeapObject)
    requires
        offsets_fit(obj),
        obj.edges@.len() <= usize::MAX,
    ensures
        sum_chunk_edges(object_chunks(obj)) == object_edges(obj),
{
    match obj.objarray_length {
        Some(l) => {
            let cs = seq![chunk_of((l as usize) as nat)];
            assert(cs.drop_last() =~= Seq::<EdgeChunk>::empty());
            assert(sum_chunk_edges(Seq::<EdgeChunk>::empty()) == 0);
        },
        None => {
            if obj.edges@.len() > 0 {
                let s = sorted_offsets_spec(obj);
                lemma_sorted_offsets_exist(obj);
                vstd::seq_lib::to_multiset_len(s);
                vstd::seq_lib::to_multiset_len(offsets_spec(obj));
                lemma_runs_cover(s, s.len());
                lemma_sum_chunks_runs(run_lengths(s, s.len()));
            }
        },
    }
}

/// The edges of the chunks of `cs`.
pub open spec fn sum_chunk_edges(cs: Seq<EdgeChunk>) -> nat
    decreases cs.len(),
{
    if cs.len() == 0 {
        0
    } else {
        sum_chunk_edges(cs.drop_last()) + (cs.last().edge_count as nat)
    }
}

proof fn lemma_sum_chunks_runs(r: Seq<nat>)
    requires
        sum_nat(r) <= usize::MAX,
    ensures
        sum_chunk_edges(r.map_values(|k: nat| chunk_of(k))) == sum_nat(r),
    decreases r.len(),
{
    if r.len() > 0 {
        assert(sum_nat(r.drop_last()) <= sum_nat(r));
        lemma_sum_chunks_runs(r.drop_last());
        assert(r.map_values(|k: nat| chunk_of(k)).drop_last() =~= r.drop_last().map_values(|k: nat| chunk_of(k)));
    }
}

proof fn lemma_add_chunks_bound(m: Map<u32, usize>, cs: Seq<EdgeChunk>, b: int, k: u32)
    requires
        forall|k2: u32| count_of(m, k2) <= b,
        b + sum_chunk_edges(cs) <= usize::MAX,
    ensures
        count_of(add_chunks(m, cs), k) <= b + sum_chunk_edges(cs),
    decreases cs.len(),
{
    if cs.len() > 0 {
        let c = cs.last();
        assert forall|k2: u32| count_of(add_chunks(m, cs.drop_last()), k2) <= b + sum_chunk_edges(cs.drop_last()) by {
            lemma_add_chunks_bound(m, cs.drop_last(), b, k2);
        }
        lemma_add_chunks_bound(m, cs.drop_last(), b, c.chunk_size_log);
        lemma_add_chunks_bound(m, cs.drop_last(), b, k);
    }
}

/// Edges per chunk log size over `objects`: each object's runs of
/// adjacent slots add their edges to the count of their log size.
pub fn edge_chunk_counts(objects: &Vec<HeapObject>) -> (r: HashMap<u32, usize>)
    requires
        forall|i: int| 0 <= i < objects@.len() ==> offsets_fit(#[trigger] objects@[i]),
        edge_total(objects@) <= usize::MAX,
    ensures
        r@ == chunk_counts(objects@),
{
    let mut counts: HashMap<u32, usize> = HashMap::new();
    let mut i: usize = 0;
    while i < objects.len()
        invariant
            i <= objects@.len(),
            forall|i: int| 0 <= i < objects@.len() ==> offsets_fit(#[trigger] objects@[i]),
            edge_total(objects@) <= usize::MAX,
            counts@ == chunk_counts(objects@.subrange(0, i as int)),
            forall|k: u32| count_of(counts@, k) <= edge_total(objects@.subrange(0, i as int)),
            edge_total(objects@.subrange(0, i as int)) <= edge_total(objects@),
        decreases objects@.len() - i,
    {
        let obj = &objects[i];
        let chunks = EdgeChunk::from_object(obj);
        let ghost prefix = objects@.subrange(0, i as int);
        let ghost next = objects@.subrange(0, i + 1);
        let ghost base = counts@;
        proof {
            assert(next.drop_last() =~= prefix);
            assert(next.last() == *obj);
            assert(obj.edges@.len() == obj.edges.len());
            lemma_object_chunks_total(*obj);
            lemma_edge_total_prefix(objects@, i + 1);
        }
        let mut j: usize = 0;
        while j < chunks.len()
            invariant
                j <= chunks@.len(),
                chunks@ == object_chunks(*obj),
                counts@ == add_chunks(base, chunks@.subrange(0, j as int)),
                forall|k: u32| count_of(base, k) <= edge_total(prefix),
                edge_total(prefix) + sum_chunk_edges(chunks@) <= usize::MAX,
                sum_chunk_edges(chunks@.subrange(0, j as int)) <= sum_chunk_edges(chunks@),
            decreases chunks@.len() - j,
        {
            let c = chunks[j];
            proof {
                let sub = chunks@.subrange(0, j + 1);
                assert(sub.drop_last() =~= chunks@.subrange(0, j as int));
                assert(sub.last() == c);
                lemma_sum_chunk_prefix(chunks@, j + 1);
                lemma_add_chunks_bound(base, chunks@.subrange(0, j as int), edge_total(prefix) as int, c.chunk_size_log);
            }
            let old: usize = match counts.get(&c.chunk_size_log) {
                Some(v) => *v,
                None => 0,
            };
            counts.insert(c.chunk_size_log, old + c.edge_count);
            j += 1;
        }
        proof {
            assert(chunks@.subrange(0, chunks@.len() as int) =~= chunks@);
            assert forall|k: u32| count_of(counts@, k) <= edge_total(next) by {
                lemma_add_chunks_bound(base, chunks@, edge_total(prefix) as int, k);
            }
        }
        i += 1;
    }
    assert(objects@.subrange(0, objects@.len() as int) =~= objects@);
    counts
}

proof fn lemma_sum_chunk_prefix(cs: Seq<EdgeChunk>, j: int)
    requires
        0 <= j <= cs.len(),
    ensures
        sum_chunk_edges(cs.subrange(0, j)) <= sum_chunk_edges(cs),
    decreases cs.len() - j,
{
    if j < cs.len() {
        lemma_sum_chunk_prefix(cs, j + 1);
        assert(cs.subrange(0, j + 1).drop_last() =~= cs.subrange(0, j));
    } else {
        assert(cs.subrange(0, j) =~= cs);
    }
}

proof fn lemma_edge_total_prefix(objs: Seq<HeapObject>, j: int)
    requires
        0 <= j <= objs.len(),
    ensures
        edge_total(objs.subrange(0, j)) <= edge_total(objs),
    decreases objs.len() - j,
{
    if j < objs.len() {
        lemma_edge_total_prefix(objs, j + 1);
        assert(objs.subrange(0, j + 1).drop_last() =~= objs.subrange(0, j));
    } else {
        assert(objs.subrange(0, j) =~= objs);
    }
}

} // verus!
