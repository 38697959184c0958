//! The OpenJDK object model: an object starts with a header word and a TIB
//! pointer; the TIB lists the object's reference fields as oop map blocks.
//!
//! With alignment encoding, the address of a TIB also says where the
//! reference fields of its objects are: bits 3 to 5 of the address hold one
//! of eight patterns, so common layouts are scanned without reading the TIB.
use vstd::prelude::*;
use std::collections::HashMap;
use crate::bitset::{
    bits_value, bitset_enable_range, bitset_first_block, bitset_len, bitset_ones,
    bitset_with_capacity,
};
use crate::heapdump::{HeapDump, HeapObject, NormalEdge};
use crate::memif::{align_up_spec, BumpAllocationArena, MemoryInterface};
use crate::object_model::{HasTibType, ObjectModel, SlotChunk, TibType};
use crate::target_memory::{word_at, TargetMemory};
use vstd::arithmetic::power2::pow2;

verus! {

broadcast use vstd::std_specs::hash::group_hash_axioms;

/// A run of consecutive reference fields: byte offset of the first field
/// from the object start, and the number of fields.
#[derive(Debug, Clone, Copy, PartialEq, Eq, Structural)]
pub struct OopMapBlock {
    pub offset: u64,
    pub count: u64,
}

/// The reference-field layouts that a TIB address can encode.
#[derive(Debug, Clone, Copy, PartialEq, Eq, Structural)]
pub enum AlignmentEncodingPattern {
    Fallback,
    RefArray,
    NoRef,
    Ref0,
    Ref1_2_3,
    Ref4_5_6,
    Ref2,
    Ref0_1,
}

/// The 3-bit code of each pattern.
pub open spec fn pattern_code(p: AlignmentEncodingPattern) -> u8 {
    match p {
        AlignmentEncodingPattern::NoRef => 0,
        AlignmentEncodingPattern::Ref0 => 1,
        AlignmentEncodingPattern::Ref1_2_3 => 2,
        AlignmentEncodingPattern::Ref4_5_6 => 3,
        AlignmentEncodingPattern::Ref2 => 4,
        AlignmentEncodingPattern::Ref0_1 => 5,
        AlignmentEncodingPattern::RefArray => 6,
        AlignmentEncodingPattern::Fallback => 7,
    }
}

/// The pattern with 3-bit code `c`.
pub open spec fn pattern_of_code(c: u8) -> AlignmentEncodingPattern {
    if c == 0 {
        AlignmentEncodingPattern::NoRef
    } else if c == 1 {
        AlignmentEncodingPattern::Ref0
    } else if c == 2 {
        AlignmentEncodingPattern::Ref1_2_3
    } else if c == 3 {
        AlignmentEncodingPattern::Ref4_5_6
    } else if c == 4 {
        AlignmentEncodingPattern::Ref2
    } else if c == 5 {
        AlignmentEncodingPattern::Ref0_1
    } else if c == 6 {
        AlignmentEncodingPattern::RefArray
    } else {
        AlignmentEncodingPattern::Fallback
    }
}

/// Codes and patterns correspond one to one.
pub proof fn lemma_pattern_code_roundtrip(p: AlignmentEncodingPattern, c: u8)
    requires
        c < 8,
    ensures
        pattern_of_code(pattern_code(p)) == p,
        pattern_code(pattern_of_code(c)) == c,
{
}

impl AlignmentEncodingPattern {
    /// The 3-bit code of this pattern.
    pub fn code(self) -> (r: u8)
        ensures
            r == pattern_code(self),
            r < 8,
    {
        match self {
            AlignmentEncodingPattern::NoRef => 0,
            AlignmentEncodingPattern::Ref0 => 1,
            AlignmentEncodingPattern::Ref1_2_3 => 2,
            AlignmentEncodingPattern::Ref4_5_6 => 3,
            AlignmentEncodingPattern::Ref2 => 4,
            AlignmentEncodingPattern::Ref0_1 => 5,
            AlignmentEncodingPattern::RefArray => 6,
            AlignmentEncodingPattern::Fallback => 7,
        }
    }

    /// The pattern with code `value`.
    pub fn from_code(value: u8) -> (r: Self)
        requires
            value < 8,
        ensures
            r == pattern_of_code(value),
    {
        match value {
            0 => AlignmentEncodingPattern::NoRef,
            1 => AlignmentEncodingPattern::Ref0,
            2 => AlignmentEncodingPattern::Ref1_2_3,
            3 => AlignmentEncodingPattern::Ref4_5_6,
            4 => AlignmentEncodingPattern::Ref2,
            5 => AlignmentEncodingPattern::Ref0_1,
            6 => AlignmentEncodingPattern::RefArray,
            _ => AlignmentEncodingPattern::Fallback,
        }
    }
}

/// Number of bits of a TIB address that hold the pattern code.
pub const FIELD_WIDTH: u32 = 3;
/// Number of distinct codes; also the padding, in words, of an encoded TIB.
pub const MAX_ALIGN_WORDS: u64 = 8;
/// Position of the lowest code bit in a TIB address.
pub const FIELD_SHIFT: u64 = 3;
/// Step between TIB addresses with consecutive codes.
pub const ALIGNMENT_INCREMENT: u64 = 8;
/// The code bits of a TIB address.
pub const KLASS_MASK: u64 = 0x38;
/// Bytes in a word.
pub const BYTES_IN_WORD: u64 = 8;
/// Words reserved for one TIB record in the TIB arena.
pub const TIB_WORDS: u64 = 8;
/// Most bytes one TIB allocation takes from the arena, padding included.
pub const TIB_ALLOC_BYTES: u64 = 128;

/// The code held by TIB address `tib`.
pub open spec fn region_code(tib: u64) -> u8 {
    ((tib & 0x38u64) >> 3u64) as u8
}

/// The pattern that TIB address `tib` encodes.
pub fn get_tib_code_for_region(tib: u64) -> (r: AlignmentEncodingPattern)
    ensures
        r == pattern_of_code(region_code(tib)),
{
    let align_code = ((tib & KLASS_MASK) >> FIELD_SHIFT) as u8;
    assert(((tib & 0x38u64) >> 3u64) < 8) by (bit_vector);
    AlignmentEncodingPattern::from_code(align_code)
}

/// Word size of a TIB allocation: padded by one code cycle when an
/// alignment code is requested.
pub fn get_padded_word_size(word_size: u64, align_code: Option<u8>) -> (r: u64)
    requires
        word_size + MAX_ALIGN_WORDS <= u64::MAX,
    ensures
        r == word_size + if align_code is Some { MAX_ALIGN_WORDS } else { 0 },
{
    let padding: u64 = if align_code.is_some() {
        MAX_ALIGN_WORDS
    } else {
        0
    };
    word_size + padding
}

/// Steps of 8 bytes needed from code `c` to code `a`.
pub open spec fn code_distance(c: u8, a: u8) -> int {
    if c <= a {
        a - c
    } else {
        a + 8 - c
    }
}

proof fn lemma_region_code_step(r: u64)
    requires
        r + 8 <= u64::MAX,
    ensures
        region_code((r + 8) as u64) == (if region_code(r) == 7 { 0 } else { region_code(r) + 1 }),
        region_code(r) < 8,
{
    assert(((((r + 8) as u64) & 0x38u64) >> 3u64) as u8 == (if ((r & 0x38u64) >> 3u64) as u8 == 7 {
        0u8
    } else {
        (((r & 0x38u64) >> 3u64) + 1) as u8
    })) by (bit_vector)
        requires
            r + 8 <= u64::MAX,
    ;
    assert(((r & 0x38u64) >> 3u64) < 8) by (bit_vector);
}

/// The first address at or after `storage`, in steps of 8 bytes, that
/// encodes code `a`.
pub fn find_aligned_region(storage: u64, a: u8) -> (r: u64)
    requires
        a < 8,
        storage + 64 <= u64::MAX,
    ensures
        region_code(r) == a,
        storage <= r < storage + 64,
        (r - storage) % 8 == 0,
{
    let mut region = storage;
    let ghost d0 = code_distance(region_code(storage), a);
    proof {
        lemma_region_code_step(storage);
    }
    while get_tib_code_for_region(region).code() != a
        invariant
            a < 8,
            storage + 64 <= u64::MAX,
            storage <= region,
            (region - storage) % 8 == 0,
            region_code(region) < 8,
            region - storage + 8 * code_distance(region_code(region), a) == 8 * d0,
            0 <= d0 < 8,
        decreases code_distance(region_code(region), a),
    {
        proof {
            lemma_region_code_step(region);
            lemma_pattern_code_roundtrip(AlignmentEncodingPattern::NoRef, region_code(region));
        }
        region = region + ALIGNMENT_INCREMENT;
    }
    proof {
        lemma_pattern_code_roundtrip(AlignmentEncodingPattern::NoRef, region_code(region));
    }
    region
}

/// The type information of an object.
#[derive(Debug)]
pub struct Tib {
    pub ttype: TibType,
    pub oop_map_blocks: Vec<OopMapBlock>,
    pub instance_mirror_info: Option<(u64, u64)>,
}

impl HasTibType for Tib {
    open spec fn tib_type(&self) -> TibType {
        self.ttype
    }

    fn get_tib_type(&self) -> (r: TibType) {
        self.ttype
    }
}

/// A mirror TIB carries the range of the mirror's static fields.
pub open spec fn tib_wf(t: Tib) -> bool {
    t.ttype == TibType::InstanceMirror ==> t.instance_mirror_info is Some
}

/// The static-field range of an object that is an instance mirror.
pub open spec fn mirror_of(obj: HeapObject) -> Option<(u64, u64)> {
    match obj.instance_mirror_start {
        Some(s) => Some((s, obj.instance_mirror_count.unwrap())),
        None => None,
    }
}

/// Slot `slot` is a static field of the mirror range `mirror`.
pub open spec fn in_mirror(mirror: Option<(u64, u64)>, slot: u64) -> bool {
    match mirror {
        Some((s, c)) => s <= slot < s + c * 8,
        None => false,
    }
}

/// Adds the field at `slot` of an object at `start` to `blocks`: static
/// fields are skipped, a field right after the last block extends it, and
/// any other field starts a new block.
pub open spec fn omb_step(
    blocks: Seq<OopMapBlock>,
    start: u64,
    mirror: Option<(u64, u64)>,
    slot: u64,
) -> Seq<OopMapBlock> {
    if in_mirror(mirror, slot) {
        blocks
    } else if blocks.len() > 0 && slot == start + blocks.last().offset + blocks.last().count * 8 {
        blocks.update(
            blocks.len() - 1,
            OopMapBlock { offset: blocks.last().offset, count: (blocks.last().count + 1) as u64 },
        )
    } else {
        blocks.push(OopMapBlock { offset: (slot - start) as u64, count: 1 })
    }
}

/// The blocks of the first `n` fields of `edges`.
pub open spec fn omb_upto(
    edges: Seq<NormalEdge>,
    start: u64,
    mirror: Option<(u64, u64)>,
    n: nat,
) -> Seq<OopMapBlock>
    decreases n,
{
    if n == 0 {
        Seq::empty()
    } else {
        omb_step(omb_upto(edges, start, mirror, (n - 1) as nat), start, mirror, edges[n - 1].slot)
    }
}

/// The oop map blocks of an object.
pub open spec fn encoded_blocks(obj: HeapObject) -> Seq<OopMapBlock> {
    omb_upto(obj.edges@, obj.start, mirror_of(obj), obj.edges@.len())
}

/// Bound on the addresses of heap-dump objects and fields.
pub const ADDRESS_LIMIT: u64 = 0x1000_0000_0000_0000;

/// An object whose field slots lie after its start and below the address
/// limit, and whose mirror range, if any, is complete and in range.
pub open spec fn object_encodable(obj: HeapObject) -> bool {
    &&& forall|j: int|
        0 <= j < obj.edges@.len() ==> obj.start + 16 <= (#[trigger] obj.edges@[j]).slot < ADDRESS_LIMIT
    &&& obj.instance_mirror_start is Some ==> obj.instance_mirror_count is Some
    &&& (match obj.instance_mirror_start {
        Some(s) => s + obj.instance_mirror_count.unwrap() * 8 < ADDRESS_LIMIT,
        None => true,
    })
}

/// Every block starts after the object start, counts at least one field
/// and ends no further than one field past `limit`.
pub open spec fn blocks_bounded(blocks: Seq<OopMapBlock>, start: u64, limit: int) -> bool {
    forall|k: int|
        0 <= k < blocks.len() ==> {
            let b = #[trigger] blocks[k];
            &&& b.count >= 1
            &&& b.offset >= 16
            &&& start + b.offset + b.count * 8 <= limit + 8
            &&& start + b.offset < limit + 8
        }
}

/// Block `b` of an object at `start` covers address `a`: `a` is one of
/// its fields.
pub open spec fn block_covers(b: OopMapBlock, start: u64, a: u64) -> bool {
    exists|i: int| 0 <= i < b.count && a == #[trigger] block_field(b, start, i)
}

/// The address of the `i`-th field of block `b` of an object at `start`.
pub open spec fn block_field(b: OopMapBlock, start: u64, i: int) -> int {
    start + b.offset + 8 * i
}

/// `a` is a static field of the mirror `obj`: it lies in the range that
/// starts at `instance_mirror_start` and holds `instance_mirror_count`
/// words.
pub open spec fn static_field_of(obj: HeapObject, a: u64) -> bool {
    match (obj.instance_mirror_start, obj.instance_mirror_count) {
        (Some(s), Some(c)) => s <= a && a < s + 8 * c,
        _ => false,
    }
}

/// Block `k + 1` of `bs` does not start where block `k` ends.
pub open spec fn blocks_apart(bs: Seq<OopMapBlock>, k: int) -> bool {
    bs[k + 1].offset != bs[k].offset + 8 * bs[k].count
}

proof fn lemma_blocks_cover_upto(obj: HeapObject, n: nat)
    requires
        object_encodable(obj),
        n <= obj.edges@.len(),
    ensures
        blocks_bounded(omb_upto(obj.edges@, obj.start, mirror_of(obj), n), obj.start, ADDRESS_LIMIT as int),
        forall|k: int, a: u64|
            0 <= k < omb_upto(obj.edges@, obj.start, mirror_of(obj), n).len() && #[trigger] block_covers(
                omb_upto(obj.edges@, obj.start, mirror_of(obj), n)[k],
                obj.start,
                a,
            ) ==> exists|j: int| 0 <= j < n && (#[trigger] obj.edges@[j]).slot == a && !static_field_of(obj, a),
        forall|j: int|
            0 <= j < n && !static_field_of(obj, (#[trigger] obj.edges@[j]).slot) ==> exists|k: int|
                0 <= k < omb_upto(obj.edges@, obj.start, mirror_of(obj), n).len() && #[trigger] block_covers(
                    omb_upto(obj.edges@, obj.start, mirror_of(obj), n)[k],
                    obj.start,
                    obj.edges@[j].slot,
                ),
        forall|k: int|
            0 <= k && k + 1 < omb_upto(obj.edges@, obj.start, mirror_of(obj), n).len() ==> #[trigger] blocks_apart(
                omb_upto(obj.edges@, obj.start, mirror_of(obj), n),
                k,
            ),
    decreases n,
{
    let m = mirror_of(obj);
    if n > 0 {
        lemma_blocks_cover_upto(obj, (n - 1) as nat);
        let prev = omb_upto(obj.edges@, obj.start, m, (n - 1) as nat);
        let cur = omb_upto(obj.edges@, obj.start, m, n);
        let slot = obj.edges@[n - 1].slot;
        assert(obj.start + 16 <= slot < ADDRESS_LIMIT);
        assert(in_mirror(m, slot) == static_field_of(obj, slot));
        if in_mirror(m, slot) {
            assert(cur == prev);
        } else if prev.len() > 0 && slot == obj.start + prev.last().offset + prev.last().count * 8 {
            let l = prev.last();
            let nl = OopMapBlock { offset: l.offset, count: (l.count + 1) as u64 };
            assert(cur == prev.update(prev.len() - 1, nl));
            assert forall|k: int| 0 <= k && k + 1 < cur.len() implies #[trigger] blocks_apart(cur, k) by {
                assert(blocks_apart(prev, k));
            }
            assert forall|k: int, a: u64|
                0 <= k < cur.len() && #[trigger] block_covers(cur[k], obj.start, a) implies exists|j: int|
                0 <= j < n && (#[trigger] obj.edges@[j]).slot == a && !static_field_of(obj, a) by {
                if k < prev.len() - 1 {
                    assert(cur[k] == prev[k]);
                    let j = choose|j: int| 0 <= j < n - 1 && (#[trigger] obj.edges@[j]).slot == a && !static_field_of(obj, a);
                    assert(obj.edges@[j].slot == a);
                } else {
                    let i = choose|i: int| 0 <= i < nl.count && a == #[trigger] block_field(nl, obj.start, i);
                    assert(a == block_field(l, obj.start, i));
                    if i < l.count {
                        assert(block_covers(prev[k], obj.start, a));
                        let j = choose|j: int| 0 <= j < n - 1 && (#[trigger] obj.edges@[j]).slot == a && !static_field_of(obj, a);
                        assert(obj.edges@[j].slot == a);
                    } else {
                        assert(obj.edges@[n - 1].slot == a);
                    }
                }
            }
            assert forall|j: int|
                0 <= j < n && !static_field_of(obj, (#[trigger] obj.edges@[j]).slot) implies exists|k: int|
                    0 <= k < cur.len() && #[trigger] block_covers(cur[k], obj.start, obj.edges@[j].slot) by {
                let a = obj.edges@[j].slot;
                if j < n - 1 {
                    let k = choose|k: int| 0 <= k < prev.len() && #[trigger] block_covers(prev[k], obj.start, a);
                    if k < prev.len() - 1 {
                        assert(cur[k] == prev[k]);
                    } else {
                        let i = choose|i: int| 0 <= i < l.count && a == #[trigger] block_field(l, obj.start, i);
                        assert(a == block_field(nl, obj.start, i));
                        assert(block_covers(cur[k], obj.start, a));
                    }
                } else {
                    assert(a == block_field(nl, obj.start, l.count as int));
                    assert(block_covers(cur[prev.len() - 1], obj.start, a));
                }
            }
        } else {
            let nb = OopMapBlock { offset: (slot - obj.start) as u64, count: 1 };
            assert(cur == prev.push(nb));
            assert forall|k: int| 0 <= k && k + 1 < cur.len() implies #[trigger] blocks_apart(cur, k) by {
                if k + 1 < prev.len() {
                    assert(blocks_apart(prev, k));
                } else {
                    assert(cur[k + 1] == nb);
                    assert(cur[k] == prev.last());
                }
            }
            assert forall|k: int, a: u64|
                0 <= k < cur.len() && #[trigger] block_covers(cur[k], obj.start, a) implies exists|j: int|
                0 <= j < n && (#[trigger] obj.edges@[j]).slot == a && !static_field_of(obj, a) by {
                if k < prev.len() {
                    assert(cur[k] == prev[k]);
                    let j = choose|j: int| 0 <= j < n - 1 && (#[trigger] obj.edges@[j]).slot == a && !static_field_of(obj, a);
                    assert(obj.edges@[j].slot == a);
                } else {
                    assert(obj.edges@[n - 1].slot == a);
                }
            }
            assert forall|j: int|
                0 <= j < n && !static_field_of(obj, (#[trigger] obj.edges@[j]).slot) implies exists|k: int|
                    0 <= k < cur.len() && #[trigger] block_covers(cur[k], obj.start, obj.edges@[j].slot) by {
                let a = obj.edges@[j].slot;
                if j < n - 1 {
                    let k = choose|k: int| 0 <= k < prev.len() && #[trigger] block_covers(prev[k], obj.start, a);
                    assert(cur[k] == prev[k]);
                } else {
                    assert(a == block_field(nb, obj.start, 0));
                    assert(block_covers(cur[prev.len() as int], obj.start, a));
                }
            }
        }
    }
}

/// The oop map blocks of an object cover exactly its fields that are not
/// static fields of a mirror: every address a block covers is the slot of
/// one of its edges and lies outside the mirror's static range, and every
/// edge slot outside that range is covered by some block.  A block is as
/// long as the run of fields allows: the next block never starts where it
/// ends.
pub proof fn lemma_blocks_cover_instance_fields(obj: HeapObject)
    requires
        object_encodable(obj),
    ensures
        forall|k: int, a: u64|
            0 <= k < encoded_blocks(obj).len() && #[trigger] block_covers(encoded_blocks(obj)[k], obj.start, a) ==> (exists|j: int|
                0 <= j < obj.edges@.len() && (#[trigger] obj.edges@[j]).slot == a) && !static_field_of(obj, a),
        forall|j: int|
            0 <= j < obj.edges@.len() && !static_field_of(obj, (#[trigger] obj.edges@[j]).slot) ==> exists|k: int|
                0 <= k < encoded_blocks(obj).len() && #[trigger] block_covers(encoded_blocks(obj)[k], obj.start, obj.edges@[j].slot),
        forall|k: int| 0 <= k && k + 1 < encoded_blocks(obj).len() ==> #[trigger] blocks_apart(encoded_blocks(obj), k),
{
    lemma_blocks_cover_upto(obj, obj.edges@.len());
    let bs = encoded_blocks(obj);
    assert forall|k: int, a: u64|
        0 <= k < bs.len() && #[trigger] block_covers(bs[k], obj.start, a) implies (exists|j: int|
            0 <= j < obj.edges@.len() && (#[trigger] obj.edges@[j]).slot == a) && !static_field_of(obj, a) by {
        let j = choose|j: int| 0 <= j < obj.edges@.len() && (#[trigger] obj.edges@[j]).slot == a && !static_field_of(obj, a);
    }
}

impl Tib {
    /// Groups the reference fields of `obj` (other than the static fields
    /// of a mirror) into runs of consecutive slots.
    pub fn encode_oop_map_blocks(obj: &HeapObject) -> (r: Vec<OopMapBlock>)
        requires
            object_encodable(*obj),
        ensures
            r@ == encoded_blocks(*obj),
            blocks_bounded(r@, obj.start, ADDRESS_LIMIT as int),
    {
        let mut oop_map_blocks: Vec<OopMapBlock> = Vec::new();
        let mirror: Option<(u64, u64)> = match obj.instance_mirror_start {
            Some(s) => Some((s, *obj.instance_mirror_count.as_ref().unwrap())),
            None => None,
        };
        assert(mirror == mirror_of(*obj));
        let mut j: usize = 0;
        while j < obj.edges.len()
            invariant
                object_encodable(*obj),
                mirror == mirror_of(*obj),
                j <= obj.edges@.len(),
                oop_map_blocks@ == omb_upto(obj.edges@, obj.start, mirror, j as nat),
                blocks_bounded(oop_map_blocks@, obj.start, ADDRESS_LIMIT as int),
            decreases obj.edges@.len() - j,
        {
            let e = obj.edges[j];
            assert(obj.start + 16 <= obj.edges@[j as int].slot < ADDRESS_LIMIT);
            let mut skip = false;
            if let Some((start, count)) = mirror {
                if e.slot >= start && e.slot < start + count * 8 {
                    skip = true;
                }
            }
            if !skip {
                let n = oop_map_blocks.len();
                let mut extended = false;
                if n > 0 {
                    let o = oop_map_blocks[n - 1];
                    assert(blocks_bounded(oop_map_blocks@, obj.start, ADDRESS_LIMIT as int));
                    assert(oop_map_blocks@[n - 1] == o);
                    if e.slot == obj.start + o.offset + o.count * 8 {
                        oop_map_blocks.set(n - 1, OopMapBlock { offset: o.offset, count: o.count + 1 });
                        extended = true;
                    }
                }
                if !extended {
                    oop_map_blocks.push(OopMapBlock { offset: e.slot - obj.start, count: 1 });
                }
            }
            proof {
                assert(obj.edges@[j as int] == e);
                assert(omb_upto(obj.edges@, obj.start, mirror, (j + 1) as nat) == omb_step(
                    omb_upto(obj.edges@, obj.start, mirror, j as nat),
                    obj.start,
                    mirror,
                    e.slot,
                ));
                assert forall|k: int| 0 <= k < oop_map_blocks@.len() implies {
                    let b = #[trigger] oop_map_blocks@[k];
                    &&& b.count >= 1
                    &&& b.offset >= 16
                    &&& obj.start + b.offset + b.count * 8 <= ADDRESS_LIMIT + 8
                    &&& obj.start + b.offset < ADDRESS_LIMIT + 8
                } by {}
            }
            j += 1;
        }
        oop_map_blocks
    }
}

/// Index of the first field of a block, counting from the first field after
/// the header and TIB words.
pub open spec fn first_field(b: OopMapBlock) -> int {
    (b.offset >> 3u64) - 2
}

/// A block whose fields reach past field 6 cannot be alignment encoded.
pub open spec fn block_out_of_range(b: OopMapBlock) -> bool {
    first_field(b) > 6 || first_field(b) + b.count - 1 > 6
}

/// The fields of a block.
pub open spec fn block_fields(b: OopMapBlock) -> Set<int> {
    Set::new(|i: int| first_field(b) <= i < first_field(b) + b.count)
}

/// The fields of the first `n` blocks.
pub open spec fn fields_upto(ombs: Seq<OopMapBlock>, n: nat) -> Set<int>
    decreases n,
{
    if n == 0 {
        Set::empty()
    } else {
        fields_upto(ombs, (n - 1) as nat).union(block_fields(ombs[n - 1]))
    }
}

/// The pattern for a set of fields, given as a bit mask.
pub open spec fn pattern_of_mask(m: nat) -> AlignmentEncodingPattern {
    if m == 0 {
        AlignmentEncodingPattern::NoRef
    } else if m == 1 {
        AlignmentEncodingPattern::Ref0
    } else if m == 3 {
        AlignmentEncodingPattern::Ref0_1
    } else if m == 4 {
        AlignmentEncodingPattern::Ref2
    } else if m == 14 {
        AlignmentEncodingPattern::Ref1_2_3
    } else if m == 112 {
        AlignmentEncodingPattern::Ref4_5_6
    } else {
        AlignmentEncodingPattern::Fallback
    }
}

/// The pattern that encodes the fields of `ombs`: `Fallback` when a block
/// reaches past field 6 or no pattern has exactly these fields.
pub open spec fn encode_pattern(ombs: Seq<OopMapBlock>) -> AlignmentEncodingPattern {
    if exists|k: int| 0 <= k < ombs.len() && block_out_of_range(#[trigger] ombs[k]) {
        AlignmentEncodingPattern::Fallback
    } else {
        pattern_of_mask(bits_value(fields_upto(ombs, ombs.len()), 7))
    }
}

/// Blocks that start after the header and TIB words and count at least one
/// field, in an address range that cannot overflow.
pub open spec fn blocks_encodable(ombs: Seq<OopMapBlock>) -> bool {
    forall|k: int|
        0 <= k < ombs.len() ==> {
            let b = #[trigger] ombs[k];
            &&& b.offset >= 16
            &&& 1 <= b.count < ADDRESS_LIMIT
        }
}

proof fn lemma_bits_value_high_clear(s: Set<int>, n: nat)
    requires
        n >= 7,
        forall|i: int| #[trigger] s.contains(i) ==> 0 <= i < 7,
    ensures
        bits_value(s, n) == bits_value(s, 7),
    decreases n,
{
    if n > 7 {
        lemma_bits_value_high_clear(s, (n - 1) as nat);
    }
}

impl Tib {
    /// The alignment-encoding pattern of a list of oop map blocks.
    pub fn alignment_encode_omb(ombs: &[OopMapBlock]) -> (r: AlignmentEncodingPattern)
        requires
            blocks_encodable(ombs@),
        ensures
            r == encode_pattern(ombs@),
    {
        let mut fields = bitset_with_capacity(7);
        let mut k: usize = 0;
        while k < ombs.len()
            invariant
                blocks_encodable(ombs@),
                k <= ombs@.len(),
                bitset_len(fields) == 7,
                bitset_ones(fields) == fields_upto(ombs@, k as nat),
                forall|i: int| #[trigger] bitset_ones(fields).contains(i) ==> 0 <= i < 7,
                forall|q: int| 0 <= q < k ==> !block_out_of_range(#[trigger] ombs@[q]),
            decreases ombs@.len() - k,
        {
            let omb = ombs[k];
            assert(ombs@[k as int] == omb);
            let off = omb.offset;
            assert(off >= 16 ==> (off >> 3u64) >= 2 && (off >> 3u64) <= 0x1fff_ffff_ffff_ffffu64) by (bit_vector);
            let first = (omb.offset >> 3) - 2;
            let last = first + omb.count - 1;
            assert(first as int == first_field(omb));
            if first > 6 || last > 6 {
                assert(block_out_of_range(ombs@[k as int]));
                return AlignmentEncodingPattern::Fallback;
            }
            bitset_enable_range(&mut fields, first as usize, (first + omb.count) as usize);
            proof {
                assert(Set::new(|i: int| first <= i < first + omb.count) =~= block_fields(omb));
                assert(fields_upto(ombs@, (k + 1) as nat) == fields_upto(ombs@, k as nat).union(
                    block_fields(ombs@[k as int]),
                ));
            }
            k += 1;
        }
        let bits = bitset_first_block(&fields);
        proof {
            lemma_bits_value_high_clear(bitset_ones(fields), 32);
            assert(!(exists|q: int| 0 <= q < ombs@.len() && block_out_of_range(#[trigger] ombs@[q])));
        }
        match bits {
            0b0000000 => AlignmentEncodingPattern::NoRef,
            0b0000001 => AlignmentEncodingPattern::Ref0,
            0b0000011 => AlignmentEncodingPattern::Ref0_1,
            0b0000100 => AlignmentEncodingPattern::Ref2,
            0b0001110 => AlignmentEncodingPattern::Ref1_2_3,
            0b1110000 => AlignmentEncodingPattern::Ref4_5_6,
            _ => AlignmentEncodingPattern::Fallback,
        }
    }
}


/// The chunk of slots of one oop map block of the object at `o`.
pub open spec fn block_chunk(o: u64) -> spec_fn(OopMapBlock) -> SlotChunk {
    |b: OopMapBlock| (o.wrapping_add(b.offset), b.count)
}

/// The slots of an object array at `o`: the array length is its third word,
/// the elements follow.
pub open spec fn array_chunk(mem: Map<u64, u64>, o: u64) -> SlotChunk {
    (o.wrapping_add(24), word_at(mem, o.wrapping_add(16)))
}

/// The slots of object `o` as its TIB lists them.
pub open spec fn fallback_chunks(tib: Tib, mem: Map<u64, u64>, o: u64) -> Seq<SlotChunk> {
    match tib.ttype {
        TibType::ObjArray => seq![array_chunk(mem, o)],
        TibType::InstanceMirror => tib.oop_map_blocks@.map_values(block_chunk(o)).push(
            tib.instance_mirror_info.unwrap(),
        ),
        TibType::Ordinary => tib.oop_map_blocks@.map_values(block_chunk(o)),
    }
}

/// The slots of object `o` as alignment pattern `p` gives them.
pub open spec fn pattern_chunks(p: AlignmentEncodingPattern, mem: Map<u64, u64>, o: u64) -> Seq<SlotChunk> {
    match p {
        AlignmentEncodingPattern::RefArray => seq![array_chunk(mem, o)],
        AlignmentEncodingPattern::Ref0 => seq![(o.wrapping_add(16), 1u64)],
        AlignmentEncodingPattern::Ref1_2_3 => seq![(o.wrapping_add(24), 3u64)],
        AlignmentEncodingPattern::Ref4_5_6 => seq![(o.wrapping_add(48), 3u64)],
        AlignmentEncodingPattern::Ref2 => seq![(o.wrapping_add(32), 1u64)],
        AlignmentEncodingPattern::Ref0_1 => seq![(o.wrapping_add(16), 2u64)],
        _ => Seq::empty(),
    }
}

/// The TIB pointer of object `o`.
pub open spec fn tib_of(mem: Map<u64, u64>, o: u64) -> u64 {
    word_at(mem, o.wrapping_add(8))
}

/// Each non-mirror klass maps to the address of its TIB, and each TIB
/// address to its record.
pub struct OpenJDKObjectModel<const AE: bool> {
    objects: Vec<u64>,
    roots: Vec<u64>,
    object_sizes: HashMap<u64, u64>,
    klass_tibs: HashMap<u64, u64>,
    tib_records: HashMap<u64, Tib>,
}

impl<const AE: bool> OpenJDKObjectModel<AE> {
    /// Every TIB record is well formed and every cached klass has a record.
    pub closed spec fn wf(&self) -> bool {
        &&& forall|a: u64| #[trigger] self.tib_records@.contains_key(a) ==> tib_wf(self.tib_records@[a])
        &&& forall|k: u64| #[trigger] self.klass_tibs@.contains_key(k) ==> self.tib_records@.contains_key(
            self.klass_tibs@[k],
        ) && self.klass_tibs@[k] != 0
    }

    /// The TIB records, by address.
    pub closed spec fn tibs(&self) -> Map<u64, Tib> {
        self.tib_records@
    }

    /// The cached TIB address of each klass.
    pub closed spec fn klass_cache(&self) -> Map<u64, u64> {
        self.klass_tibs@
    }

    /// An empty model.
    pub fn new() -> (r: Self)
        ensures
            r.wf(),
            r.objects_spec() == Seq::<u64>::empty(),
            r.roots_spec() == Seq::<u64>::empty(),
            r.sizes_spec() == Map::<u64, u64>::empty(),
            r.tibs() == Map::<u64, Tib>::empty(),
            r.klass_cache() == Map::<u64, u64>::empty(),
    {
        OpenJDKObjectModel {
            objects: Vec::new(),
            roots: Vec::new(),
            object_sizes: HashMap::new(),
            klass_tibs: HashMap::new(),
            tib_records: HashMap::new(),
        }
    }
}


/// The arena has room for `n` more TIB allocations, and its addresses are
/// not null.
pub open spec fn arena_room(arena: BumpAllocationArena, n: nat) -> bool {
    &&& arena.cursor() + n * (TIB_ALLOC_BYTES + arena.alignment()) <= arena.limit()
    &&& TIB_ALLOC_BYTES + arena.alignment() - 1 <= usize::MAX
    &&& arena.host_base() > 0
    &&& arena.alignment() > 0
}

/// Only the cursor of the arena moved.
pub open spec fn arena_advanced(before: BumpAllocationArena, after: BumpAllocationArena) -> bool {
    &&& after.base() == before.base()
    &&& after.limit() == before.limit()
    &&& after.host_base() == before.host_base()
    &&& after.alignment() == before.alignment()
    &&& before.cursor() <= after.cursor()
}

/// Host address of the arena's next free byte.
pub open spec fn host_cursor(arena: BumpAllocationArena) -> int {
    arena.host_base() + (arena.cursor() - arena.base())
}

/// Host address of the end of the arena.
pub open spec fn host_end(arena: BumpAllocationArena) -> int {
    arena.host_base() + (arena.limit() - arena.base())
}

proof fn lemma_room_after_alloc(before: BumpAllocationArena, after: BumpAllocationArena, n: nat, used: int)
    requires
        arena_room(before, n + 1),
        arena_advanced(before, after),
        after.cursor() <= before.cursor() + used,
        used <= TIB_ALLOC_BYTES + before.alignment(),
    ensures
        arena_room(after, n),
{
    let per = TIB_ALLOC_BYTES + before.alignment();
    assert((n + 1) * per == n * per + per) by (nonlinear_arith);
}

proof fn lemma_room_monotone(arena: BumpAllocationArena, n: nat, m: nat)
    requires
        arena_room(arena, n),
        m <= n,
    ensures
        arena_room(arena, m),
{
    let per = TIB_ALLOC_BYTES + arena.alignment();
    assert(m * per <= n * per) by (nonlinear_arith)
        requires
            m <= n,
            per >= 0,
    ;
}

/// Every address of the arena's host range is known to `memif`.
pub open spec fn arena_translatable<M: MemoryInterface>(memif: &M, arena: BumpAllocationArena) -> bool {
    forall|a: u64|
        arena.host_base() <= a < arena.host_base() + (arena.limit() - arena.base()) ==> #[trigger] memif.translatable(a)
}

/// Every word that restoring `obj` writes is known to `memif`.
pub open spec fn object_translatable<M: MemoryInterface>(memif: &M, obj: HeapObject) -> bool {
    &&& memif.translatable((obj.start + 8) as u64)
    &&& obj.objarray_length is Some ==> memif.translatable((obj.start + 16) as u64)
    &&& forall|j: int|
        0 <= j < obj.edges@.len() ==> memif.translatable((#[trigger] obj.edges@[j]).slot) && (obj.edges@[j].objref
            != 0 ==> memif.translatable(obj.edges@[j].objref))
}

/// A heap dump whose objects can be restored with `memif`.
pub open spec fn dump_restorable<M: MemoryInterface>(memif: &M, hd: HeapDump) -> bool {
    forall|i: int|
        0 <= i < hd.objects@.len() ==> object_encodable(#[trigger] hd.objects@[i]) && hd.objects@[i].start
            < ADDRESS_LIMIT && object_translatable(memif, hd.objects@[i])
}

/// The sizes map after recording the first `n` objects.
pub open spec fn sizes_after(m: Map<u64, u64>, objs: Seq<HeapObject>, n: nat) -> Map<u64, u64>
    decreases n,
{
    if n == 0 {
        m
    } else {
        sizes_after(m, objs, (n - 1) as nat).insert(objs[n - 1].start, objs[n - 1].size)
    }
}

impl<const AE: bool> OpenJDKObjectModel<AE> {
    /// Places `tib` in the arena, at an address that encodes `align_code`
    /// when one is given.
    fn alloc_tib(&mut self, tib: Tib, align_code: Option<u8>, arena: &mut BumpAllocationArena) -> (r: u64)
        requires
            old(self).wf(),
            tib_wf(tib),
            align_code matches Some(a) ==> a < 8,
            arena_room(*old(arena), 1),
        ensures
            final(self).wf(),
            final(self).tibs() == old(self).tibs().insert(r, tib),
            final(self).klass_cache() == old(self).klass_cache(),
            final(self).objects_spec() == old(self).objects_spec(),
            final(self).roots_spec() == old(self).roots_spec(),
            final(self).sizes_spec() == old(self).sizes_spec(),
            r != 0,
            align_code matches Some(a) ==> region_code(r) == a,
            arena_advanced(*old(arena), *final(arena)),
            final(arena).cursor() <= old(arena).cursor() + TIB_ALLOC_BYTES + old(arena).alignment(),
            old(arena).host_base() <= r < old(arena).host_base() + (old(arena).limit() - old(arena).base()),
            host_cursor(*old(arena)) <= r < host_cursor(*final(arena)),
    {
        let padded_word_size = get_padded_word_size(TIB_WORDS, align_code);
        let bytes = (padded_word_size * BYTES_IN_WORD) as usize;
        assert(bytes <= TIB_ALLOC_BYTES);
        let ghost before = *arena;
        let (_backing, host) = arena.allocate(bytes);
        proof {
            crate::memif::lemma_align_up_bound(bytes as int, before.alignment() as int);
        }
        let mut region = host;
        if let Some(a) = align_code {
            region = find_aligned_region(host, a);
        }
        self.tib_records.insert(region, tib);
        region
    }

    /// The TIB address cached for `klass`, placing `tib` first if there is none.
    fn insert_with_cache(
        &mut self,
        klass: u64,
        tib: Tib,
        align_code: Option<u8>,
        arena: &mut BumpAllocationArena,
    ) -> (r: u64)
        requires
            old(self).wf(),
            tib_wf(tib),
            align_code matches Some(a) ==> a < 8,
            arena_room(*old(arena), 1),
        ensures
            final(self).wf(),
            old(self).klass_cache().contains_key(klass) ==> r == old(self).klass_cache()[klass]
                && final(self).tibs() == old(self).tibs() && final(self).klass_cache() == old(self).klass_cache()
                && *final(arena) == *old(arena),
            !old(self).klass_cache().contains_key(klass) ==> final(self).tibs() == old(self).tibs().insert(r, tib)
                && final(self).klass_cache() == old(self).klass_cache().insert(klass, r)
                && (align_code matches Some(a) ==> region_code(r) == a),
            final(self).tibs().contains_key(r),
            forall|a: u64| a != r ==> (#[trigger] final(self).tibs().contains_key(a) == old(self).tibs().contains_key(a))
                && (old(self).tibs().contains_key(a) ==> final(self).tibs()[a] == old(self).tibs()[a]),
            final(self).objects_spec() == old(self).objects_spec(),
            final(self).roots_spec() == old(self).roots_spec(),
            final(self).sizes_spec() == old(self).sizes_spec(),
            r != 0,
            arena_advanced(*old(arena), *final(arena)),
            final(arena).cursor() <= old(arena).cursor() + TIB_ALLOC_BYTES + old(arena).alignment(),
            old(self).klass_cache().contains_key(klass) || (old(arena).host_base() <= r < old(arena).host_base() + (old(arena).limit() - old(arena).base())),
            old(self).klass_cache().contains_key(klass) || host_cursor(*old(arena)) <= r < host_cursor(*final(arena)),
    {
        match self.klass_tibs.get(&klass) {
            Some(a) => {
                return *a;
            },
            None => {},
        }
        let r = self.alloc_tib(tib, align_code, arena);
        self.klass_tibs.insert(klass, r);
        r
    }
}


impl<const AE: bool> OpenJDKObjectModel<AE> {
    /// The (cached) TIB of object arrays of `klass`.
    fn objarray_tib(&mut self, klass: u64, arena: &mut BumpAllocationArena) -> (r: u64)
        requires
            old(self).wf(),
            arena_room(*old(arena), 1),
        ensures
            final(self).wf(),
            final(self).klass_cache() == old(self).klass_cache().insert(klass, r),
            old(self).klass_cache().contains_key(klass) ==> r == old(self).klass_cache()[klass],
            final(self).klass_cache().contains_key(klass),
            final(self).tibs().contains_key(r),
            final(self).tibs()[r].ttype == TibType::ObjArray || old(self).klass_cache().contains_key(klass),
            !old(self).klass_cache().contains_key(klass) && AE ==> region_code(r) == 6,
            old(self).klass_cache().contains_key(klass) ==> final(self).tibs() == old(self).tibs(),
            forall|a: u64| a != r ==> (#[trigger] final(self).tibs().contains_key(a) == old(self).tibs().contains_key(a))
                && (old(self).tibs().contains_key(a) ==> final(self).tibs()[a] == old(self).tibs()[a]),
            final(self).objects_spec() == old(self).objects_spec(),
            final(self).roots_spec() == old(self).roots_spec(),
            final(self).sizes_spec() == old(self).sizes_spec(),
            r != 0,
            arena_advanced(*old(arena), *final(arena)),
            final(arena).cursor() <= old(arena).cursor() + TIB_ALLOC_BYTES + old(arena).alignment(),
            old(self).klass_cache().contains_key(klass) || (old(arena).host_base() <= r < old(arena).host_base() + (old(arena).limit() - old(arena).base())),
            old(self).klass_cache().contains_key(klass) || host_cursor(*old(arena)) <= r < host_cursor(*final(arena)),
    {
        let tib = Tib { ttype: TibType::ObjArray, oop_map_blocks: Vec::new(), instance_mirror_info: None };
        let code: Option<u8> = if AE {
            Some(AlignmentEncodingPattern::RefArray.code())
        } else {
            None
        };
        self.insert_with_cache(klass, tib, code, arena)
    }

    /// The TIB of the non-array object `obj` of `klass`: cached per klass,
    /// except for instance mirrors, whose static fields differ per object.
    fn non_objarray_tib(&mut self, klass: u64, obj: &HeapObject, arena: &mut BumpAllocationArena) -> (r: u64)
        requires
            old(self).wf(),
            arena_room(*old(arena), 1),
            object_encodable(*obj),
        ensures
            final(self).wf(),
            obj.instance_mirror_start is None ==> final(self).klass_cache() == old(self).klass_cache().insert(klass, r),
            obj.instance_mirror_start is Some ==> final(self).klass_cache() == old(self).klass_cache(),
            obj.instance_mirror_start is None && old(self).klass_cache().contains_key(klass) ==> r == old(self).klass_cache()[klass],
            final(self).tibs().contains_key(r),
            (obj.instance_mirror_start is None && old(self).klass_cache().contains_key(klass)) ==> final(self).tibs() == old(self).tibs(),
            forall|a: u64| a != r ==> (#[trigger] final(self).tibs().contains_key(a) == old(self).tibs().contains_key(a))
                && (old(self).tibs().contains_key(a) ==> final(self).tibs()[a] == old(self).tibs()[a]),
            (obj.instance_mirror_start is Some || !old(self).klass_cache().contains_key(klass)) ==> ({
                let t = final(self).tibs()[r];
                &&& t.oop_map_blocks@ == encoded_blocks(*obj)
                &&& t.ttype == (if obj.instance_mirror_start is Some { TibType::InstanceMirror } else { TibType::Ordinary })
                &&& t.instance_mirror_info == mirror_of(*obj)
                &&& AE ==> region_code(r) == pattern_code(encode_pattern(encoded_blocks(*obj)))
            }),
            final(self).objects_spec() == old(self).objects_spec(),
            final(self).roots_spec() == old(self).roots_spec(),
            final(self).sizes_spec() == old(self).sizes_spec(),
            r != 0,
            arena_advanced(*old(arena), *final(arena)),
            final(arena).cursor() <= old(arena).cursor() + TIB_ALLOC_BYTES + old(arena).alignment(),
            (obj.instance_mirror_start is None && old(self).klass_cache().contains_key(klass)) || (old(arena).host_base() <= r < old(arena).host_base() + (old(arena).limit() - old(arena).base())),
            (obj.instance_mirror_start is None && old(self).klass_cache().contains_key(klass)) || host_cursor(*old(arena)) <= r < host_cursor(*final(arena)),
    {
        let ombs = Tib::encode_oop_map_blocks(obj);
        let align_code: Option<u8> = if AE {
            Some(Tib::alignment_encode_omb(ombs.as_slice()).code())
        } else {
            None
        };
        match obj.instance_mirror_start {
            Some(start) => {
                let count = *obj.instance_mirror_count.as_ref().unwrap();
                let tib = Tib {
                    ttype: TibType::InstanceMirror,
                    oop_map_blocks: ombs,
                    instance_mirror_info: Some((start, count)),
                };
                self.alloc_tib(tib, align_code, arena)
            },
            None => {
                let tib = Tib { ttype: TibType::Ordinary, oop_map_blocks: ombs, instance_mirror_info: None };
                self.insert_with_cache(klass, tib, align_code, arena)
            },
        }
    }

    /// Places the TIB of every klass of `heapdump` that has none yet
    /// (instance mirrors excepted) and returns how many were placed.
    pub fn restore_tibs(&mut self, heapdump: &HeapDump, tib_arena: &mut BumpAllocationArena) -> (r: usize)
        requires
            old(self).wf(),
            old(self).records_clear(*old(tib_arena)),
            arena_room(*old(tib_arena), heapdump.objects@.len()),
            forall|i: int| 0 <= i < heapdump.objects@.len() ==> object_encodable(#[trigger] heapdump.objects@[i]),
        ensures
            final(self).wf(),
            final(self).records_clear(*final(tib_arena)),
            forall|k: u64| #[trigger] final(self).klass_cache().contains_key(k) && !old(self).klass_cache().contains_key(k)
                ==> old(tib_arena).host_base() <= final(self).klass_cache()[k] < host_end(*old(tib_arena)),
            r == final(self).klass_cache().len() - old(self).klass_cache().len(),
            forall|k: u64| #[trigger] old(self).klass_cache().contains_key(k) ==> final(self).klass_cache().contains_key(k)
                && final(self).klass_cache()[k] == old(self).klass_cache()[k],
            forall|i: int|
                0 <= i < heapdump.objects@.len() && (heapdump.objects@[i].objarray_length is Some
                    || heapdump.objects@[i].instance_mirror_start is None) ==> final(self).klass_cache().contains_key(
                    #[trigger] heapdump.objects@[i].klass,
                ),
            forall|k: u64| #[trigger] final(self).klass_cache().contains_key(k) ==> old(self).klass_cache().contains_key(k)
                || exists|i: int|
                0 <= i < heapdump.objects@.len() && (#[trigger] heapdump.objects@[i]).klass == k && (
                heapdump.objects@[i].objarray_length is Some || heapdump.objects@[i].instance_mirror_start is None),
            final(self).objects_spec() == old(self).objects_spec(),
            final(self).roots_spec() == old(self).roots_spec(),
            final(self).sizes_spec() == old(self).sizes_spec(),
            arena_advanced(*old(tib_arena), *final(tib_arena)),
    {
        let before_size = self.klass_tibs.len();
        let ghost n = heapdump.objects@.len();
        let mut i: usize = 0;
        while i < heapdump.objects.len()
            invariant
                self.wf(),
                self.records_clear(*tib_arena),
                forall|k: u64| #[trigger] self.klass_cache().contains_key(k) && !old(self).klass_cache().contains_key(k)
                    ==> old(tib_arena).host_base() <= self.klass_cache()[k] < host_end(*old(tib_arena)),
                n == heapdump.objects@.len(),
                i <= n,
                arena_room(*tib_arena, (n - i) as nat),
                arena_advanced(*old(tib_arena), *tib_arena),
                before_size == old(self).klass_cache().len(),
                forall|j: int| 0 <= j < n ==> object_encodable(#[trigger] heapdump.objects@[j]),
                forall|k: u64| #[trigger] old(self).klass_cache().contains_key(k) ==> self.klass_cache().contains_key(k)
                    && self.klass_cache()[k] == old(self).klass_cache()[k],
                forall|j: int|
                    0 <= j < i && (heapdump.objects@[j].objarray_length is Some
                        || heapdump.objects@[j].instance_mirror_start is None) ==> self.klass_cache().contains_key(
                        #[trigger] heapdump.objects@[j].klass,
                    ),
                forall|k: u64| #[trigger] self.klass_cache().contains_key(k) ==> old(self).klass_cache().contains_key(k)
                    || exists|j: int|
                    0 <= j < n && (#[trigger] heapdump.objects@[j]).klass == k && (heapdump.objects@[j].objarray_length
                        is Some || heapdump.objects@[j].instance_mirror_start is None),
                self.objects_spec() == old(self).objects_spec(),
                self.roots_spec() == old(self).roots_spec(),
                self.sizes_spec() == old(self).sizes_spec(),
            decreases n - i,
        {
            let object = &heapdump.objects[i];
            let ghost arena_before = *tib_arena;
            let ghost cache_before = self.klass_cache();
            let ghost self_before = *self;
            proof {
                lemma_room_monotone(*tib_arena, (n - i) as nat, 1);
            }
            if object.objarray_length.is_some() {
                let _tib = self.objarray_tib(object.klass, tib_arena);
            } else if object.instance_mirror_start.is_none() {
                let _tib = self.non_objarray_tib(object.klass, object, tib_arena);
            }
            proof {
                lemma_room_after_alloc(arena_before, *tib_arena, (n - i - 1) as nat,
                    TIB_ALLOC_BYTES + arena_before.alignment());
                assert forall|k: u64| #[trigger] self.klass_cache().contains_key(k) implies old(self).klass_cache().contains_key(k)
                    || exists|j: int|
                    0 <= j < n && (#[trigger] heapdump.objects@[j]).klass == k && (heapdump.objects@[j].objarray_length
                        is Some || heapdump.objects@[j].instance_mirror_start is None) by {
                    if !cache_before.contains_key(k) {
                        assert(heapdump.objects@[i as int].klass == k);
                        assert(heapdump.objects@[i as int].objarray_length is Some
                            || heapdump.objects@[i as int].instance_mirror_start is None);
                    }
                }
                assert(host_cursor(*tib_arena) <= host_end(*tib_arena));
                assert forall|a: u64| #[trigger] self.tibs().contains_key(a) implies a < host_cursor(*tib_arena)
                    || a >= host_end(*tib_arena) by {
                    if self_before.tibs().contains_key(a) {
                        assert(a < host_cursor(arena_before) || a >= host_end(arena_before));
                    }
                }
            }
            i += 1;
        }
        proof {
            vstd::std_specs::hash::axiom_hashmap_view_finite_dom(self.klass_tibs);
            vstd::std_specs::hash::axiom_hashmap_view_finite_dom(old(self).klass_tibs);
            assert(old(self).klass_cache().dom().subset_of(self.klass_cache().dom()));
            vstd::set_lib::lemma_len_subset(old(self).klass_cache().dom(), self.klass_cache().dom());
        }
        let after_size = self.klass_tibs.len();
        after_size - before_size
    }
}

/// The target value of host pointer `p`; null stays null.
pub open spec fn target_value<M: MemoryInterface>(memif: &M, p: u64) -> u64 {
    if p == 0 {
        0
    } else {
        memif.target_address(p)
    }
}

/// Memory `m` after writing the first `n` reference fields of `edges`.
pub open spec fn write_edges<M: MemoryInterface>(m: Map<u64, u64>, memif: &M, edges: Seq<NormalEdge>, n: nat) -> Map<u64, u64>
    decreases n,
{
    if n == 0 {
        m
    } else {
        write_edges(m, memif, edges, (n - 1) as nat).insert(
            memif.backing_address(edges[n - 1].slot),
            target_value(memif, edges[n - 1].objref),
        )
    }
}

/// Memory `m` after restoring `obj` with its TIB at `tib`: the TIB
/// pointer, the array length of an array, and every reference field.
pub open spec fn write_object<M: MemoryInterface>(m: Map<u64, u64>, memif: &M, obj: HeapObject, tib: u64) -> Map<u64, u64> {
    let m1 = m.insert(memif.backing_address((obj.start + 8) as u64), target_value(memif, tib));
    let m2 = match obj.objarray_length {
        Some(l) => m1.insert(memif.backing_address((obj.start + 16) as u64), l),
        None => m1,
    };
    write_edges(m2, memif, obj.edges@, obj.edges@.len())
}

/// Memory `m` after restoring the first `n` objects, with the TIBs at `tibs`.
pub open spec fn restore_memory<M: MemoryInterface>(
    m: Map<u64, u64>,
    memif: &M,
    objs: Seq<HeapObject>,
    tibs: Seq<u64>,
    n: nat,
) -> Map<u64, u64>
    decreases n,
{
    if n == 0 {
        m
    } else {
        write_object(restore_memory(m, memif, objs, tibs, (n - 1) as nat), memif, objs[n - 1], tibs[n - 1])
    }
}

proof fn lemma_restore_memory_prefix<M: MemoryInterface>(
    m: Map<u64, u64>,
    memif: &M,
    objs: Seq<HeapObject>,
    t1: Seq<u64>,
    t2: Seq<u64>,
    n: nat,
)
    requires
        n <= t1.len(),
        n <= t2.len(),
        forall|i: int| 0 <= i < n ==> t1[i] == t2[i],
    ensures
        restore_memory(m, memif, objs, t1, n) == restore_memory(m, memif, objs, t2, n),
    decreases n,
{
    if n > 0 {
        lemma_restore_memory_prefix(m, memif, objs, t1, t2, (n - 1) as nat);
    }
}

impl<const AE: bool> OpenJDKObjectModel<AE> {
    /// No TIB record lies in the free part of `arena`.
    pub open spec fn records_clear(&self, arena: BumpAllocationArena) -> bool {
        forall|a: u64| #[trigger] self.tibs().contains_key(a) ==> a < host_cursor(arena) || a >= host_end(arena)
    }

    /// Every cached TIB address is known to `memif`.
    pub open spec fn cache_translatable<M: MemoryInterface>(&self, memif: &M) -> bool {
        forall|k: u64| #[trigger] self.klass_cache().contains_key(k) ==> memif.translatable(self.klass_cache()[k])
    }

    /// TIB record `t` at address `a` describes `obj`: a mirror has a
    /// record of its own, any other object the record cached for its klass.
    pub open spec fn describes(&self, a: u64, obj: HeapObject) -> bool {
        &&& self.tibs().contains_key(a)
        &&& a != 0
        &&& if obj.objarray_length is None && obj.instance_mirror_start is Some {
            let t = self.tibs()[a];
            &&& t.ttype == TibType::InstanceMirror
            &&& t.oop_map_blocks@ == encoded_blocks(obj)
            &&& t.instance_mirror_info == mirror_of(obj)
            &&& AE ==> region_code(a) == pattern_code(encode_pattern(encoded_blocks(obj)))
        } else {
            self.klass_cache().contains_key(obj.klass) && self.klass_cache()[obj.klass] == a
        }
    }

    /// Writes the objects of `heapdump` into `mem` through `memif`: for each
    /// object its TIB pointer, its array length if it is an array, and its
    /// reference fields; and records the objects, the roots and the sizes.
    pub fn restore_objects<M: MemoryInterface>(
        &mut self,
        heapdump: &HeapDump,
        memif: &M,
        mem: &mut TargetMemory,
        tib_arena: &mut BumpAllocationArena,
    )
        requires
            old(self).wf(),
            old(self).records_clear(*old(tib_arena)),
            old(self).cache_translatable(memif),
            arena_room(*old(tib_arena), heapdump.objects@.len()),
            arena_translatable(memif, *old(tib_arena)),
            dump_restorable(memif, *heapdump),
        ensures
            final(self).wf(),
            final(self).records_clear(*final(tib_arena)),
            final(self).cache_translatable(memif),
            final(self).objects_spec() == old(self).objects_spec() + heapdump.objects@.map_values(
                |o: HeapObject| o.start,
            ),
            final(self).roots_spec() == old(self).roots_spec() + heapdump.roots@.map_values(
                |r: crate::heapdump::RootEdge| r.objref,
            ),
            final(self).sizes_spec() == sizes_after(old(self).sizes_spec(), heapdump.objects@, heapdump.objects@.len()),
            exists|tibs: Seq<u64>|
                #![trigger restore_memory(old(mem)@, memif, heapdump.objects@, tibs, heapdump.objects@.len())]
                tibs.len() == heapdump.objects@.len()
                && (forall|i: int| 0 <= i < tibs.len() ==> #[trigger] final(self).describes(tibs[i], heapdump.objects@[i]))
                && final(mem)@ == restore_memory(old(mem)@, memif, heapdump.objects@, tibs, heapdump.objects@.len()),
            arena_advanced(*old(tib_arena), *final(tib_arena)),
    {
        let n = heapdump.objects.len();
        let mut i: usize = 0;
        while i < n
            invariant
                n == heapdump.objects@.len(),
                i <= n,
                self.objects_spec() == old(self).objects_spec() + heapdump.objects@.subrange(0, i as int).map_values(
                    |o: HeapObject| o.start,
                ),
                self.roots_spec() == old(self).roots_spec(),
                self.sizes_spec() == old(self).sizes_spec(),
                self.tibs() == old(self).tibs(),
                self.klass_cache() == old(self).klass_cache(),
                self.wf(),
                self.records_clear(*tib_arena),
                self.cache_translatable(memif),
                *tib_arena == *old(tib_arena),
            decreases n - i,
        {
            self.objects.push(heapdump.objects[i].start);
            proof {
                assert(heapdump.objects@.subrange(0, i + 1) == heapdump.objects@.subrange(0, i as int).push(
                    heapdump.objects@[i as int],
                ));
            }
            i += 1;
        }
        assert(heapdump.objects@.subrange(0, n as int) == heapdump.objects@);
        let nr = heapdump.roots.len();
        let mut j: usize = 0;
        while j < nr
            invariant
                nr == heapdump.roots@.len(),
                j <= nr,
                self.objects_spec() == old(self).objects_spec() + heapdump.objects@.map_values(|o: HeapObject| o.start),
                self.roots_spec() == old(self).roots_spec() + heapdump.roots@.subrange(0, j as int).map_values(
                    |r: crate::heapdump::RootEdge| r.objref,
                ),
                self.sizes_spec() == old(self).sizes_spec(),
                self.tibs() == old(self).tibs(),
                self.klass_cache() == old(self).klass_cache(),
                self.wf(),
                self.records_clear(*tib_arena),
                self.cache_translatable(memif),
                *tib_arena == *old(tib_arena),
            decreases nr - j,
        {
            self.roots.push(heapdump.roots[j].objref);
            proof {
                assert(heapdump.roots@.subrange(0, j + 1) == heapdump.roots@.subrange(0, j as int).push(
                    heapdump.roots@[j as int],
                ));
            }
            j += 1;
        }
        assert(heapdump.roots@.subrange(0, nr as int) == heapdump.roots@);
        let ghost mut tibs: Seq<u64> = Seq::empty();
        let ghost objs = heapdump.objects@;
        let ghost arena0 = *tib_arena;
        let mut k: usize = 0;
        while k < n
            invariant
                n == objs.len(),
                objs == heapdump.objects@,
                k <= n,
                self.wf(),
                self.objects_spec() == old(self).objects_spec() + objs.map_values(|o: HeapObject| o.start),
                self.roots_spec() == old(self).roots_spec() + heapdump.roots@.map_values(
                    |r: crate::heapdump::RootEdge| r.objref,
                ),
                self.sizes_spec() == sizes_after(old(self).sizes_spec(), objs, k as nat),
                arena_room(*tib_arena, (n - k) as nat),
                arena_advanced(arena0, *tib_arena),
                arena0 == *old(tib_arena),
                arena_translatable(memif, arena0),
                dump_restorable(memif, *heapdump),
                self.records_clear(*tib_arena),
                self.cache_translatable(memif),
                tibs.len() == k,
                forall|q: int| 0 <= q < k ==> #[trigger] self.describes(tibs[q], objs[q]),
                forall|q: int| 0 <= q < k ==> (#[trigger] tibs[q]) < host_cursor(*tib_arena) || tibs[q] >= host_end(*tib_arena),
                mem@ == restore_memory(old(mem)@, memif, objs, tibs, k as nat),
            decreases n - k,
        {
            let o = &heapdump.objects[k];
            assert(objs[k as int] == *o);
            assert(object_encodable(*o) && o.start < ADDRESS_LIMIT && object_translatable(memif, *o));
            let ghost arena_before = *tib_arena;
            let ghost self_before = *self;
            proof {
                lemma_room_monotone(*tib_arena, (n - k) as nat, 1);
            }
            let tib = if o.objarray_length.is_some() {
                self.objarray_tib(o.klass, tib_arena)
            } else {
                self.non_objarray_tib(o.klass, o, tib_arena)
            };
            proof {
                lemma_room_after_alloc(arena_before, *tib_arena, (n - k - 1) as nat,
                    TIB_ALLOC_BYTES + arena_before.alignment());
                assert(memif.translatable(tib)) by {
                    if !(arena_before.host_base() <= tib < arena_before.host_base() + (arena_before.limit()
                        - arena_before.base())) {
                        assert(self_before.klass_cache().contains_key(o.klass));
                        assert(self_before.klass_cache()[o.klass] == tib);
                    }
                }
                assert forall|kk: u64| #[trigger] self.klass_cache().contains_key(kk) implies memif.translatable(
                    self.klass_cache()[kk],
                ) by {
                    if !self_before.klass_cache().contains_key(kk) {
                        assert(self.klass_cache()[kk] == tib);
                    }
                }
                assert forall|a: u64| #[trigger] self.tibs().contains_key(a) implies a < host_cursor(*tib_arena)
                    || a >= host_end(*tib_arena) by {
                    if self_before.tibs().contains_key(a) {
                        assert(a < host_cursor(arena_before) || a >= host_end(arena_before));
                    }
                }
            }
            let ghost m0 = mem@;
            memif.write_pointer_to_target(mem, o.start + 8, tib);
            if let Some(l) = o.objarray_length {
                memif.write_value_to_target(mem, o.start + 16, l);
            }
            let ghost m2 = mem@;
            let mut e: usize = 0;
            while e < o.edges.len()
                invariant
                    e <= o.edges@.len(),
                    object_translatable(memif, *o),
                    mem@ == write_edges(m2, memif, o.edges@, e as nat),
                decreases o.edges@.len() - e,
            {
                let edge = o.edges[e];
                assert(o.edges@[e as int] == edge);
                memif.write_pointer_to_target(mem, edge.slot, edge.objref);
                e += 1;
            }
            self.object_sizes.insert(o.start, o.size);
            let ghost tibs_before = tibs;
            proof {
                tibs = tibs.push(tib);
                assert(mem@ == write_object(m0, memif, *o, tib));
                assert(restore_memory(old(mem)@, memif, objs, tibs, (k + 1) as nat) == write_object(
                    restore_memory(old(mem)@, memif, objs, tibs, k as nat), memif, objs[k as int], tibs[k as int]));
                lemma_restore_memory_prefix(old(mem)@, memif, objs, tibs.drop_last(), tibs, k as nat);
                assert(tibs.drop_last() == tibs_before);
                assert forall|q: int| 0 <= q < k + 1 implies #[trigger] self.describes(tibs[q], objs[q]) by {
                    if q < k {
                        let t = tibs[q];
                        assert(t == tibs_before[q]);
                        assert(self_before.describes(t, objs[q]));
                        assert(t < host_cursor(arena_before) || t >= host_end(arena_before));
                        assert(host_cursor(*tib_arena) <= host_end(*tib_arena));
                        if t != tib {
                            assert(self.tibs().contains_key(t));
                            assert(self.tibs()[t] == self_before.tibs()[t]);
                        }
                        if objs[q].objarray_length is None && objs[q].instance_mirror_start is Some {
                            if t == tib {
                                assert(self.tibs() == self_before.tibs());
                            }
                        } else {
                            assert(self_before.klass_cache().contains_key(objs[q].klass));
                            assert(self.klass_cache().contains_key(objs[q].klass));
                            assert(self.klass_cache()[objs[q].klass] == t);
                        }
                    }
                }
            }
            k += 1;
        }
    }
}

impl<const AE: bool> OpenJDKObjectModel<AE> {
    /// The slots of object `o` as the TIB at `tib_ptr` lists them.
    fn scan_object_fallback(&self, mem: &TargetMemory, tib_ptr: u64, o: u64) -> (r: Vec<SlotChunk>)
        requires
            self.tibs().contains_key(tib_ptr),
            tib_wf(self.tibs()[tib_ptr]),
        ensures
            r@ == fallback_chunks(self.tibs()[tib_ptr], mem@, o),
    {
        let tib = self.tib_records.get(&tib_ptr).unwrap();
        match tib.ttype {
            TibType::ObjArray => {
                let objarray_length = mem.load(o.wrapping_add(16));
                let mut r: Vec<SlotChunk> = Vec::new();
                r.push((o.wrapping_add(24), objarray_length));
                r
            },
            _ => {
                let mut r: Vec<SlotChunk> = Vec::new();
                let mut k: usize = 0;
                while k < tib.oop_map_blocks.len()
                    invariant
                        k <= tib.oop_map_blocks@.len(),
                        r@ == tib.oop_map_blocks@.subrange(0, k as int).map_values(block_chunk(o)),
                    decreases tib.oop_map_blocks@.len() - k,
                {
                    let omb = tib.oop_map_blocks[k];
                    r.push((o.wrapping_add(omb.offset), omb.count));
                    proof {
                        assert(tib.oop_map_blocks@.subrange(0, k + 1) == tib.oop_map_blocks@.subrange(
                            0,
                            k as int,
                        ).push(omb));
                    }
                    k += 1;
                }
                assert(tib.oop_map_blocks@.subrange(0, tib.oop_map_blocks@.len() as int) == tib.oop_map_blocks@);
                if let TibType::InstanceMirror = tib.ttype {
                    let info = *tib.instance_mirror_info.as_ref().unwrap();
                    r.push(info);
                }
                r
            },
        }
    }
}

impl<const AE: bool> ObjectModel for OpenJDKObjectModel<AE> {
    type Tib = Tib;

    open spec fn can_scan(&self, mem: Map<u64, u64>, o: u64) -> bool {
        self.tibs().contains_key(tib_of(mem, o)) && tib_wf(self.tibs()[tib_of(mem, o)])
    }

    open spec fn scan_chunks(&self, mem: Map<u64, u64>, o: u64) -> Seq<SlotChunk> {
        let t = tib_of(mem, o);
        if AE && pattern_of_code(region_code(t)) != AlignmentEncodingPattern::Fallback {
            pattern_chunks(pattern_of_code(region_code(t)), mem, o)
        } else {
            fallback_chunks(self.tibs()[t], mem, o)
        }
    }

    open spec fn objarray(&self, mem: Map<u64, u64>, o: u64) -> bool {
        self.tibs()[tib_of(mem, o)].ttype == TibType::ObjArray
    }

    open spec fn lookup_required(&self, mem: Map<u64, u64>, o: u64) -> bool {
        !AE || pattern_of_code(region_code(tib_of(mem, o))) == AlignmentEncodingPattern::Fallback
    }

    closed spec fn objects_spec(&self) -> Seq<u64> {
        self.objects@
    }

    closed spec fn roots_spec(&self) -> Seq<u64> {
        self.roots@
    }

    closed spec fn sizes_spec(&self) -> Map<u64, u64> {
        self.object_sizes@
    }

    fn scan_object(&self, mem: &TargetMemory, o: u64) -> (r: Vec<SlotChunk>) {
        let tib_ptr = Self::get_tib(mem, o);
        if !AE {
            return self.scan_object_fallback(mem, tib_ptr, o);
        }
        let pattern = get_tib_code_for_region(tib_ptr);
        let mut r: Vec<SlotChunk> = Vec::new();
        match pattern {
            AlignmentEncodingPattern::Fallback => {
                return self.scan_object_fallback(mem, tib_ptr, o);
            },
            AlignmentEncodingPattern::RefArray => {
                let objarray_length = mem.load(o.wrapping_add(16));
                r.push((o.wrapping_add(24), objarray_length));
            },
            AlignmentEncodingPattern::NoRef => {},
            AlignmentEncodingPattern::Ref0 => {
                r.push((o.wrapping_add(16), 1));
            },
            AlignmentEncodingPattern::Ref1_2_3 => {
                r.push((o.wrapping_add(24), 3));
            },
            AlignmentEncodingPattern::Ref4_5_6 => {
                r.push((o.wrapping_add(48), 3));
            },
            AlignmentEncodingPattern::Ref2 => {
                r.push((o.wrapping_add(32), 1));
            },
            AlignmentEncodingPattern::Ref0_1 => {
                r.push((o.wrapping_add(16), 2));
            },
        }
        r
    }

    fn roots(&self) -> (r: &[u64]) {
        self.roots.as_slice()
    }

    fn objects(&self) -> (r: &[u64]) {
        self.objects.as_slice()
    }

    fn reset(&mut self) {
        self.roots.clear();
        self.objects.clear();
        self.object_sizes.clear();
    }

    fn object_sizes(&self) -> (r: &HashMap<u64, u64>) {
        &self.object_sizes
    }

    fn is_objarray(&self, mem: &TargetMemory, o: u64) -> (r: bool) {
        let tib_ptr = Self::get_tib(mem, o);
        let tib = self.tib_records.get(&tib_ptr).unwrap();
        match tib.ttype {
            TibType::ObjArray => true,
            _ => false,
        }
    }

    fn get_tib(mem: &TargetMemory, o: u64) -> (r: u64) {
        mem.load(o.wrapping_add(8))
    }

    fn tib_lookup_required(&self, mem: &TargetMemory, o: u64) -> (r: bool) {
        if AE {
            let tib_ptr = Self::get_tib(mem, o);
            let pattern = get_tib_code_for_region(tib_ptr);
            match pattern {
                AlignmentEncodingPattern::Fallback => true,
                _ => false,
            }
        } else {
            true
        }
    }

    open spec fn knows_tib(&self, tib: u64) -> bool {
        self.tibs().contains_key(tib)
    }

    open spec fn tib_kind(&self, tib: u64) -> TibType {
        self.tibs()[tib].ttype
    }

    fn tib_type_at(&self, tib: u64) -> (r: TibType) {
        self.tib_records.get(&tib).unwrap().ttype
    }

    proof fn lemma_scannable_tib(&self, mem: Map<u64, u64>, o: u64) {
    }
}


/// Address of slot `j` of chunk `c`.
pub open spec fn slot_at(chunks: Seq<SlotChunk>, c: int, j: int) -> int {
    chunks[c].0 + 8 * j
}

/// The slot addresses that a list of chunks covers.
pub open spec fn chunk_slots(chunks: Seq<SlotChunk>) -> Set<int> {
    Set::new(|a: int| exists|c: int, j: int| 0 <= c < chunks.len() && 0 <= j < chunks[c].1 && a == #[trigger] slot_at(chunks, c, j))
}

/// The fields each non-fallback pattern stands for.
pub open spec fn pattern_fields(p: AlignmentEncodingPattern) -> Set<int> {
    match p {
        AlignmentEncodingPattern::Ref0 => set![0int],
        AlignmentEncodingPattern::Ref0_1 => set![0int, 1int],
        AlignmentEncodingPattern::Ref2 => set![2int],
        AlignmentEncodingPattern::Ref1_2_3 => set![1int, 2int, 3int],
        AlignmentEncodingPattern::Ref4_5_6 => set![4int, 5int, 6int],
        _ => Set::empty(),
    }
}

proof fn lemma_mask_determines_fields(s: Set<int>)
    requires
        forall|i: int| #[trigger] s.contains(i) ==> 0 <= i < 7,
        pattern_of_mask(bits_value(s, 7)) != AlignmentEncodingPattern::Fallback,
    ensures
        s == pattern_fields(pattern_of_mask(bits_value(s, 7))),
{
    reveal_with_fuel(bits_value, 8);
    vstd::arithmetic::power2::lemma2_to64();
    let p = pattern_of_mask(bits_value(s, 7));
    assert forall|i: int| s.contains(i) <==> pattern_fields(p).contains(i) by {
        if s.contains(i) {
            assert(0 <= i < 7);
        }
    }
    assert(s =~= pattern_fields(p));
}

proof fn lemma_fields_bounded(ombs: Seq<OopMapBlock>, n: nat)
    requires
        n <= ombs.len(),
        blocks_encodable(ombs),
        forall|k: int| 0 <= k < n ==> !block_out_of_range(#[trigger] ombs[k]),
    ensures
        forall|i: int| #[trigger] fields_upto(ombs, n).contains(i) ==> 0 <= i < 7,
    decreases n,
{
    if n > 0 {
        lemma_fields_bounded(ombs, (n - 1) as nat);
        let off = ombs[n - 1].offset;
        assert(off >= 16 ==> (off >> 3u64) >= 2) by (bit_vector);
        let b = ombs[n - 1];
        assert(b.offset >= 16);
        assert(!block_out_of_range(b));
        assert forall|i: int| #[trigger] fields_upto(ombs, n).contains(i) implies 0 <= i < 7 by {
            if !fields_upto(ombs, (n - 1) as nat).contains(i) {
                assert(block_fields(b).contains(i));
            }
        }
    }
}

/// The slots of the first `n` blocks of an object at `o`, as field indices.
proof fn lemma_block_slots(ombs: Seq<OopMapBlock>, o: u64, n: nat)
    requires
        n <= ombs.len(),
        blocks_encodable(ombs),
        forall|k: int| 0 <= k < ombs.len() ==> (#[trigger] ombs[k]).offset % 8 == 0,
        forall|k: int| 0 <= k < n ==> !block_out_of_range(#[trigger] ombs[k]),
        o + 128 <= u64::MAX,
    ensures
        chunk_slots(ombs.subrange(0, n as int).map_values(block_chunk(o))) == Set::new(
            |a: int| exists|i: int| #[trigger] fields_upto(ombs, n).contains(i) && a == o + 16 + 8 * i,
        ),
    decreases n,
{
    let cs = ombs.subrange(0, n as int).map_values(block_chunk(o));
    let rhs = Set::new(|a: int| exists|i: int| #[trigger] fields_upto(ombs, n).contains(i) && a == o + 16 + 8 * i);
    if n == 0 {
        assert(chunk_slots(cs) =~= rhs);
    } else {
        lemma_block_slots(ombs, o, (n - 1) as nat);
        let prev = ombs.subrange(0, n - 1).map_values(block_chunk(o));
        let b = ombs[n - 1];
        let off = b.offset;
        assert(off >= 16 && off % 8 == 0 ==> (off >> 3u64) * 8 == off) by (bit_vector);
        assert(b.offset == 8 * (first_field(b) + 2));
        assert(o.wrapping_add(b.offset) == o + b.offset);
        assert forall|a: int| chunk_slots(cs).contains(a) <==> rhs.contains(a) by {
            if chunk_slots(cs).contains(a) {
                let (c, j) = choose|c: int, j: int| 0 <= c < cs.len() && 0 <= j < cs[c].1 && a == #[trigger] slot_at(cs, c, j);
                if c < n - 1 {
                    assert(cs[c] == prev[c]);
                    assert(a == slot_at(prev, c, j));
                    assert(chunk_slots(prev).contains(a));
                    let i = choose|i: int| #[trigger] fields_upto(ombs, (n - 1) as nat).contains(i) && a == o + 16 + 8 * i;
                    assert(fields_upto(ombs, n).contains(i));
                } else {
                    assert(cs[c] == (o.wrapping_add(b.offset), b.count));
                    let i = first_field(b) + j;
                    assert(block_fields(b).contains(i));
                    assert(fields_upto(ombs, n).contains(i));
                    assert(a == o + 16 + 8 * i);
                }
            }
            if rhs.contains(a) {
                let i = choose|i: int| #[trigger] fields_upto(ombs, n).contains(i) && a == o + 16 + 8 * i;
                if fields_upto(ombs, (n - 1) as nat).contains(i) {
                    assert(Set::new(|a: int| exists|i: int| #[trigger] fields_upto(ombs, (n - 1) as nat).contains(i) && a == o + 16 + 8 * i).contains(a));
                    assert(chunk_slots(prev).contains(a));
                    let (c, j) = choose|c: int, j: int| 0 <= c < prev.len() && 0 <= j < prev[c].1 && a == #[trigger] slot_at(prev, c, j);
                    assert(cs[c] == prev[c]);
                    assert(a == slot_at(cs, c, j));
                } else {
                    assert(block_fields(b).contains(i));
                    let j = i - first_field(b);
                    assert(cs[n - 1] == (o.wrapping_add(b.offset), b.count));
                    assert(0 <= j < cs[n - 1].1 && a == slot_at(cs, n - 1, j));
                }
            }
        }
        assert(chunk_slots(cs) =~= rhs);
    }
}

/// For an ordinary type, the slots that alignment encoding reads from the
/// TIB address are exactly the slots that the TIB lists.
pub proof fn lemma_alignment_encoding_agrees(tib: Tib, a: u64, mem: Map<u64, u64>, o: u64)
    requires
        tib.ttype == TibType::Ordinary,
        blocks_encodable(tib.oop_map_blocks@),
        forall|k: int| 0 <= k < tib.oop_map_blocks@.len() ==> (#[trigger] tib.oop_map_blocks@[k]).offset % 8 == 0,
        region_code(a) == pattern_code(encode_pattern(tib.oop_map_blocks@)),
        encode_pattern(tib.oop_map_blocks@) != AlignmentEncodingPattern::Fallback,
        o + 128 <= u64::MAX,
    ensures
        chunk_slots(pattern_chunks(pattern_of_code(region_code(a)), mem, o)) == chunk_slots(
            fallback_chunks(tib, mem, o),
        ),
{
    let ombs = tib.oop_map_blocks@;
    let p = encode_pattern(ombs);
    lemma_pattern_code_roundtrip(p, 0);
    assert(pattern_of_code(region_code(a)) == p);
    lemma_fields_bounded(ombs, ombs.len());
    lemma_mask_determines_fields(fields_upto(ombs, ombs.len()));
    lemma_block_slots(ombs, o, ombs.len());
    assert(ombs.subrange(0, ombs.len() as int) == ombs);
    let lhs = chunk_slots(pattern_chunks(p, mem, o));
    let rhs = Set::new(|x: int| exists|i: int| #[trigger] pattern_fields(p).contains(i) && x == o + 16 + 8 * i);
    assert forall|x: int| lhs.contains(x) <==> rhs.contains(x) by {
        let pc = pattern_chunks(p, mem, o);
        if lhs.contains(x) {
            let (c, j) = choose|c: int, j: int| 0 <= c < pc.len() && 0 <= j < pc[c].1 && x == #[trigger] slot_at(pc, c, j);
            if p == AlignmentEncodingPattern::Ref0 {
                assert(pattern_fields(p).contains(j));
            } else if p == AlignmentEncodingPattern::Ref0_1 {
                assert(pattern_fields(p).contains(j));
            } else if p == AlignmentEncodingPattern::Ref2 {
                assert(pattern_fields(p).contains(2 + j));
            } else if p == AlignmentEncodingPattern::Ref1_2_3 {
                assert(pattern_fields(p).contains(1 + j));
            } else if p == AlignmentEncodingPattern::Ref4_5_6 {
                assert(pattern_fields(p).contains(4 + j));
            }
        }
        if rhs.contains(x) {
            let i = choose|i: int| #[trigger] pattern_fields(p).contains(i) && x == o + 16 + 8 * i;
            if p == AlignmentEncodingPattern::Ref0 {
                assert(0 <= i - 0 < pc[0].1 && x == slot_at(pc, 0, i - 0));
            } else if p == AlignmentEncodingPattern::Ref0_1 {
                assert(0 <= i - 0 < pc[0].1 && x == slot_at(pc, 0, i - 0));
            } else if p == AlignmentEncodingPattern::Ref2 {
                assert(0 <= i - 2 < pc[0].1 && x == slot_at(pc, 0, i - 2));
            } else if p == AlignmentEncodingPattern::Ref1_2_3 {
                assert(0 <= i - 1 < pc[0].1 && x == slot_at(pc, 0, i - 1));
            } else if p == AlignmentEncodingPattern::Ref4_5_6 {
                assert(0 <= i - 4 < pc[0].1 && x == slot_at(pc, 0, i - 4));
            }
        }
    }
    assert(lhs =~= rhs);
}

} // verus!
