//! The memory that heap objects are restored into and traced in: a sparse,
//! word-granular store addressed by byte addresses.  Words never written
//! read as zero, as freshly mapped memory does.
use vstd::prelude::*;
use std::collections::HashMap;

verus! {

broadcast use vstd::std_specs::hash::group_hash_axioms;

/// The word stored at address `a` of memory `m`.
pub open spec fn word_at(m: Map<u64, u64>, a: u64) -> u64 {
    if m.contains_key(a) {
        m[a]
    } else {
        0
    }
}

/// Word-addressed memory.
pub struct TargetMemory {
    words: HashMap<u64, u64>,
}

impl View for TargetMemory {
    type V = Map<u64, u64>;

    closed spec fn view(&self) -> Map<u64, u64> {
        self.words@
    }
}

impl TargetMemory {
    /// Memory where every word is zero.
    pub fn new() -> (r: Self)
        ensures
            r@ == Map::<u64, u64>::empty(),
    {
        TargetMemory { words: HashMap::new() }
    }

    /// Reads the word at `addr`.
    pub fn load(&self, addr: u64) -> (r: u64)
        ensures
            r == word_at(self@, addr),
    {
        match self.words.get(&addr) {
            Some(v) => *v,
            None => 0,
        }
    }

    /// Writes `val` to the word at `addr`.
    pub fn store(&mut self, addr: u64, val: u64)
        ensures
            final(self)@ == old(self)@.insert(addr, val),
    {
        self.words.insert(addr, val);
    }
}

/// A read of a word just written gives the value written; other words are unchanged.
pub proof fn lemma_store_then_load(m: Map<u64, u64>, a: u64, v: u64, b: u64)
    ensures
        word_at(m.insert(a, v), b) == (if a == b { v } else { word_at(m, b) }),
{
}

} // verus!
