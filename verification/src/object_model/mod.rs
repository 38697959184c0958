//! Object models: how restored objects and their type information (TIBs)
//! are laid out in target memory, and how a tracer finds the reference
//! slots of an object.
pub mod openjdk;
pub mod bidirectional;

use vstd::prelude::*;
use std::collections::HashMap;
use crate::target_memory::{word_at, TargetMemory};

verus! {

/// The kind of type an object has.
#[derive(Debug, Clone, Copy, PartialEq, Eq, Structural)]
pub enum TibType {
    Ordinary,
    ObjArray,
    InstanceMirror,
}

/// Type information that knows its kind.
pub trait HasTibType {
    /// The kind of this type.
    spec fn tib_type(&self) -> TibType;

    /// The kind of this type.
    fn get_tib_type(&self) -> (r: TibType)
        ensures
            r == self.tib_type(),
    ;
}

/// A chunk of reference slots: the address of the first slot and the
/// number of consecutive slots.
pub type SlotChunk = (u64, u64);

/// A heap graph view over target memory.
///
/// Note that an object model should only be used on heap dumps from the
/// same benchmark invocation, where objects with the same klass indeed have
/// the same type.
pub trait ObjectModel {
    type Tib: HasTibType;

    /// Whether `scan_object` can read the type information of object `o`.
    spec fn can_scan(&self, mem: Map<u64, u64>, o: u64) -> bool;

    /// The chunks of reference slots of object `o`, in scan order.
    spec fn scan_chunks(&self, mem: Map<u64, u64>, o: u64) -> Seq<SlotChunk>;

    /// Whether object `o` is an object array.
    spec fn objarray(&self, mem: Map<u64, u64>, o: u64) -> bool;

    /// Whether scanning object `o` needs its full type information.
    spec fn lookup_required(&self, mem: Map<u64, u64>, o: u64) -> bool;

    /// The objects restored so far.
    spec fn objects_spec(&self) -> Seq<u64>;

    /// The roots restored so far.
    spec fn roots_spec(&self) -> Seq<u64>;

    /// The size of each restored object, by its start.
    spec fn sizes_spec(&self) -> Map<u64, u64>;

    /// The reference slots of object `o`.
    fn scan_object(&self, mem: &TargetMemory, o: u64) -> (r: Vec<SlotChunk>)
        requires
            self.can_scan(mem@, o),
        ensures
            r@ == self.scan_chunks(mem@, o),
    ;

    /// The roots.
    fn roots(&self) -> (r: &[u64])
        ensures
            r@ == self.roots_spec(),
    ;

    /// The objects.
    fn objects(&self) -> (r: &[u64])
        ensures
            r@ == self.objects_spec(),
    ;

    /// Forgets every restored object and root.
    fn reset(&mut self)
        ensures
            final(self).objects_spec() == Seq::<u64>::empty(),
            final(self).roots_spec() == Seq::<u64>::empty(),
            final(self).sizes_spec() == Map::<u64, u64>::empty(),
    ;

    /// The size of each object, by its start.
    fn object_sizes(&self) -> (r: &HashMap<u64, u64>)
        ensures
            r@ == self.sizes_spec(),
    ;

    /// Whether object `o` is an object array.
    fn is_objarray(&self, mem: &TargetMemory, o: u64) -> (r: bool)
        requires
            self.can_scan(mem@, o),
        ensures
            r == self.objarray(mem@, o),
    ;

    /// The TIB pointer stored in the second word of object `o`.
    fn get_tib(mem: &TargetMemory, o: u64) -> (r: u64)
        ensures
            r == word_at(mem@, o.wrapping_add(8)),
    ;

    /// Whether scanning object `o` needs its full type information.
    fn tib_lookup_required(&self, mem: &TargetMemory, o: u64) -> (r: bool)
        requires
            self.can_scan(mem@, o),
        ensures
            r == self.lookup_required(mem@, o),
    ;

    /// Whether `tib` is the address of a TIB this model restored.
    spec fn knows_tib(&self, tib: u64) -> bool;

    /// The kind of the TIB at address `tib`.
    spec fn tib_kind(&self, tib: u64) -> TibType;

    /// The kind of the TIB at address `tib`.
    fn tib_type_at(&self, tib: u64) -> (r: TibType)
        requires
            self.knows_tib(tib),
        ensures
            r == self.tib_kind(tib),
    ;

    /// An object that can be scanned points to a TIB this model restored.
    proof fn lemma_scannable_tib(&self, mem: Map<u64, u64>, o: u64)
        requires
            self.can_scan(mem, o),
        ensures
            self.knows_tib(word_at(mem, o.wrapping_add(8))),
    ;
}

} // verus!
