use vstd::prelude::*;
use crate::target_memory::{word_at, TargetMemory};

verus! {

/// The result of trying to claim an object for forwarding.
#[derive(Debug, Clone, Copy, PartialEq, Eq, Structural)]
pub enum FarwardingState {
    NotForwarded,
    Forwarding,
    Forwarded,
}

impl FarwardingState {
    /// True when another party has already forwarded, or is forwarding, the object.
    pub fn is_forwarded_or_being_forwarded(&self) -> (r: bool)
        ensures
            r <==> (*self == FarwardingState::Forwarded || *self == FarwardingState::Forwarding),
    {
        match self {
            FarwardingState::Forwarded => true,
            FarwardingState::Forwarding => true,
            _ => false,
        }
    }
}

/// The byte at position `offset` (0 = least significant) of a 64-bit word.
pub open spec fn byte_of(word: u64, offset: int) -> u8 {
    ((word >> (8 * offset) as u64) & 0xff) as u8
}

/// The word `word` with its byte at position `offset` replaced by `val`.
pub open spec fn with_byte(word: u64, val: u8, offset: int) -> u64 {
    (word & !((0xffu64) << (8 * offset) as u64)) | ((val as u64) << (8 * offset) as u64)
}

/// The byte that holds the mark state of an object.
pub const MARK_BYTE_OFFSET: u8 = 0;
/// The byte that holds the forwarding state of an object.
pub const FORWARDING_BYTE_OFFSET: u8 = 7;

/// An object header: one 64-bit word whose bytes carry GC metadata.
#[derive(Debug, Clone, Copy, PartialEq, Eq, Structural)]
pub struct Header(pub u64);

impl View for Header {
    type V = u64;

    open spec fn view(&self) -> u64 {
        self.0
    }
}

impl Header {
    /// An all-zero header.
    pub fn new() -> (h: Self)
        ensures
            h@ == 0,
    {
        Header(0)
    }

    /// The raw header word.
    pub fn value(&self) -> (r: u64)
        ensures
            r == self@,
    {
        self.0
    }

    /// Reads byte `offset` of the header.
    pub fn get_byte(&self, offset: u8) -> (r: u8)
        requires
            offset < 8,
        ensures
            r == byte_of(self@, offset as int),
    {
        let shift: u64 = (offset as u64) * 8;
        let mask: u64 = 0xffu64 << shift;
        let w = self.0;
        let r = ((w & mask) >> shift) as u8;
        assert(r == ((w >> shift) & 0xff) as u8) by (bit_vector)
            requires
                shift < 64,
                mask == 0xffu64 << shift,
                r == ((w & mask) >> shift) as u8,
        ;
        r
    }

    /// Overwrites byte `offset` of the header with `val`.
    pub fn set_byte(&mut self, val: u8, offset: u8)
        requires
            offset < 8,
        ensures
            final(self)@ == with_byte(old(self)@, val, offset as int),
    {
        let shift: u64 = (offset as u64) * 8;
        let mask: u64 = 0xffu64 << shift;
        let to_set_shifted: u64 = (val as u64) << shift;
        self.0 = (self.0 & !mask) | to_set_shifted;
    }

    /// The forwarding byte (the most significant byte).
    pub fn get_fwd_byte(&self) -> (r: u8)
        ensures
            r == byte_of(self@, FORWARDING_BYTE_OFFSET as int),
    {
        self.get_byte(FORWARDING_BYTE_OFFSET)
    }

    /// The mark byte (the least significant byte).
    pub fn get_mark_byte(&self) -> (r: u8)
        ensures
            r == byte_of(self@, MARK_BYTE_OFFSET as int),
    {
        self.get_byte(MARK_BYTE_OFFSET)
    }

    /// Sets the mark byte.
    pub fn set_mark_byte(&mut self, val: u8)
        ensures
            final(self)@ == with_byte(old(self)@, val, MARK_BYTE_OFFSET as int),
    {
        self.set_byte(val, MARK_BYTE_OFFSET);
    }

    /// Reads the header of the object at `o`.
    pub fn load(mem: &TargetMemory, o: u64) -> (h: Self)
        ensures
            h@ == word_at(mem@, o),
    {
        Header(mem.load(o))
    }

    /// Reads the header of the object at `o`, as a concurrent reader would
    /// (every read of the memory model sees the latest write).
    pub fn volatile_load(mem: &TargetMemory, o: u64) -> (h: Self)
        ensures
            h@ == word_at(mem@, o),
    {
        Header(mem.load(o))
    }

    /// Writes this header to the object at `o`.
    pub fn store(self, mem: &mut TargetMemory, o: u64)
        ensures
            final(mem)@ == old(mem)@.insert(o, self@),
    {
        mem.store(o, self.0);
    }

    /// Whether the object at `o` carries the mark byte `new_byte`.
    pub fn is_marked(mem: &TargetMemory, o: u64, new_byte: u8) -> (r: bool)
        ensures
            r <==> byte_of(word_at(mem@, o), MARK_BYTE_OFFSET as int) == new_byte,
    {
        let old_byte = Header::load(mem, o).get_mark_byte();
        old_byte == new_byte
    }

    /// Tries to set the mark byte of the object at `o` to `new_byte`.
    /// Returns whether this call changed it.
    pub fn attempt_mark_byte(mem: &mut TargetMemory, o: u64, new_byte: u8) -> (r: bool)
        ensures
            r <==> byte_of(word_at(old(mem)@, o), MARK_BYTE_OFFSET as int) != new_byte,
            r ==> final(mem)@ == old(mem)@.insert(
                o,
                with_byte(word_at(old(mem)@, o), new_byte, MARK_BYTE_OFFSET as int),
            ),
            !r ==> final(mem)@ == old(mem)@,
    {
        let mut header = Header::load(mem, o);
        let old_byte = header.get_mark_byte();
        if old_byte == new_byte {
            return false;
        }
        header.set_mark_byte(new_byte);
        header.store(mem, o);
        true
    }

    /// Tries to claim the object at `o` for forwarding: the forwarding byte
    /// becomes 0xff unless the object is forwarded (its byte is
    /// `forwarded_state`) or being forwarded (0xff) already.
    pub fn attempt_to_forward(mem: &mut TargetMemory, o: u64, forwarded_state: u8) -> (r: FarwardingState)
        requires
            forwarded_state != 0xff,
        ensures
            ({
                let b = byte_of(word_at(old(mem)@, o), FORWARDING_BYTE_OFFSET as int);
                &&& b == forwarded_state ==> r == FarwardingState::Forwarded && final(mem)@ == old(mem)@
                &&& b == 0xff ==> r == FarwardingState::Forwarding && final(mem)@ == old(mem)@
                &&& (b != forwarded_state && b != 0xff) ==> r == FarwardingState::NotForwarded
                    && final(mem)@ == old(mem)@.insert(
                    o,
                    with_byte(word_at(old(mem)@, o), 0xff, FORWARDING_BYTE_OFFSET as int),
                )
            }),
    {
        let mut header = Header::load(mem, o);
        let old_byte = header.get_fwd_byte();
        if old_byte == forwarded_state {
            return FarwardingState::Forwarded;
        }
        if old_byte == 0xff {
            return FarwardingState::Forwarding;
        }
        header.set_byte(0xff, FORWARDING_BYTE_OFFSET);
        header.store(mem, o);
        FarwardingState::NotForwarded
    }

    /// Waits until the object at `o` is forwarded and returns it.  In this
    /// memory model no other party writes while it waits, so the object must
    /// be forwarded already.
    pub fn spin_and_get_farwarded_object(mem: &TargetMemory, o: u64, forwarded_state: u8) -> (r: u64)
        requires
            byte_of(word_at(mem@, o), FORWARDING_BYTE_OFFSET as int) == forwarded_state,
        ensures
            r == o,
    {
        loop
            invariant
                byte_of(word_at(mem@, o), FORWARDING_BYTE_OFFSET as int) == forwarded_state,
            decreases 1int,
        {
            let state = Header::volatile_load(mem, o).get_fwd_byte();
            if state == forwarded_state {
                return o;
            }
        }
    }

    /// Marks the object at `o` as forwarded.
    pub fn set_as_forwarded(mem: &mut TargetMemory, o: u64, forwarded_state: u8)
        ensures
            final(mem)@ == old(mem)@.insert(
                o,
                with_byte(word_at(old(mem)@, o), forwarded_state, FORWARDING_BYTE_OFFSET as int),
            ),
    {
        let mut header = Header::load(mem, o);
        header.set_byte(forwarded_state, FORWARDING_BYTE_OFFSET);
        header.store(mem, o);
    }
}

/// Writing a byte and reading it back gives the byte written.
pub proof fn lemma_get_set_same(word: u64, val: u8, offset: int)
    requires
        0 <= offset < 8,
    ensures
        byte_of(with_byte(word, val, offset), offset) == val,
{
    let s: u64 = (8 * offset) as u64;
    assert(((((word & !(0xffu64 << s)) | ((val as u64) << s)) >> s) & 0xff) as u8 == val)
        by (bit_vector)
        requires
            s == 0 || s == 8 || s == 16 || s == 24 || s == 32 || s == 40 || s == 48 || s == 56,
    ;
}

/// Writing a byte leaves every other byte of the word unchanged.
pub proof fn lemma_get_set_other(word: u64, val: u8, offset: int, other: int)
    requires
        0 <= offset < 8,
        0 <= other < 8,
        offset != other,
    ensures
        byte_of(with_byte(word, val, offset), other) == byte_of(word, other),
{
    let s: u64 = (8 * offset) as u64;
    let t: u64 = (8 * other) as u64;
    assert(((((word & !(0xffu64 << s)) | ((val as u64) << s)) >> t) & 0xff) as u8 == ((word >> t)
        & 0xff) as u8) by (bit_vector)
        requires
            s == 0 || s == 8 || s == 16 || s == 24 || s == 32 || s == 40 || s == 48 || s == 56,
            t == 0 || t == 8 || t == 16 || t == 24 || t == 32 || t == 40 || t == 48 || t == 56,
            s != t,
    ;
}

/// Writing a byte twice leaves only the second write.
pub proof fn lemma_set_set(word: u64, a: u8, b: u8, offset: int)
    requires
        0 <= offset < 8,
    ensures
        with_byte(with_byte(word, a, offset), b, offset) == with_byte(word, b, offset),
{
    let s: u64 = (8 * offset) as u64;
    assert(((((word & !(0xffu64 << s)) | ((a as u64) << s)) & !(0xffu64 << s)) | ((b as u64) << s)) == ((word
        & !(0xffu64 << s)) | ((b as u64) << s))) by (bit_vector)
        requires
            s == 0 || s == 8 || s == 16 || s == 24 || s == 32 || s == 40 || s == 48 || s == 56,
    ;
}

} // verus!
