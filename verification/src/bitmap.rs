use vstd::prelude::*;

verus! {

/// True when bit `i` of the word `w` is set.
pub open spec fn bit_set(w: u64, i: u64) -> bool {
    i < 64 && (w >> i) & 1u64 != 0u64
}

/// A fixed-width bit vector with one bit per priority level; bit `i` is kept
/// set exactly when priority level `i` currently holds at least one ready
/// thread. Supports up to 64 levels, one machine word.
pub struct PriorityBitmap {
    bits: u64,
}

impl View for PriorityBitmap {
    type V = u64;

    closed spec fn view(&self) -> u64 {
        self.bits
    }
}

impl PriorityBitmap {
    /// An all-clear bitmap: every level is marked empty.
    pub fn new() -> (r: Self)
        ensures
            r@ == 0u64,
    {
        PriorityBitmap { bits: 0 }
    }

    /// Marks `level` non-empty. No-op if the bit is already set.
    pub fn set(&mut self, level: usize)
        requires
            level < 64,
        ensures
            final(self)@ == old(self)@ | (1u64 << (level as u64)),
            forall|i: u64|
                i < 64 ==> (bit_set(final(self)@, i) <==> (bit_set(old(self)@, i) || i
                    == level as u64)),
    {
        self.bits = self.bits | (1u64 << (level as u64));
        proof {
            let w = old(self)@;
            let l = level as u64;
            assert forall|i: u64| i < 64 implies (bit_set(w | (1u64 << l), i) <==> (bit_set(w, i)
                || i == l)) by {
                assert((((w | (1u64 << l)) >> i) & 1u64 != 0u64) <==> (((w >> i) & 1u64 != 0u64)
                    || i == l)) by (bit_vector)
                    requires
                        l < 64u64,
                        i < 64u64,
                ;
            }
        }
    }

    /// Marks `level` empty. No-op if the bit is already clear.
    pub fn clear(&mut self, level: usize)
        requires
            level < 64,
        ensures
            final(self)@ == old(self)@ & !(1u64 << (level as u64)),
            forall|i: u64|
                i < 64 ==> (bit_set(final(self)@, i) <==> (bit_set(old(self)@, i) && i
                    != level as u64)),
    {
        self.bits = self.bits & !(1u64 << (level as u64));
        proof {
            let w = old(self)@;
            let l = level as u64;
            assert forall|i: u64| i < 64 implies (bit_set(w & !(1u64 << l), i) <==> (bit_set(w, i)
                && i != l)) by {
                assert((((w & !(1u64 << l)) >> i) & 1u64 != 0u64) <==> (((w >> i) & 1u64 != 0u64)
                    && i != l)) by (bit_vector)
                    requires
                        l < 64u64,
                        i < 64u64,
                ;
            }
        }
    }

    /// The highest level whose bit is set, found through the hardware
    /// count-leading-zeros primitive rather than a scan, or `None` when the
    /// bitmap is all-zero.
    pub fn highest_set(&self) -> (r: Option<usize>)
        ensures
            match r {
                Option::None => self@ == 0u64,
                Option::Some(i) => i < 64 && bit_set(self@, i as u64) && (forall|j: u64|
                    i < j < 64 ==> !bit_set(self@, j)),
            },
    {
        if self.bits == 0 {
            None
        } else {
            let lz = self.bits.leading_zeros();
            proof {
                vstd::std_specs::bits::axiom_u64_leading_zeros(self.bits);
            }
            let h = (63 - lz) as usize;
            proof {
                let w = self@;
                let lzs = vstd::std_specs::bits::u64_leading_zeros(w);
                assert(0 <= lzs < 64);
                assert(h as u64 == 63u64 - lzs as u64);
                assert(bit_set(w, h as u64));
                assert forall|j: u64| h < j < 64 implies !bit_set(w, j) by {
                    assert(64 - lzs <= j < 64);
                    assert((w >> j) & 1u64 == 0u64);
                }
            }
            Some(h)
        }
    }
}

} // verus!
