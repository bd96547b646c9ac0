use vstd::prelude::*;

verus! {

/// The set of directions from which a matrix cell can be reached optimally.
///
/// The empty set is the stop marker: the cell ends a backtrace.
#[derive(Clone, Copy, Debug, PartialEq, Eq, Structural)]
pub struct StepMask {
    pub align: bool,
    pub delete: bool,
    pub insert: bool,
}

impl StepMask {
    /// The set holds no direction at all.
    pub open spec fn is_stop(self) -> bool {
        !self.align && !self.delete && !self.insert
    }

    /// The set holds exactly one direction.
    pub open spec fn is_direction(self) -> bool {
        (self.align && !self.delete && !self.insert)
        || (!self.align && self.delete && !self.insert)
        || (!self.align && !self.delete && self.insert)
    }

    pub open spec fn spec_contains(self, other: StepMask) -> bool {
        (other.align ==> self.align) && (other.delete ==> self.delete) && (other.insert
            ==> self.insert)
    }

    pub open spec fn spec_union(self, other: StepMask) -> StepMask {
        StepMask {
            align: self.align || other.align,
            delete: self.delete || other.delete,
            insert: self.insert || other.insert,
        }
    }

    /// How far a single direction moves along the first sequence.
    pub open spec fn dx(self) -> nat {
        if self.align || self.delete {
            1
        } else {
            0
        }
    }

    /// How far a single direction moves along the second sequence.
    pub open spec fn dy(self) -> nat {
        if self.align || self.insert {
            1
        } else {
            0
        }
    }

    pub fn stop() -> (r: StepMask)
        ensures
            r.is_stop(),
            r == (StepMask { align: false, delete: false, insert: false }),
    {
        StepMask { align: false, delete: false, insert: false }
    }

    pub fn empty() -> (r: StepMask)
        ensures
            r.is_stop(),
            r == (StepMask { align: false, delete: false, insert: false }),
    {
        StepMask::stop()
    }

    /// A diagonal step: one element of each sequence is consumed.
    pub fn align() -> (r: StepMask)
        ensures
            r == (StepMask { align: true, delete: false, insert: false }),
    {
        StepMask { align: true, delete: false, insert: false }
    }

    /// A horizontal step: one element of the first sequence is consumed.
    pub fn delete() -> (r: StepMask)
        ensures
            r == (StepMask { align: false, delete: true, insert: false }),
    {
        StepMask { align: false, delete: true, insert: false }
    }

    /// A vertical step: one element of the second sequence is consumed.
    pub fn insert() -> (r: StepMask)
        ensures
            r == (StepMask { align: false, delete: false, insert: true }),
    {
        StepMask { align: false, delete: false, insert: true }
    }

    pub fn is_empty(&self) -> (r: bool)
        ensures
            r == self.is_stop(),
    {
        !self.align && !self.delete && !self.insert
    }

    pub fn contains(&self, other: StepMask) -> (r: bool)
        ensures
            r == self.spec_contains(other),
    {
        (!other.align || self.align) && (!other.delete || self.delete) && (!other.insert
            || self.insert)
    }

    /// Adds every direction of `other` to this set.
    pub fn union_with(&mut self, other: StepMask)
        ensures
            *final(self) == old(self).spec_union(other),
    {
        self.align = self.align || other.align;
        self.delete = self.delete || other.delete;
        self.insert = self.insert || other.insert;
    }

    /// The set as bit flags: align is bit 1, delete bit 2, insert bit 3.
    pub fn bits(&self) -> (r: u8)
        ensures
            r == spec_bits(*self),
    {
        let a: u8 = if self.align { 2 } else { 0 };
        let d: u8 = if self.delete { 4 } else { 0 };
        let i: u8 = if self.insert { 8 } else { 0 };
        a + d + i
    }

    /// Reads a set back from its bit flags; other bits are ignored.
    pub fn from_bits(bits: u8) -> (r: StepMask)
        ensures
            r == spec_from_bits(bits),
    {
        StepMask { align: bits & 2 != 0, delete: bits & 4 != 0, insert: bits & 8 != 0 }
    }

    /// The directions whose score is the largest of the three; ties keep every
    /// direction that reaches the maximum.
    pub fn from_scores(align: isize, delete: isize, insert: isize) -> (r: StepMask)
        ensures
            r.align == (align >= delete && align >= insert),
            r.delete == (delete >= align && delete >= insert),
            r.insert == (insert >= align && insert >= delete),
            !r.is_stop(),
    {
        let mut step_mask = StepMask::empty();
        if align >= delete && align >= insert {
            step_mask.union_with(StepMask::align());
        }
        if delete >= align && delete >= insert {
            step_mask.union_with(StepMask::delete());
        }
        if insert >= align && insert >= delete {
            step_mask.union_with(StepMask::insert());
        }
        step_mask
    }
}

pub open spec fn spec_bits(m: StepMask) -> u8 {
    ((if m.align { 2u8 } else { 0u8 }) + (if m.delete { 4u8 } else { 0u8 }) + (if m.insert {
        8u8
    } else {
        0u8
    })) as u8
}

pub open spec fn spec_from_bits(bits: u8) -> StepMask {
    StepMask { align: bits & 2 != 0, delete: bits & 4 != 0, insert: bits & 8 != 0 }
}

/// Writing a set as bit flags and reading it back gives the same set.
pub proof fn lemma_bits_round_trip(m: StepMask)
    ensures
        spec_from_bits(spec_bits(m)) == m,
{
    let b = spec_bits(m);
    if m.align {
        if m.delete {
            if m.insert {
                assert(b == 14u8);
                assert(14u8 & 2 != 0 && 14u8 & 4 != 0 && 14u8 & 8 != 0) by (bit_vector);
            } else {
                assert(b == 6u8);
                assert(6u8 & 2 != 0 && 6u8 & 4 != 0 && 6u8 & 8 == 0) by (bit_vector);
            }
        } else {
            if m.insert {
                assert(b == 10u8);
                assert(10u8 & 2 != 0 && 10u8 & 4 == 0 && 10u8 & 8 != 0) by (bit_vector);
            } else {
                assert(b == 2u8);
                assert(2u8 & 2 != 0 && 2u8 & 4 == 0 && 2u8 & 8 == 0) by (bit_vector);
            }
        }
    } else {
        if m.delete {
            if m.insert {
                assert(b == 12u8);
                assert(12u8 & 2 == 0 && 12u8 & 4 != 0 && 12u8 & 8 != 0) by (bit_vector);
            } else {
                assert(b == 4u8);
                assert(4u8 & 2 == 0 && 4u8 & 4 != 0 && 4u8 & 8 == 0) by (bit_vector);
            }
        } else {
            if m.insert {
                assert(b == 8u8);
                assert(8u8 & 2 == 0 && 8u8 & 4 == 0 && 8u8 & 8 != 0) by (bit_vector);
            } else {
                assert(b == 0u8);
                assert(0u8 & 2 == 0 && 0u8 & 4 == 0 && 0u8 & 8 == 0) by (bit_vector);
            }
        }
    }
}

} // verus!
