//! The flag word of a node: four independent bits.

use vstd::prelude::*;

verus! {

/// The bit that says that every path to the node is a path of the problem.
pub const F_EXACT: u8 = 1;

/// The bit that says that a merge produced the node or contributed to it.
pub const F_RELAXED: u8 = 2;

/// The bit that says that the node was reached when walking up from the last
/// layer.
pub const F_MARKED: u8 = 4;

/// The bit that says that the node belongs to the exact cutset.
pub const F_CUTSET: u8 = 8;

/// The flags of a node, packed in one byte.
#[derive(Clone, Copy, Debug, PartialEq, Eq, Hash)]
pub struct NodeFlags(pub u8);

impl NodeFlags {
    /// Whether the exact bit is set.
    pub open spec fn exact(self) -> bool {
        self.0 & F_EXACT != 0
    }

    /// Whether the relaxed bit is set.
    pub open spec fn relaxed(self) -> bool {
        self.0 & F_RELAXED != 0
    }

    /// Whether the marked bit is set.
    pub open spec fn marked(self) -> bool {
        self.0 & F_MARKED != 0
    }

    /// Whether the cutset bit is set.
    pub open spec fn cutset(self) -> bool {
        self.0 & F_CUTSET != 0
    }

    /// Flags with the exact bit as given and every other bit clear.
    pub fn new(exact: bool) -> (flags: NodeFlags)
        ensures
            flags.exact() == exact,
            !flags.relaxed(),
            !flags.marked(),
            !flags.cutset(),
    {
        assert(1u8 & 1u8 != 0 && 1u8 & 2u8 == 0 && 1u8 & 4u8 == 0 && 1u8 & 8u8 == 0
            && 0u8 & 1u8 == 0 && 0u8 & 2u8 == 0 && 0u8 & 4u8 == 0 && 0u8 & 8u8 == 0)
            by (bit_vector);
        if exact {
            NodeFlags(F_EXACT)
        } else {
            NodeFlags(0)
        }
    }

    /// The flags of an exact node: only the exact bit is set.
    pub fn new_exact() -> (flags: NodeFlags)
        ensures
            flags.exact(),
            !flags.relaxed(),
            !flags.marked(),
            !flags.cutset(),
    {
        NodeFlags::new(true)
    }

    /// The flags of a merged node: only the relaxed bit is set.
    pub fn new_relaxed() -> (flags: NodeFlags)
        ensures
            !flags.exact(),
            flags.relaxed(),
            !flags.marked(),
            !flags.cutset(),
    {
        assert(2u8 & 1u8 == 0 && 2u8 & 2u8 != 0 && 2u8 & 4u8 == 0 && 2u8 & 8u8 == 0)
            by (bit_vector);
        NodeFlags(F_RELAXED)
    }

    /// Tells whether the exact bit is set.
    #[verifier::when_used_as_spec(exact)]
    pub fn is_exact(self) -> (set: bool)
        ensures
            set == self.exact(),
    {
        self.0 & F_EXACT != 0
    }

    /// Tells whether the relaxed bit is set.
    #[verifier::when_used_as_spec(relaxed)]
    pub fn is_relaxed(self) -> (set: bool)
        ensures
            set == self.relaxed(),
    {
        self.0 & F_RELAXED != 0
    }

    /// Tells whether the marked bit is set.
    #[verifier::when_used_as_spec(marked)]
    pub fn is_marked(self) -> (set: bool)
        ensures
            set == self.marked(),
    {
        self.0 & F_MARKED != 0
    }

    /// Tells whether the cutset bit is set.
    #[verifier::when_used_as_spec(cutset)]
    pub fn is_cutset(self) -> (set: bool)
        ensures
            set == self.cutset(),
    {
        self.0 & F_CUTSET != 0
    }

    /// Sets or clears the exact bit and leaves the other three as they were.
    pub fn set_exact(&mut self, exact: bool)
        ensures
            final(self).exact() == exact,
            final(self).relaxed() == old(self).relaxed(),
            final(self).marked() == old(self).marked(),
            final(self).cutset() == old(self).cutset(),
    {
        let bits: u8 = self.0;
        if exact {
            assert((bits | 1u8) & 1u8 != 0 && (bits | 1u8) & 2u8 == bits & 2u8 && (bits | 1u8)
                & 4u8 == bits & 4u8 && (bits | 1u8) & 8u8 == bits & 8u8) by (bit_vector);
            self.0 = bits | F_EXACT;
        } else {
            assert((bits & !1u8) & 1u8 == 0 && (bits & !1u8) & 2u8 == bits & 2u8 && (bits & !1u8)
                & 4u8 == bits & 4u8 && (bits & !1u8) & 8u8 == bits & 8u8) by (bit_vector);
            self.0 = bits & !F_EXACT;
        }
    }

    /// Sets or clears the relaxed bit and leaves the other three as they were.
    pub fn set_relaxed(&mut self, relaxed: bool)
        ensures
            final(self).exact() == old(self).exact(),
            final(self).relaxed() == relaxed,
            final(self).marked() == old(self).marked(),
            final(self).cutset() == old(self).cutset(),
    {
        let bits: u8 = self.0;
        if relaxed {
            assert((bits | 2u8) & 2u8 != 0 && (bits | 2u8) & 1u8 == bits & 1u8 && (bits | 2u8)
                & 4u8 == bits & 4u8 && (bits | 2u8) & 8u8 == bits & 8u8) by (bit_vector);
            self.0 = bits | F_RELAXED;
        } else {
            assert((bits & !2u8) & 2u8 == 0 && (bits & !2u8) & 1u8 == bits & 1u8 && (bits & !2u8)
                & 4u8 == bits & 4u8 && (bits & !2u8) & 8u8 == bits & 8u8) by (bit_vector);
            self.0 = bits & !F_RELAXED;
        }
    }

    /// Sets or clears the marked bit and leaves the other three as they were.
    pub fn set_marked(&mut self, marked: bool)
        ensures
            final(self).exact() == old(self).exact(),
            final(self).relaxed() == old(self).relaxed(),
            final(self).marked() == marked,
            final(self).cutset() == old(self).cutset(),
    {
        let bits: u8 = self.0;
        if marked {
            assert((bits | 4u8) & 4u8 != 0 && (bits | 4u8) & 1u8 == bits & 1u8 && (bits | 4u8)
                & 2u8 == bits & 2u8 && (bits | 4u8) & 8u8 == bits & 8u8) by (bit_vector);
            self.0 = bits | F_MARKED;
        } else {
            assert((bits & !4u8) & 4u8 == 0 && (bits & !4u8) & 1u8 == bits & 1u8 && (bits & !4u8)
                & 2u8 == bits & 2u8 && (bits & !4u8) & 8u8 == bits & 8u8) by (bit_vector);
            self.0 = bits & !F_MARKED;
        }
    }

    /// Sets or clears the cutset bit and leaves the other three as they were.
    pub fn set_cutset(&mut self, cutset: bool)
        ensures
            final(self).exact() == old(self).exact(),
            final(self).relaxed() == old(self).relaxed(),
            final(self).marked() == old(self).marked(),
            final(self).cutset() == cutset,
    {
        let bits: u8 = self.0;
        if cutset {
            assert((bits | 8u8) & 8u8 != 0 && (bits | 8u8) & 1u8 == bits & 1u8 && (bits | 8u8)
                & 2u8 == bits & 2u8 && (bits | 8u8) & 4u8 == bits & 4u8) by (bit_vector);
            self.0 = bits | F_CUTSET;
        } else {
            assert((bits & !8u8) & 8u8 == 0 && (bits & !8u8) & 1u8 == bits & 1u8 && (bits & !8u8)
                & 2u8 == bits & 2u8 && (bits & !8u8) & 4u8 == bits & 4u8) by (bit_vector);
            self.0 = bits & !F_CUTSET;
        }
    }
}

} // verus!
