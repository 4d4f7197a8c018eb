//! Value types.
//!
//! A type is a lane kind, the width of one lane in bits and a lane count. A
//! scalar type has one lane. Two partial operations make smaller types:
//! halving the width of every lane, and halving the number of lanes.

use vstd::prelude::*;

verus! {

/// What one lane of a type holds.
#[derive(Clone, Copy, Debug, PartialEq, Eq, Hash, Structural)]
pub enum LaneKind {
    /// A boolean.
    Bool,
    /// An integer.
    Int,
    /// A floating point number.
    Float,
}

/// The type of an SSA value.
#[derive(Clone, Copy, Debug, PartialEq, Eq, Hash, Structural)]
pub struct Type {
    /// What each lane holds.
    pub kind: LaneKind,
    /// The width of one lane in bits.
    pub lane_bits: u16,
    /// The number of lanes; 1 for a scalar.
    pub lanes: u16,
}

impl Type {
    /// A scalar integer type of the given width.
    pub open spec fn spec_int_with_bits(bits: u16) -> Type {
        Type { kind: LaneKind::Int, lane_bits: bits, lanes: 1 }
    }

    /// The type with the lanes of `self` at half their width: defined for
    /// integer lanes of an even width of at least 16 bits.
    pub open spec fn spec_half_width(self) -> Option<Type> {
        if self.kind == LaneKind::Int && self.lane_bits >= 16 && self.lane_bits % 2 == 0 {
            Some(Type { kind: self.kind, lane_bits: (self.lane_bits / 2) as u16, lanes: self.lanes })
        } else {
            None
        }
    }

    /// The type with half the lanes of `self`: defined for an even, non-zero
    /// lane count.
    pub open spec fn spec_half_vector(self) -> Option<Type> {
        if self.lanes >= 2 && self.lanes % 2 == 0 {
            Some(Type { kind: self.kind, lane_bits: self.lane_bits, lanes: (self.lanes / 2) as u16 })
        } else {
            None
        }
    }

    /// The total number of bits of a value of this type.
    pub open spec fn spec_bits(self) -> nat {
        (self.lane_bits * self.lanes) as nat
    }

    /// A scalar integer type of the given width.
    #[verifier::when_used_as_spec(spec_int_with_bits)]
    pub fn int_with_bits(bits: u16) -> (t: Type)
        ensures
            t == Type::spec_int_with_bits(bits),
    {
        Type { kind: LaneKind::Int, lane_bits: bits, lanes: 1 }
    }

    /// A scalar floating point type of the given width.
    pub fn float_with_bits(bits: u16) -> (t: Type)
        ensures
            t == (Type { kind: LaneKind::Float, lane_bits: bits, lanes: 1 }),
    {
        Type { kind: LaneKind::Float, lane_bits: bits, lanes: 1 }
    }

    /// The scalar boolean type.
    pub fn boolean() -> (t: Type)
        ensures
            t == (Type { kind: LaneKind::Bool, lane_bits: 1, lanes: 1 }),
    {
        Type { kind: LaneKind::Bool, lane_bits: 1, lanes: 1 }
    }

    /// The vector type with `lanes` lanes, each of the lane type of `self`.
    pub fn with_lanes(self, lanes: u16) -> (t: Type)
        ensures
            t == (Type { kind: self.kind, lane_bits: self.lane_bits, lanes: lanes }),
    {
        Type { kind: self.kind, lane_bits: self.lane_bits, lanes }
    }

    /// The width of one lane in bits.
    pub fn lane_bits(self) -> (b: u16)
        ensures
            b == self.lane_bits,
    {
        self.lane_bits
    }

    /// The number of lanes.
    pub fn lane_count(self) -> (n: u16)
        ensures
            n == self.lanes,
    {
        self.lanes
    }

    /// Is this a type with more than one lane?
    pub fn is_vector(self) -> (b: bool)
        ensures
            b == (self.lanes > 1),
    {
        self.lanes > 1
    }

    /// Is this a type with integer lanes?
    pub fn is_int(self) -> (b: bool)
        ensures
            b == (self.kind == LaneKind::Int),
    {
        self.kind == LaneKind::Int
    }

    /// The total number of bits of a value of this type.
    pub fn bits(self) -> (b: u32)
        ensures
            b == self.spec_bits(),
    {
        let lane: u32 = self.lane_bits as u32;
        let count: u32 = self.lanes as u32;
        assert(lane * count <= 0xffff * 0xffff) by (nonlinear_arith)
            requires
                lane <= 0xffff,
                count <= 0xffff,
        ;
        lane * count
    }

    /// The type with the lanes of `self` at half their width, if the lanes
    /// are integers of an even width of at least 16 bits.
    #[verifier::when_used_as_spec(spec_half_width)]
    pub fn half_width(self) -> (r: Option<Type>)
        ensures
            r == self.spec_half_width(),
    {
        if self.kind == LaneKind::Int && self.lane_bits >= 16 && self.lane_bits % 2 == 0 {
            Some(Type { kind: self.kind, lane_bits: self.lane_bits / 2, lanes: self.lanes })
        } else {
            None
        }
    }

    /// The type with half the lanes of `self`, if the lane count is even and
    /// not zero.
    #[verifier::when_used_as_spec(spec_half_vector)]
    pub fn half_vector(self) -> (r: Option<Type>)
        ensures
            r == self.spec_half_vector(),
    {
        if self.lanes >= 2 && self.lanes % 2 == 0 {
            Some(Type { kind: self.kind, lane_bits: self.lane_bits, lanes: self.lanes / 2 })
        } else {
            None
        }
    }

    /// Halving a type never gives the type back, and both halvings keep the
    /// lane kind; a halved type has half the bits.
    pub proof fn lemma_half_differs(self)
        ensures
            self.spec_half_width() != Some(self),
            self.spec_half_vector() != Some(self),
            self.spec_half_width() matches Some(h) ==> 2 * h.spec_bits() == self.spec_bits(),
            self.spec_half_vector() matches Some(h) ==> 2 * h.spec_bits() == self.spec_bits(),
    {
        if let Some(h) = self.spec_half_width() {
            assert(2 * (h.lane_bits * h.lanes) == self.lane_bits * self.lanes) by (nonlinear_arith)
                requires
                    2 * h.lane_bits == self.lane_bits,
                    h.lanes == self.lanes,
            ;
        }
        if let Some(h) = self.spec_half_vector() {
            assert(2 * (h.lane_bits * h.lanes) == self.lane_bits * self.lanes) by (nonlinear_arith)
                requires
                    2 * h.lanes == self.lanes,
                    h.lane_bits == self.lane_bits,
            ;
        }
    }
}

} // verus!
