//! The lanes of a counting table: a fixed array of unsigned counters of one
//! of three widths.

use vstd::prelude::*;

verus! {

/// The width of a counter lane.
#[derive(Clone, Copy, Debug, PartialEq, Eq, Structural)]
pub enum Width {
    /// Eight bits.
    W8,
    /// Thirty-two bits.
    W32,
    /// Sixty-four bits.
    W64,
}

impl Width {
    /// The largest value a lane of this width holds.
    pub open spec fn max_spec(self) -> u64 {
        match self {
            Width::W8 => 0xff,
            Width::W32 => 0xffff_ffff,
            Width::W64 => 0xffff_ffff_ffff_ffff,
        }
    }

    /// The largest value a lane of this width holds.
    #[verifier::when_used_as_spec(max_spec)]
    pub fn max(self) -> (m: u64)
        ensures
            m == self.max_spec(),
    {
        match self {
            Width::W8 => 0xff,
            Width::W32 => 0xffff_ffff,
            Width::W64 => 0xffff_ffff_ffff_ffff,
        }
    }

    /// The number of bytes one lane of this width takes.
    pub open spec fn bytes_spec(self) -> usize {
        match self {
            Width::W8 => 1,
            Width::W32 => 4,
            Width::W64 => 8,
        }
    }

    /// The number of bytes one lane of this width takes.
    #[verifier::when_used_as_spec(bytes_spec)]
    pub fn bytes(self) -> (b: usize)
        ensures
            b == self.bytes_spec(),
    {
        match self {
            Width::W8 => 1,
            Width::W32 => 4,
            Width::W64 => 8,
        }
    }
}

/// A fixed array of counters, stored at their own width.
pub enum Lanes {
    /// Eight-bit lanes.
    W8(Vec<u8>),
    /// Thirty-two-bit lanes.
    W32(Vec<u32>),
    /// Sixty-four-bit lanes.
    W64(Vec<u64>),
}

impl Lanes {
    /// The width of the lanes.
    pub open spec fn width(&self) -> Width {
        match self {
            Lanes::W8(_) => Width::W8,
            Lanes::W32(_) => Width::W32,
            Lanes::W64(_) => Width::W64,
        }
    }

    /// The values of the lanes, in order.
    pub open spec fn values(&self) -> Seq<u64> {
        match self {
            Lanes::W8(v) => Seq::new(v@.len(), |i: int| v@[i] as u64),
            Lanes::W32(v) => Seq::new(v@.len(), |i: int| v@[i] as u64),
            Lanes::W64(v) => v@,
        }
    }

    /// No lane holds more than its width allows.
    pub proof fn lemma_bounded(&self)
        ensures
            forall|i: int| 0 <= i < self.values().len() ==> #[trigger] self.values()[i] <= self.width().max_spec(),
    {
    }

    /// `len` lanes of the given width, each holding `value`.
    pub fn filled(width: Width, len: usize, value: u64) -> (l: Lanes)
        requires
            value <= width.max_spec(),
        ensures
            l.width() == width,
            l.values() == Seq::new(len as nat, |i: int| value),
    {
        let l = match width {
            Width::W8 => Lanes::W8(vec![value as u8; len]),
            Width::W32 => Lanes::W32(vec![value as u32; len]),
            Width::W64 => Lanes::W64(vec![value; len]),
        };
        assert(l.values() =~= Seq::new(len as nat, |i: int| value));
        l
    }

    /// The number of lanes.
    pub fn len(&self) -> (n: usize)
        ensures
            n == self.values().len(),
    {
        match self {
            Lanes::W8(v) => v.len(),
            Lanes::W32(v) => v.len(),
            Lanes::W64(v) => v.len(),
        }
    }

    /// The value of lane `i`.
    pub fn get(&self, i: usize) -> (v: u64)
        requires
            i < self.values().len(),
        ensures
            v == self.values()[i as int],
            v <= self.width().max_spec(),
    {
        match self {
            Lanes::W8(v) => v[i] as u64,
            Lanes::W32(v) => v[i] as u64,
            Lanes::W64(v) => v[i],
        }
    }

    /// Stores `value` in lane `i`.
    pub fn set(&mut self, i: usize, value: u64)
        requires
            i < old(self).values().len(),
            value <= old(self).width().max_spec(),
        ensures
            final(self).width() == old(self).width(),
            final(self).values() == old(self).values().update(i as int, value),
    {
        match self {
            Lanes::W8(v) => {
                v.set(i, value as u8);
            },
            Lanes::W32(v) => {
                v.set(i, value as u32);
            },
            Lanes::W64(v) => {
                v.set(i, value);
            },
        }
        assert(self.values() =~= old(self).values().update(i as int, value));
    }
}

} // verus!
