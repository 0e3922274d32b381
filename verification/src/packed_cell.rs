use vstd::prelude::*;

verus! {

/// A cell packed into a single byte: bits 0..=3 hold the neighbouring mine
/// count, bit 4 the mine flag, bit 5 the visible flag, bit 6 the marked
/// (flagged-by-player) flag. Bit 7 is unused and always zero here.
#[derive(Clone, Copy, Debug, PartialEq, Eq, Structural)]
pub struct PackedCell(u8);

impl PackedCell {
    /// The raw byte behind the packed representation.
    pub closed spec fn spec_raw(self) -> u8 {
        self.0
    }

    /// The mine flag: bit 4 of the byte.
    pub open spec fn spec_mine(self) -> bool {
        (self.spec_raw() >> 4) & 1 == 1
    }

    /// The visible flag: bit 5 of the byte.
    pub open spec fn spec_visible(self) -> bool {
        (self.spec_raw() >> 5) & 1 == 1
    }

    /// The marked flag: bit 6 of the byte.
    pub open spec fn spec_marked(self) -> bool {
        (self.spec_raw() >> 6) & 1 == 1
    }

    /// The neighbouring mine count: the low nibble of the byte.
    pub open spec fn spec_count(self) -> u8 {
        self.spec_raw() & 0xF
    }

    /// A fresh packed cell: hidden, unmarked, zero count, the given mine flag.
    pub fn new(is_mine: bool) -> (c: PackedCell)
        ensures
            c.spec_mine() == is_mine,
            !c.spec_visible(),
            !c.spec_marked(),
            c.spec_count() == 0,
    {
        let raw: u8 = if is_mine { 0b0001_0000 } else { 0b0000_0000 };
        proof {
            assert((0b0001_0000u8 >> 4) & 1 == 1 && (0b0001_0000u8 >> 5) & 1 == 0
                && (0b0001_0000u8 >> 6) & 1 == 0 && 0b0001_0000u8 & 0xF == 0) by (bit_vector);
            assert((0b0000_0000u8 >> 4) & 1 == 0 && (0b0000_0000u8 >> 5) & 1 == 0
                && (0b0000_0000u8 >> 6) & 1 == 0 && 0b0000_0000u8 & 0xF == 0) by (bit_vector);
        }
        PackedCell(raw)
    }

    /// A packed cell with every attribute given at once. A count above the
    /// four low bits' range is truncated to its low nibble.
    pub fn new_full(is_mine: bool, is_visible: bool, is_marked: bool, neighbouring_mines: u8) -> (c:
        PackedCell)
        ensures
            c.spec_mine() == is_mine,
            c.spec_visible() == is_visible,
            c.spec_marked() == is_marked,
            c.spec_count() == neighbouring_mines & 0xF,
    {
        let m: u8 = if is_mine { 1 } else { 0 };
        let v: u8 = if is_visible { 1 } else { 0 };
        let k: u8 = if is_marked { 1 } else { 0 };
        let raw: u8 = (neighbouring_mines & 0xF) | (m << 4) | (v << 5) | (k << 6);
        proof {
            let n = neighbouring_mines;
            assert(m <= 1 && v <= 1 && k <= 1 ==> {
                let r = (n & 0xF) | (m << 4) | (v << 5) | (k << 6);
                &&& (r >> 4) & 1 == m
                &&& (r >> 5) & 1 == v
                &&& (r >> 6) & 1 == k
                &&& r & 0xF == n & 0xF
            }) by (bit_vector);
        }
        PackedCell(raw)
    }

    pub fn is_mine(&self) -> (b: bool)
        ensures
            b == self.spec_mine(),
    {
        proof {
            let r = self.0;
            assert(((r >> 4) & 1 != 0) == ((r >> 4) & 1 == 1)) by (bit_vector);
        }
        ((self.0 >> 4) & 1) != 0
    }

    pub fn set_mine(&mut self, is_mine: bool)
        ensures
            final(self).spec_mine() == is_mine,
            final(self).spec_visible() == old(self).spec_visible(),
            final(self).spec_marked() == old(self).spec_marked(),
            final(self).spec_count() == old(self).spec_count(),
    {
        let m: u8 = if is_mine { 1 } else { 0 };
        proof {
            let r = self.0;
            assert(m <= 1 ==> {
                let s = (r & !(1u8 << 4)) | (m << 4);
                &&& (s >> 4) & 1 == m
                &&& (s >> 5) & 1 == (r >> 5) & 1
                &&& (s >> 6) & 1 == (r >> 6) & 1
                &&& s & 0xF == r & 0xF
            }) by (bit_vector);
        }
        self.0 = (self.0 & !(1u8 << 4)) | (m << 4);
    }

    pub fn is_visible(&self) -> (b: bool)
        ensures
            b == self.spec_visible(),
    {
        proof {
            let r = self.0;
            assert(((r >> 5) & 1 != 0) == ((r >> 5) & 1 == 1)) by (bit_vector);
        }
        ((self.0 >> 5) & 1) != 0
    }

    pub fn set_visible(&mut self, is_visible: bool)
        ensures
            final(self).spec_visible() == is_visible,
            final(self).spec_mine() == old(self).spec_mine(),
            final(self).spec_marked() == old(self).spec_marked(),
            final(self).spec_count() == old(self).spec_count(),
    {
        let v: u8 = if is_visible { 1 } else { 0 };
        proof {
            let r = self.0;
            assert(v <= 1 ==> {
                let s = (r & !(1u8 << 5)) | (v << 5);
                &&& (s >> 5) & 1 == v
                &&& (s >> 4) & 1 == (r >> 4) & 1
                &&& (s >> 6) & 1 == (r >> 6) & 1
                &&& s & 0xF == r & 0xF
            }) by (bit_vector);
        }
        self.0 = (self.0 & !(1u8 << 5)) | (v << 5);
    }

    pub fn is_marked(&self) -> (b: bool)
        ensures
            b == self.spec_marked(),
    {
        proof {
            let r = self.0;
            assert(((r >> 6) & 1 != 0) == ((r >> 6) & 1 == 1)) by (bit_vector);
        }
        ((self.0 >> 6) & 1) != 0
    }

    pub fn set_marked(&mut self, is_marked: bool)
        ensures
            final(self).spec_marked() == is_marked,
            final(self).spec_mine() == old(self).spec_mine(),
            final(self).spec_visible() == old(self).spec_visible(),
            final(self).spec_count() == old(self).spec_count(),
    {
        let k: u8 = if is_marked { 1 } else { 0 };
        proof {
            let r = self.0;
            assert(k <= 1 ==> {
                let s = (r & !(1u8 << 6)) | (k << 6);
                &&& (s >> 6) & 1 == k
                &&& (s >> 4) & 1 == (r >> 4) & 1
                &&& (s >> 5) & 1 == (r >> 5) & 1
                &&& s & 0xF == r & 0xF
            }) by (bit_vector);
        }
        self.0 = (self.0 & !(1u8 << 6)) | (k << 6);
    }

    pub fn neighbouring_mines(&self) -> (n: u8)
        ensures
            n == self.spec_count(),
    {
        self.0 & 0xF
    }

    /// Store a neighbouring mine count; a value above the low nibble's range
    /// is truncated to its low nibble.
    pub fn set_neighbouring_mines(&mut self, neighbouring_mines: u8)
        ensures
            final(self).spec_count() == neighbouring_mines & 0xF,
            final(self).spec_mine() == old(self).spec_mine(),
            final(self).spec_visible() == old(self).spec_visible(),
            final(self).spec_marked() == old(self).spec_marked(),
    {
        proof {
            let r = self.0;
            let n = neighbouring_mines;
            assert({
                let s = (r & !0xFu8) | (n & 0xF);
                &&& s & 0xF == n & 0xF
                &&& (s >> 4) & 1 == (r >> 4) & 1
                &&& (s >> 5) & 1 == (r >> 5) & 1
                &&& (s >> 6) & 1 == (r >> 6) & 1
            }) by (bit_vector);
        }
        self.0 = (self.0 & !0xFu8) | (neighbouring_mines & 0xF);
    }

    /// Read access to the raw byte.
    pub fn as_raw(&self) -> (r: &u8)
        ensures
            *r == self.spec_raw(),
    {
        &self.0
    }

    /// Write access to the raw byte.
    pub fn as_raw_mut(&mut self) -> (r: &mut u8)
        ensures
            *r == old(self).spec_raw(),
            final(self).spec_raw() == *final(r),
    {
        &mut self.0
    }
}

} // verus!
