//! The attack tables: for each square the squares a knight, a king or a
//! pawn attacks from it, and for bishops and rooks a magic-indexed table of
//! attack sets, one entry per arrangement of the blockers that matter.
//!
//! What is asked of tables here is their shape: that every lookup stays
//! inside them. Tables that hold the true attack sets are built elsewhere
//! in this crate.

use vstd::prelude::*;

verus! {

/// The magic entry of one square for one kind of sliding piece.
#[derive(Clone, Debug)]
pub struct Magic {
    /// The squares whose occupancy matters for attacks from this square.
    pub mask: u64,
    /// The multiplier that spreads the blockers over the high bits.
    pub magic: u64,
    /// How far the product is shifted right to give an index.
    pub shift: u32,
    /// The attack set for each index.
    pub attacks: Vec<u64>,
}

impl Magic {
    /// The entry can be indexed by every product shifted by `shift`.
    pub open spec fn wf(&self) -> bool {
        &&& self.shift < 64
        &&& self.attacks@.len() > (0xffff_ffff_ffff_ffffu64 >> (self.shift as u64))
    }

    /// The index of the attack set for the occupied squares `occupied`:
    /// the blockers on the mask, times the multiplier modulo 2^64, shifted
    /// right.
    pub open spec fn index(&self, occupied: u64) -> u64 {
        (occupied & self.mask).wrapping_mul(self.magic) >> (self.shift as u64)
    }

    /// The squares attacked when the squares `occupied` hold pieces.
    pub open spec fn spec_lookup(&self, occupied: u64) -> u64 {
        self.attacks@[self.index(occupied) as int]
    }

    /// Whether the entry is well formed.
    pub fn is_wf(&self) -> (ok: bool)
        ensures
            ok == self.wf(),
    {
        self.shift < 64 && self.attacks.len() as u64 > (0xffff_ffff_ffff_ffffu64 >> (self.shift as u64))
    }

    /// Looks up the squares attacked when the squares `occupied` hold
    /// pieces.
    #[verifier::when_used_as_spec(spec_lookup)]
    pub fn lookup(&self, occupied: u64) -> (r: u64)
        requires
            self.wf(),
        ensures
            r == self.spec_lookup(occupied),
    {
        let blockers: u64 = occupied & self.mask;
        let product: u64 = blockers.wrapping_mul(self.magic);
        let shift: u64 = self.shift as u64;
        let index: u64 = product >> shift;
        assert(product >> shift <= 0xffff_ffff_ffff_ffffu64 >> shift) by (bit_vector);
        let size: usize = self.attacks.len();
        assert(index < size);
        self.attacks[index as usize]
    }
}

/// The attack tables of all pieces, one entry per square.
#[derive(Clone, Debug)]
pub struct MagicTables {
    /// The squares a knight attacks from each square.
    pub knight: Vec<u64>,
    /// The squares a king attacks from each square.
    pub king: Vec<u64>,
    /// The squares a white pawn attacks from each square.
    pub white_pawn: Vec<u64>,
    /// The squares a black pawn attacks from each square.
    pub black_pawn: Vec<u64>,
    /// The magic entries of the bishop.
    pub bishop: Vec<Magic>,
    /// The magic entries of the rook.
    pub rook: Vec<Magic>,
}

impl MagicTables {
    /// Every table has an entry for each of the 64 squares, and every magic
    /// entry is well formed.
    pub open spec fn wf(&self) -> bool {
        &&& self.knight@.len() == 64
        &&& self.king@.len() == 64
        &&& self.white_pawn@.len() == 64
        &&& self.black_pawn@.len() == 64
        &&& self.bishop@.len() == 64
        &&& self.rook@.len() == 64
        &&& forall|s: int| 0 <= s < 64 ==> (#[trigger] self.bishop@[s]).wf()
        &&& forall|s: int| 0 <= s < 64 ==> (#[trigger] self.rook@[s]).wf()
    }

    /// Whether the tables are well formed.
    pub fn is_wf(&self) -> (ok: bool)
        ensures
            ok == self.wf(),
    {
        if self.knight.len() != 64 || self.king.len() != 64 || self.white_pawn.len() != 64
            || self.black_pawn.len() != 64 || self.bishop.len() != 64 || self.rook.len() != 64 {
            return false;
        }
        let mut s: usize = 0;
        while s < 64
            invariant
                s <= 64,
                self.bishop@.len() == 64,
                self.rook@.len() == 64,
                forall|k: int| 0 <= k < s ==> (#[trigger] self.bishop@[k]).wf(),
                forall|k: int| 0 <= k < s ==> (#[trigger] self.rook@[k]).wf(),
            decreases 64 - s,
        {
            if !self.bishop[s].is_wf() || !self.rook[s].is_wf() {
                return false;
            }
            s = s + 1;
        }
        true
    }
}

} // verus!
