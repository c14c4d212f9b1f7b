use vstd::prelude::*;
use crate::body::{VoxelBody, VoxelBodyWithPos, VoxelPos};

verus! {

/// A cell's contents as plain values: the body and its three coordinates.
pub type CellView = (VoxelBody, u8, u8, u8);

pub open spec fn cell_view(c: VoxelBodyWithPos) -> CellView {
    (c.0, c.1.0@[0], c.1.0@[1], c.1.0@[2])
}

/// A snapshot of the lattice: the occupied cells with their bodies. Two
/// worlds are the same value when their cells are, in order; worlds that
/// differ only by a symmetry of the lattice are different values.
#[derive(Debug)]
pub struct VoxelWorld {
    pub cells: Vec<VoxelBodyWithPos>,
}

impl View for VoxelWorld {
    type V = Seq<CellView>;

    open spec fn view(&self) -> Seq<CellView> {
        self.cells@.map_values(|c: VoxelBodyWithPos| cell_view(c))
    }
}

impl VoxelWorld {
    pub fn from_cells(cells: Vec<VoxelBodyWithPos>) -> (r: VoxelWorld)
        ensures
            r.cells@ == cells@,
    {
        VoxelWorld { cells }
    }

    /// A copy holding the same cells.
    pub fn copy(&self) -> (r: VoxelWorld)
        ensures
            r@ == self@,
    {
        let mut cells: Vec<VoxelBodyWithPos> = Vec::new();
        let mut i: usize = 0;
        while i < self.cells.len()
            invariant
                i <= self.cells@.len(),
                cells@.len() == i,
                forall|k: int| 0 <= k < i ==> cell_view(#[trigger] cells@[k]) == cell_view(self.cells@[k]),
            decreases self.cells@.len() - i,
        {
            let c = self.cells[i];
            cells.push((c.0, VoxelPos(c.1.0)));
            i = i + 1;
        }
        let r = VoxelWorld { cells };
        assert(r@ =~= self@);
        r
    }

    /// Whether both worlds hold the same cells.
    pub fn same_as(&self, other: &VoxelWorld) -> (r: bool)
        ensures
            r == (self@ == other@),
    {
        if self.cells.len() != other.cells.len() {
            assert(self@.len() != other@.len());
            return false;
        }
        let mut i: usize = 0;
        while i < self.cells.len()
            invariant
                i <= self.cells@.len(),
                self.cells@.len() == other.cells@.len(),
                forall|k: int| 0 <= k < i ==> self@[k] == other@[k],
            decreases self.cells@.len() - i,
        {
            let a = self.cells[i];
            let b = other.cells[i];
            if !(a.0 == b.0 && a.1.0[0] == b.1.0[0] && a.1.0[1] == b.1.0[1] && a.1.0[2] == b.1.0[2]) {
                assert(self@[i as int] != other@[i as int]);
                return false;
            }
            i = i + 1;
        }
        assert(self@ =~= other@);
        true
    }
}

} // verus!
