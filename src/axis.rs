use vstd::prelude::*;

verus! {

/// One of the three principal axes of the lattice, ordered X < Y < Z.
#[derive(Debug, Clone, Copy, PartialEq, Eq, Structural, Hash, PartialOrd, Ord)]
pub enum Axis {
    X,
    Y,
    Z,
}

/// Three successor steps return to the start, and the predecessor undoes the
/// successor (and the other way round).
pub proof fn lemma_axis_cycle(a: Axis)
    ensures
        a.spec_next().spec_next().spec_next() == a,
        a.spec_next().spec_prev() == a,
        a.spec_prev().spec_next() == a,
{
}

impl Axis {
    /// Position of the axis in the order X, Y, Z.
    pub open spec fn index(self) -> nat {
        match self {
            Axis::X => 0,
            Axis::Y => 1,
            Axis::Z => 2,
        }
    }

    /// The axis whose index is `i` modulo three.
    pub open spec fn from_index(i: nat) -> Axis {
        let k = i % 3;
        if k == 0 {
            Axis::X
        } else if k == 1 {
            Axis::Y
        } else {
            Axis::Z
        }
    }

    pub open spec fn spec_next(self) -> Axis {
        Axis::from_index(self.index() + 1)
    }

    pub open spec fn spec_prev(self) -> Axis {
        Axis::from_index(self.index() + 2)
    }

    pub fn as_index(self) -> (r: usize)
        ensures
            r == self.index(),
    {
        match self {
            Axis::X => 0,
            Axis::Y => 1,
            Axis::Z => 2,
        }
    }

    /// Cyclic successor: X -> Y -> Z -> X.
    pub fn next_axis(self) -> (r: Axis)
        ensures
            r == self.spec_next(),
    {
        match self {
            Axis::X => Axis::Y,
            Axis::Y => Axis::Z,
            Axis::Z => Axis::X,
        }
    }

    /// Cyclic predecessor: X -> Z -> Y -> X.
    pub fn prev_axis(self) -> (r: Axis)
        ensures
            r == self.spec_prev(),
    {
        match self {
            Axis::X => Axis::Z,
            Axis::Y => Axis::X,
            Axis::Z => Axis::Y,
        }
    }
}

} // verus!
