use vstd::prelude::*;

verus! {

/// A cell of a layout: layer, row and column. Within a single layer the
/// layer index is ignored.
#[derive(Debug, PartialEq, Eq, Structural, Clone, Copy, Hash, PartialOrd, Ord)]
pub struct LayoutPosition {
    pub layer_index: usize,
    pub row_index: usize,
    pub col_index: usize,
}

impl LayoutPosition {
    pub fn new(layer_index: usize, row_index: usize, col_index: usize) -> (r: Self)
        ensures
            r.layer_index == layer_index,
            r.row_index == row_index,
            r.col_index == col_index,
    {
        LayoutPosition { layer_index, row_index, col_index }
    }

    pub fn from_tuple(t: (usize, usize, usize)) -> (r: Self)
        ensures
            r.layer_index == t.0,
            r.row_index == t.1,
            r.col_index == t.2,
    {
        LayoutPosition::new(t.0, t.1, t.2)
    }
}

/// A copy of `v`, element by element.
pub fn copy_positions(v: &Vec<LayoutPosition>) -> (r: Vec<LayoutPosition>)
    ensures
        r@ == v@,
{
    let mut r: Vec<LayoutPosition> = Vec::new();
    let mut i: usize = 0;
    while i < v.len()
        invariant
            i <= v.len(),
            r@ == v@.subrange(0, i as int),
        decreases v.len() - i,
    {
        r.push(v[i]);
        assert(v@.subrange(0, i + 1) =~= v@.subrange(0, i as int).push(v@[i as int]));
        i = i + 1;
    }
    assert(v@.subrange(0, v.len() as int) =~= v@);
    r
}

/// The keystrokes that type something, in order, starting from the home
/// layer.
#[derive(Debug, PartialEq, Eq, Clone, PartialOrd, Ord)]
pub struct LayoutPositionSequence {
    sequence: Vec<LayoutPosition>,
}

impl View for LayoutPositionSequence {
    type V = Seq<LayoutPosition>;

    closed spec fn view(&self) -> Seq<LayoutPosition> {
        self.sequence@
    }
}

impl LayoutPositionSequence {
    pub fn push(&mut self, lp: LayoutPosition)
        ensures
            final(self)@ == old(self)@.push(lp),
    {
        self.sequence.push(lp)
    }

    pub fn from_vector(lps: Vec<LayoutPosition>) -> (r: Self)
        ensures
            r@ == lps@,
    {
        LayoutPositionSequence { sequence: lps }
    }

    pub fn from_tuples(lps: Vec<(usize, usize, usize)>) -> (r: Self)
        ensures
            r@.len() == lps@.len(),
            forall|i: int|
                0 <= i < lps@.len() ==> r@[i] == (LayoutPosition {
                    layer_index: lps@[i].0,
                    row_index: lps@[i].1,
                    col_index: lps@[i].2,
                }),
    {
        let mut v: Vec<LayoutPosition> = Vec::new();
        let mut i: usize = 0;
        while i < lps.len()
            invariant
                i <= lps.len(),
                v@.len() == i,
                forall|j: int|
                    0 <= j < i ==> v@[j] == (LayoutPosition {
                        layer_index: lps@[j].0,
                        row_index: lps@[j].1,
                        col_index: lps@[j].2,
                    }),
            decreases lps.len() - i,
        {
            v.push(LayoutPosition::from_tuple(lps[i]));
            i = i + 1;
        }
        LayoutPositionSequence { sequence: v }
    }

    /// Moves the positions of `other` to the end of this sequence.
    pub fn append(&mut self, other: &mut Self)
        ensures
            final(self)@ == old(self)@ + old(other)@,
            final(other)@ == Seq::<LayoutPosition>::empty(),
    {
        self.sequence.append(&mut other.sequence)
    }

    pub fn last(&self) -> (r: Option<&LayoutPosition>)
        ensures
            self@.len() == 0 ==> r.is_none(),
            self@.len() > 0 ==> r == Some(&self@.last()),
    {
        if self.sequence.len() == 0 {
            None
        } else {
            Some(&self.sequence[self.sequence.len() - 1])
        }
    }

    pub fn len(&self) -> (r: usize)
        ensures
            r == self@.len(),
    {
        self.sequence.len()
    }

    /// The position at `index`.
    pub fn get(&self, index: usize) -> (r: LayoutPosition)
        requires
            index < self@.len(),
        ensures
            r == self@[index as int],
    {
        self.sequence[index]
    }

    /// A copy with the same positions.
    pub fn duplicate(&self) -> (r: Self)
        ensures
            r@ == self@,
    {
        LayoutPositionSequence { sequence: copy_positions(&self.sequence) }
    }

    /// The positions, in order.
    pub fn to_vec(&self) -> (r: Vec<LayoutPosition>)
        ensures
            r@ == self@,
    {
        copy_positions(&self.sequence)
    }
}

} // verus!
