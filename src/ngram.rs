use vstd::prelude::*;

use crate::keycode::Keycode;

verus! {

/// A fixed-length window of consecutive keycodes.
#[derive(Debug, PartialEq, Eq, Hash, Clone)]
pub struct Ngram {
    sequence: Vec<Keycode>,
}

impl View for Ngram {
    type V = Seq<Keycode>;

    closed spec fn view(&self) -> Seq<Keycode> {
        self.sequence@
    }
}

/// A copy of `v`, element by element.
pub fn copy_keycodes(v: &Vec<Keycode>) -> (r: Vec<Keycode>)
    ensures
        r@ == v@,
{
    let mut r: Vec<Keycode> = Vec::new();
    let mut i: usize = 0;
    while i < v.len()
        invariant
            i <= v.len(),
            r@ == v@.subrange(0, i as int),
        decreases v.len() - i,
    {
        r.push(v[i]);
        assert(v@.subrange(0, i + 1) =~= v@.subrange(0, i as int).push(v@[i as int]));
        i = i + 1;
    }
    assert(v@.subrange(0, v.len() as int) =~= v@);
    r
}

impl Ngram {
    pub fn new(v: Vec<Keycode>) -> (r: Ngram)
        ensures
            r@ == v@,
    {
        Ngram { sequence: v }
    }

    pub fn len(&self) -> (r: usize)
        ensures
            r == self@.len(),
    {
        self.sequence.len()
    }

    /// The keycode at `i`.
    pub fn get(&self, i: usize) -> (r: Keycode)
        requires
            i < self@.len(),
        ensures
            r == self@[i as int],
    {
        self.sequence[i]
    }

    /// A copy with the same keycodes.
    pub fn duplicate(&self) -> (r: Ngram)
        ensures
            r@ == self@,
    {
        Ngram { sequence: copy_keycodes(&self.sequence) }
    }

    /// Whether both hold the same keycodes in the same order.
    pub fn same_as(&self, other: &Ngram) -> (r: bool)
        ensures
            r == (self@ == other@),
    {
        if self.sequence.len() != other.sequence.len() {
            return false;
        }
        let mut i: usize = 0;
        while i < self.sequence.len()
            invariant
                i <= self@.len(),
                self@.len() == other@.len(),
                forall|j: int| 0 <= j < i ==> self@[j] == other@[j],
            decreases self@.len() - i,
        {
            if self.sequence[i] != other.sequence[i] {
                return false;
            }
            i = i + 1;
        }
        assert(self@ =~= other@);
        true
    }
}

} // verus!
