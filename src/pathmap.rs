use vstd::prelude::*;

use crate::keycode::Keycode;
use crate::position::{LayoutPosition, LayoutPositionSequence};

verus! {

/// The paths of a list of sequences.
pub open spec fn paths_view(v: Seq<LayoutPositionSequence>) -> Seq<Seq<LayoutPosition>> {
    v.map_values(|s: LayoutPositionSequence| s@)
}

/// A copy of a list of sequences.
pub fn copy_sequences(v: &Vec<LayoutPositionSequence>) -> (r: Vec<LayoutPositionSequence>)
    ensures
        paths_view(r@) == paths_view(v@),
{
    let mut r: Vec<LayoutPositionSequence> = Vec::new();
    let mut i: usize = 0;
    while i < v.len()
        invariant
            i <= v.len(),
            paths_view(r@) == paths_view(v@.subrange(0, i as int)),
        decreases v.len() - i,
    {
        r.push(v[i].duplicate());
        assert(paths_view(v@.subrange(0, i + 1)) =~= paths_view(v@.subrange(0, i as int)).push(v@[i as int]@));
        assert(paths_view(r@) =~= paths_view(v@.subrange(0, i + 1)));
        i = i + 1;
    }
    assert(v@.subrange(0, v.len() as int) =~= v@);
    r
}

/// An index from keycodes to every keystroke sequence that types them.
/// Entries are kept in the order of their first insertion; keys are unique.
#[derive(Debug, PartialEq, Clone)]
pub struct KeycodePathMap {
    entries: Vec<(Keycode, Vec<LayoutPositionSequence>)>,
}

impl KeycodePathMap {
    /// The keys, in entry order.
    pub closed spec fn keys(&self) -> Seq<Keycode> {
        self.entries@.map_values(|e: (Keycode, Vec<LayoutPositionSequence>)| e.0)
    }

    pub closed spec fn wf(&self) -> bool {
        self.keys().no_duplicates()
    }

    /// The paths recorded for `k` (none when `k` has no entry).
    pub closed spec fn paths(&self, k: Keycode) -> Seq<Seq<LayoutPosition>> {
        let i = self.keys().index_of(k);
        if self.keys().contains(k) {
            paths_view(self.entries@[i].1@)
        } else {
            Seq::empty()
        }
    }

    pub open spec fn has(&self, k: Keycode) -> bool {
        self.keys().contains(k)
    }

    /// A key without an entry has no paths.
    pub proof fn lemma_absent(&self, k: Keycode)
        ensures
            !self.has(k) ==> self.paths(k) == Seq::<Seq<LayoutPosition>>::empty(),
    {
    }

    pub fn new() -> (m: Self)
        ensures
            m.wf(),
            m.keys() == Seq::<Keycode>::empty(),
            forall|k: Keycode| m.paths(k) == Seq::<Seq<LayoutPosition>>::empty(),
    {
        let m = KeycodePathMap { entries: Vec::new() };
        assert(m.keys() =~= Seq::<Keycode>::empty());
        m
    }

    fn find(&self, k: Keycode) -> (r: Option<usize>)
        requires
            self.wf(),
        ensures
            r is None ==> !self.keys().contains(k),
            r matches Some(i) ==> i < self.entries@.len() && self.keys()[i as int] == k
                && self.keys().index_of(k) == i,
    {
        let mut i: usize = 0;
        while i < self.entries.len()
            invariant
                i <= self.entries@.len(),
                self.keys().len() == self.entries@.len(),
                self.wf(),
                forall|j: int| 0 <= j < i ==> self.keys()[j] != k,
            decreases self.entries@.len() - i,
        {
            if self.entries[i].0 == k {
                assert(self.keys()[i as int] == k);
                proof {
                    assert(self.keys().contains(k));
                    let j = self.keys().index_of(k);
                    assert(self.keys()[j] == k);
                    assert(0 <= j < self.keys().len());
                    if j != i {
                        assert(self.keys()[j] != self.keys()[i as int]);
                    }
                }
                return Some(i);
            }
            i = i + 1;
        }
        None
    }

    /// The paths recorded for `k`, if it has an entry.
    pub fn get(&self, k: Keycode) -> (r: Option<&Vec<LayoutPositionSequence>>)
        requires
            self.wf(),
        ensures
            r is None <==> !self.has(k),
            r matches Some(v) ==> paths_view(v@) == self.paths(k),
    {
        match self.find(k) {
            Some(i) => Some(&self.entries[i].1),
            None => None,
        }
    }

    /// Appends `s` to the paths of `k`, adding an entry if needed.
    pub fn add(&mut self, k: Keycode, s: LayoutPositionSequence)
        requires
            old(self).wf(),
        ensures
            final(self).wf(),
            final(self).keys() == if old(self).has(k) {
                old(self).keys()
            } else {
                old(self).keys().push(k)
            },
            final(self).paths(k) == old(self).paths(k).push(s@),
            forall|j: Keycode| j != k ==> final(self).paths(j) == old(self).paths(j),
            forall|j: Keycode| #[trigger] final(self).has(j) <==> old(self).has(j) || j == k,
    {
        let ghost old_keys = self.keys();
        match self.find(k) {
            Some(i) => {
                let mut e = self.entries.remove(i);
                let ghost mid = self.entries@;
                e.1.push(s);
                self.entries.insert(i, e);
                assert(self.keys() =~= old_keys);
                assert(paths_view(e.1@) =~= old(self).paths(k).push(s@));
                assert(self.has(k));
            },
            None => {
                let mut v: Vec<LayoutPositionSequence> = Vec::new();
                v.push(s);
                self.entries.push((k, v));
                assert(self.keys() =~= old_keys.push(k));
                proof {
                    assert(self.keys()[old_keys.len() as int] == k);
                    assert(self.keys().contains(k));
                    let j = self.keys().index_of(k);
                    assert(self.keys()[j] == k);
                    assert(paths_view(v@) =~= seq![s@]);
                }
                assert forall|j: Keycode| #[trigger] self.has(j) <==> old(self).has(j) || j == k by {
                    if old_keys.contains(j) {
                        let a = choose|a: int| 0 <= a < old_keys.len() && old_keys[a] == j;
                        assert(self.keys()[a] == j);
                    }
                    if self.keys().contains(j) && j != k {
                        let b = choose|b: int| 0 <= b < self.keys().len() && self.keys()[b] == j;
                        assert(old_keys[b] == j);
                    }
                }
                assert forall|j: Keycode| j != k implies self.paths(j) == old(self).paths(j) by {
                    if old_keys.contains(j) {
                        let a = old_keys.index_of(j);
                        assert(old_keys[a] == j);
                        assert(self.keys()[a] == j);
                        assert(self.keys().contains(j));
                        assert(self.keys()[self.keys().index_of(j)] == j);
                        let b = self.keys().index_of(j);
                        assert(self.keys()[a] == j);
                        assert(a == b);
                    } else {
                        assert(!self.keys().contains(j)) by {
                            if self.keys().contains(j) {
                                let b = choose|b: int| 0 <= b < self.keys().len() && self.keys()[b] == j;
                                assert(old_keys[b] == j);
                            }
                        }
                    }
                }
            },
        }
    }
}

impl KeycodePathMap {
    pub fn num_entries(&self) -> (r: usize)
        ensures
            r == self.keys().len(),
    {
        self.entries.len()
    }

    /// The key of entry `i` and its paths.
    pub fn entry(&self, i: usize) -> (r: (Keycode, &Vec<LayoutPositionSequence>))
        requires
            self.wf(),
            i < self.keys().len(),
        ensures
            r.0 == self.keys()[i as int],
            paths_view(r.1@) == self.paths(r.0),
    {
        let ghost k = self.keys()[i as int];
        proof {
            assert(self.keys().contains(k));
            let j = self.keys().index_of(k);
            assert(self.keys()[j] == k);
            assert(0 <= j < self.keys().len());
            if j != i {
                assert(self.keys()[j] != self.keys()[i as int]);
            }
        }
        (self.entries[i].0, &self.entries[i].1)
    }

    /// The keys that have an entry, each once.
    pub fn key_list(&self) -> (r: Vec<Keycode>)
        ensures
            r@ == self.keys(),
    {
        let mut r: Vec<Keycode> = Vec::new();
        let mut i: usize = 0;
        while i < self.entries.len()
            invariant
                i <= self.entries@.len(),
                self.keys().len() == self.entries@.len(),
                r@ == self.keys().subrange(0, i as int),
            decreases self.entries@.len() - i,
        {
            r.push(self.entries[i].0);
            assert(self.keys().subrange(0, i + 1) =~= self.keys().subrange(0, i as int).push(self.keys()[i as int]));
            i = i + 1;
        }
        assert(self.keys().subrange(0, i as int) =~= self.keys());
        r
    }
}

impl KeycodePathMap {
    /// A copy with the same keys and paths.
    pub fn duplicate(&self) -> (r: Self)
        requires
            self.wf(),
        ensures
            r.wf(),
            r.keys() == self.keys(),
            forall|k: Keycode| r.paths(k) == self.paths(k),
    {
        let mut entries: Vec<(Keycode, Vec<LayoutPositionSequence>)> = Vec::new();
        let mut i: usize = 0;
        while i < self.entries.len()
            invariant
                i <= self.entries@.len(),
                entries@.len() == i,
                forall|j: int| 0 <= j < i ==> (#[trigger] entries@[j]).0 == self.entries@[j].0
                    && paths_view(entries@[j].1@) == paths_view(self.entries@[j].1@),
            decreases self.entries@.len() - i,
        {
            let e = (self.entries[i].0, copy_sequences(&self.entries[i].1));
            entries.push(e);
            i = i + 1;
        }
        let r = KeycodePathMap { entries };
        assert(r.keys() =~= self.keys());
        r
    }
}

} // verus!
