use vstd::prelude::*;

use crate::error::AlcError;
use crate::key::KeycodeKey;
use crate::keycode::Keycode;
use crate::layer::{fill_upto, lemma_fill_shape, lemma_cell_index, lemma_cell_index_unique, spec_next_acceptable, FillState, Layer};
use crate::pathmap::{copy_sequences, paths_view, KeycodePathMap};
use crate::position::{LayoutPosition, LayoutPositionSequence};

verus! {

/// A stack of same-sized layers of keycode cells, with the path-map that
/// indexes every way to type each keycode. Layer 0 is the home layer.
#[derive(Debug, PartialEq)]
pub struct Layout<const R: usize, const C: usize> {
    layers: Vec<Layer<R, C, KeycodeKey>>,
    keycode_pathmap: KeycodePathMap,
}

/// Whether `p` comes before cell `idx` of layer `a` in the layer-by-layer,
/// row-major walk.
pub open spec fn processed_before(p: LayoutPosition, a: int, idx: int, cols: int) -> bool {
    p.layer_index < a || (p.layer_index == a && p.row_index * cols + p.col_index < idx)
}

pub proof fn lemma_row_major_split(idx: int, rows: int, cols: int)
    requires
        0 <= idx < rows * cols,
        cols > 0,
    ensures
        0 <= idx / cols < rows,
        0 <= idx % cols < cols,
        (idx / cols) * cols + idx % cols == idx,
{
    vstd::arithmetic::div_mod::lemma_fundamental_div_mod(idx, cols);
    assert(idx / cols < rows) by (nonlinear_arith)
        requires
            0 <= idx < rows * cols,
            cols > 0,
    ;
    assert(0 <= idx / cols) by (nonlinear_arith)
        requires
            0 <= idx,
            cols > 0,
    ;
    assert((idx / cols) * cols == cols * (idx / cols)) by (nonlinear_arith);
}

impl<const R: usize, const C: usize> Layout<R, C> {
    /// The cells of every layer, row-major.
    pub closed spec fn grid(&self) -> Seq<Seq<KeycodeKey>> {
        self.layers@.map_values(|l: Layer<R, C, KeycodeKey>| l.keys())
    }

    /// The paths that the path-map records for `k`.
    pub closed spec fn paths(&self, k: Keycode) -> Seq<Seq<LayoutPosition>> {
        self.keycode_pathmap.paths(k)
    }

    /// Whether the path-map has an entry for `k`.
    pub closed spec fn has_paths(&self, k: Keycode) -> bool {
        self.keycode_pathmap.has(k)
    }

    /// The keys of the path-map, in entry order.
    pub closed spec fn pathmap_keys(&self) -> Seq<Keycode> {
        self.keycode_pathmap.keys()
    }

    pub closed spec fn wf(&self) -> bool {
        &&& R * C <= usize::MAX
        &&& forall|i: int| 0 <= i < self.layers@.len() ==> (#[trigger] self.layers@[i]).wf()
        &&& self.keycode_pathmap.wf()
        &&& self.pathmap_shape()
    }

    /// Every recorded path is non-empty and ends inside the layout.
    pub open spec fn pathmap_shape(&self) -> bool {
        forall|k: Keycode, j: int|
            0 <= j < self.paths(k).len() ==> (#[trigger] self.paths(k)[j]).len() >= 1 && self.in_bounds(
                self.paths(k)[j].last(),
            )
    }

    /// Intact pairings pass both pairing checks.
    pub proof fn lemma_pairings_ok_checks(&self)
        requires
            self.pairings_ok(),
        ensures
            self.layer_switches_ok(),
            self.symmetry_ok(),
    {
        assert forall|p: LayoutPosition| #[trigger] self.in_bounds(p) implies self.ls_pair_ok(p) && self.sym_pair_ok(p) by {
            assert(grid_in_bounds(self.grid(), p, R as int, C as int));
        }
    }

    /// Reachability, read on the cells.
    pub proof fn lemma_reachable_grid(&self)
        ensures
            self.layers_reachable() == grid_layers_reachable(self.grid(), R as int, C as int),
    {
        let g = self.grid();
        assert forall|p: LayoutPosition| self.is_content(p) == grid_is_content(g, p, R as int, C as int) by {}
        assert forall|a: int| self.layer_has_content(a) == grid_layer_has_content(g, a, R as int, C as int) by {
            if self.layer_has_content(a) {
                let p = choose|p: LayoutPosition| p.layer_index == a && #[trigger] self.is_content(p);
                assert(grid_is_content(g, p, R as int, C as int));
            }
            if exists|p: LayoutPosition| p.layer_index == a && #[trigger] grid_is_content(g, p, R as int, C as int) {
                let p = choose|p: LayoutPosition| p.layer_index == a && #[trigger] grid_is_content(g, p, R as int, C as int);
                assert(self.is_content(p));
            }
        }
        assert forall|a: int| self.switched_to_from_below(a) == grid_switched_below(g, a, R as int, C as int) by {
            if self.switched_to_from_below(a) {
                let q = choose|q: LayoutPosition|
                    #![trigger self.cell(q)]
                    q.layer_index < a && self.in_bounds(q) && self.cell(q).value == Keycode::_LS(a as usize);
                assert(grid_cell(g, q, C as int) == self.cell(q));
            }
            if grid_switched_below(g, a, R as int, C as int) {
                let q = choose|q: LayoutPosition|
                    #![trigger grid_cell(g, q, C as int)]
                    q.layer_index < a && grid_in_bounds(g, q, R as int, C as int) && grid_cell(g, q, C as int).value == Keycode::_LS(a as usize);
                assert(grid_cell(g, q, C as int) == self.cell(q));
                assert(self.in_bounds(q));
            }
        }
        if self.layers_reachable() {
            assert forall|a: int| 0 < a < g.len() && #[trigger] grid_layer_has_content(g, a, R as int, C as int) implies grid_switched_below(g, a, R as int, C as int) by {
                assert(self.layer_has_content(a));
                assert(self.switched_to_from_below(a));
            }
        }
        if grid_layers_reachable(g, R as int, C as int) {
            assert forall|a: int| 0 < a < self.num_layers() && #[trigger] self.layer_has_content(a) implies self.switched_to_from_below(a) by {
                assert(grid_layer_has_content(g, a, R as int, C as int));
            }
        }
    }

    /// Reachability depends on the cells alone.
    pub proof fn lemma_reachable_same_grid(&self, other: &Self)
        requires
            self.grid() == other.grid(),
        ensures
            self.layers_reachable() == other.layers_reachable(),
    {
        assert forall|a: int| self.layer_has_content(a) == other.layer_has_content(a) by {
            if self.layer_has_content(a) {
                let p = choose|p: LayoutPosition| p.layer_index == a && #[trigger] self.is_content(p);
                assert(other.is_content(p));
            }
            if other.layer_has_content(a) {
                let p = choose|p: LayoutPosition| p.layer_index == a && #[trigger] other.is_content(p);
                assert(self.is_content(p));
            }
        }
        assert forall|a: int| self.switched_to_from_below(a) == other.switched_to_from_below(a) by {
            if self.switched_to_from_below(a) {
                let q = choose|q: LayoutPosition|
                    #![trigger self.cell(q)]
                    q.layer_index < a && self.in_bounds(q) && self.cell(q).value == Keycode::_LS(a as usize);
                assert(other.cell(q) == self.cell(q));
            }
            if other.switched_to_from_below(a) {
                let q = choose|q: LayoutPosition|
                    #![trigger other.cell(q)]
                    q.layer_index < a && other.in_bounds(q) && other.cell(q).value == Keycode::_LS(a as usize);
                assert(other.cell(q) == self.cell(q));
            }
        }
    }

    /// Every layer of a well-formed layout has `R * C` cells.
    pub proof fn lemma_grid_shape(&self)
        requires
            self.wf(),
        ensures
            forall|l: int| 0 <= l < self.num_layers() ==> (#[trigger] self.grid()[l]).len() == R * C,
    {
        assert forall|l: int| 0 <= l < self.num_layers() implies (#[trigger] self.grid()[l]).len() == R * C by {
            assert(self.layers@[l].wf());
        }
    }

    pub open spec fn num_layers(&self) -> nat {
        self.grid().len()
    }

    pub open spec fn in_bounds(&self, p: LayoutPosition) -> bool {
        p.layer_index < self.num_layers() && p.row_index < R && p.col_index < C
    }

    pub open spec fn cell(&self, p: LayoutPosition) -> KeycodeKey {
        self.grid()[p.layer_index as int][p.row_index * C + p.col_index]
    }

    /// A typing sequence: it starts in the home layer, stays in the layout,
    /// and every later keystroke is in a layer above the home layer, reached
    /// through a switch to that layer pressed just before it, which comes
    /// earlier in (layer, row, column) order; so layer indices never
    /// decrease along it.
    pub open spec fn valid_path(&self, s: Seq<LayoutPosition>) -> bool {
        &&& s.len() >= 1
        &&& s[0].layer_index == 0
        &&& forall|i: int| 0 <= i < s.len() ==> self.in_bounds(#[trigger] s[i])
        &&& forall|i: int|
            1 <= i < s.len() ==> (#[trigger] s[i]).layer_index > 0 && self.cell(s[i - 1]).value
                == Keycode::_LS(s[i].layer_index) && processed_before(
                s[i - 1],
                s[i].layer_index as int,
                s[i].row_index * C + s[i].col_index,
                C as int,
            )
    }

    /// A cell that the path-map must reach: not blank, and not the target
    /// marker of a layer switch outside the home layer.
    pub open spec fn is_content(&self, p: LayoutPosition) -> bool {
        &&& self.in_bounds(p)
        &&& self.cell(p).value != Keycode::_NO
        &&& !(p.layer_index > 0 && self.cell(p).value is _LST)
    }

    /// Every recorded path is a typing sequence that ends on a cell to reach
    /// holding its keycode.
    pub open spec fn pathmap_sound(&self) -> bool {
        forall|k: Keycode, j: int|
            0 <= j < self.paths(k).len() ==> self.valid_path(#[trigger] self.paths(k)[j])
                && self.cell(self.paths(k)[j].last()).value == k && self.is_content(self.paths(k)[j].last())
    }

    /// Every content cell ends some path of its keycode.
    pub open spec fn pathmap_complete(&self) -> bool {
        forall|p: LayoutPosition|
            #![trigger self.is_content(p)]
            self.is_content(p) ==> exists|j: int|
                0 <= j < self.paths(self.cell(p).value).len() && (#[trigger] self.paths(
                    self.cell(p).value,
                )[j]).last() == p
    }

    /// Every entry of the path-map holds at least one path.
    pub open spec fn pathmap_nonempty(&self) -> bool {
        forall|k: Keycode| #[trigger] self.has_paths(k) ==> self.paths(k).len() >= 1
    }

    /// The path-map describes the cells.
    pub open spec fn pathmap_ok(&self) -> bool {
        &&& self.pathmap_sound()
        &&& self.pathmap_complete()
        &&& self.pathmap_nonempty()
        &&& !self.has_paths(Keycode::_NO)
        &&& forall|k: Keycode| (#[trigger] self.paths(k)).no_duplicates()
        &&& self.pathmap_exhaustive()
    }

    /// Every typing sequence that ends on a cell to reach is recorded under
    /// that cell's keycode.
    pub open spec fn pathmap_exhaustive(&self) -> bool {
        forall|s: Seq<LayoutPosition>|
            #[trigger] self.valid_path(s) && self.is_content(s.last()) ==> self.paths(self.cell(s.last()).value).contains(s)
    }

    /// Whether layer `a` holds a cell that must be reached.
    pub open spec fn layer_has_content(&self, a: int) -> bool {
        exists|p: LayoutPosition| p.layer_index == a && #[trigger] self.is_content(p)
    }

    /// Whether a layer below `a` holds a switch to layer `a`.
    pub open spec fn switched_to_from_below(&self, a: int) -> bool {
        exists|q: LayoutPosition|
            #![trigger self.cell(q)]
            q.layer_index < a && self.in_bounds(q) && self.cell(q).value == Keycode::_LS(a as usize)
    }

    /// Every layer above the home layer that holds a cell to reach has a
    /// switch to it in a lower layer.
    pub open spec fn layers_reachable(&self) -> bool {
        forall|a: int| 0 < a < self.num_layers() && #[trigger] self.layer_has_content(a) ==> self.switched_to_from_below(a)
    }

    /// Rebuilds the path-map from the cells, layer by layer and row-major.
    /// It fails when a layer above the home layer holds a cell to reach but
    /// no layer switch to it has been reached in a lower layer.
    #[verifier::rlimit(100)]
    #[verifier::spinoff_prover]
    pub fn generate_pathmap(&mut self) -> (r: Result<(), AlcError>)
        requires
            old(self).wf(),
        ensures
            final(self).wf(),
            final(self).grid() == old(self).grid(),
            r.is_ok() <==> old(self).layers_reachable(),
            r.is_ok() ==> final(self).pathmap_ok(),
            r matches Err(e) ==> (e matches AlcError::LayerAccessError(a) && 0 < a
                < old(self).num_layers() && old(self).layer_has_content(a as int)
                && !old(self).switched_to_from_below(a as int) && forall|b: int|
                0 < b < a && #[trigger] old(self).layer_has_content(b) ==> old(self).switched_to_from_below(b)),
            r.is_err() ==> *final(self) == *old(self),
    {
        let mut pm = KeycodePathMap::new();
        let ghost g = self.grid();
        let n = self.layers.len();
        proof {
            self.lemma_exhaustive_start(pm);
        }
        let mut a: usize = 0;
        while a < n
            invariant
                a <= n,
                n == self.layers@.len(),
                self.wf(),
                g == self.grid(),
                pm.wf(),
                forall|k: Keycode, j: int|
                    0 <= j < pm.paths(k).len() ==> self.valid_path(#[trigger] pm.paths(k)[j])
                        && self.cell(pm.paths(k)[j].last()).value == k && self.is_content(pm.paths(k)[j].last()),
                forall|k: Keycode| #[trigger] pm.has(k) ==> pm.paths(k).len() >= 1,
                !pm.has(Keycode::_NO),
                forall|k: Keycode| (#[trigger] pm.paths(k)).no_duplicates(),
                self.exhaustive_upto(pm, a as int, 0),
                forall|b: int| 0 < b < a && #[trigger] self.layer_has_content(b) ==> self.switched_to_from_below(b),
                forall|k: Keycode, j: int|
                    0 <= j < pm.paths(k).len() ==> (#[trigger] pm.paths(k)[j]).last().layer_index < a,
                forall|p: LayoutPosition|
                    #![trigger self.is_content(p)]
                    self.is_content(p) && p.layer_index < a ==> exists|j: int|
                        0 <= j < pm.paths(self.cell(p).value).len() && (#[trigger] pm.paths(
                            self.cell(p).value,
                        )[j]).last() == p,
            decreases n - a,
        {
            let mut idx: usize = 0;
            assert(self.layers@[a as int].wf());
            assert forall|k: Keycode, j: int|
                0 <= j < pm.paths(k).len() implies processed_before((#[trigger] pm.paths(k)[j]).last(), a as int, 0, C as int) by {
                assert(pm.paths(k)[j].last().layer_index < a);
            }
            while idx < R * C
                invariant
                    a < n,
                    idx <= R * C,
                    n == self.layers@.len(),
                    self.wf(),
                    g == self.grid(),
                    pm.wf(),
                    forall|k: Keycode, j: int|
                        0 <= j < pm.paths(k).len() ==> self.valid_path(#[trigger] pm.paths(k)[j])
                            && self.cell(pm.paths(k)[j].last()).value == k && self.is_content(pm.paths(k)[j].last()),
                    forall|k: Keycode| #[trigger] pm.has(k) ==> pm.paths(k).len() >= 1,
                    !pm.has(Keycode::_NO),
                    forall|k: Keycode| (#[trigger] pm.paths(k)).no_duplicates(),
                    self.exhaustive_upto(pm, a as int, idx as int),
                    forall|b: int| 0 < b < a && #[trigger] self.layer_has_content(b) ==> self.switched_to_from_below(b),
                    forall|k: Keycode, j: int|
                        0 <= j < pm.paths(k).len() ==> processed_before((#[trigger] pm.paths(k)[j]).last(), a as int, idx as int, C as int),
                    a > 0 && (exists|q: LayoutPosition| #[trigger] self.is_content(q) && q.layer_index == a && q.row_index * C + q.col_index < idx)
                        ==> self.switched_to_from_below(a as int),
                    forall|p: LayoutPosition|
                        #![trigger self.is_content(p)]
                        self.is_content(p) && (p.layer_index < a || (p.layer_index == a
                            && p.row_index * C + p.col_index < idx)) ==> exists|j: int|
                            0 <= j < pm.paths(self.cell(p).value).len() && (#[trigger] pm.paths(
                                self.cell(p).value,
                            )[j]).last() == p,
                decreases R * C - idx,
            {
                let ghost pm0 = pm;
                let key = self.layers[a].get_row_major(idx).unwrap();
                let p = LayoutPosition::new(a, idx / C, idx % C);
                proof {
                    lemma_row_major_split(idx as int, R as int, C as int);
                    assert(self.grid()[a as int] == self.layers@[a as int].keys());
                    assert(self.cell(p) == key);
                    assert(self.in_bounds(p));
                }
                let v = key.value;
                if v == Keycode::_NO {
                } else if a == 0 {
                    let s = LayoutPositionSequence::from_vector(vec![p]);
                    assert(s@ =~= seq![p]);
                    assert(!pm0.paths(v).contains(s@)) by {
                        if pm0.paths(v).contains(s@) {
                            let j = choose|j: int| 0 <= j < pm0.paths(v).len() && pm0.paths(v)[j] == s@;
                            assert(processed_before(pm0.paths(v)[j].last(), a as int, idx as int, C as int));
                        }
                    }
                    pm.add(v, s);
                    assert(pm.paths(v)[pm0.paths(v).len() as int].last() == p);
                    assert forall|k: Keycode| (#[trigger] pm.paths(k)).no_duplicates() by {
                        if k == v {
                            assert(pm.paths(v) == pm0.paths(v).push(s@));
                        }
                    }
                } else {
                    match v {
                        Keycode::_LST(_, _) => {},
                        _ => {
                            let prefixes = match pm.get(Keycode::_LS(a)) {
                                Some(ps) => copy_sequences(ps),
                                None => {
                                    assert(self.is_content(p));
                                    proof {
                                        pm.lemma_absent(Keycode::_LS(a));
                                        assert forall|q: LayoutPosition|
                                            #![trigger self.cell(q)]
                                            q.layer_index < a && self.in_bounds(q) implies self.cell(q).value != Keycode::_LS(a) by {
                                            if self.cell(q).value == Keycode::_LS(a) {
                                                assert(self.is_content(q));
                                            }
                                        }
                                        assert(self.layer_has_content(a as int));
                                    }
                                    return Err(AlcError::LayerAccessError(a));
                                },
                            };
                            let ghost pre = paths_view(prefixes@);
                            assert(pre.len() >= 1);
                            assert(pre == pm0.paths(Keycode::_LS(a)));
                            assert(pm.paths(v) =~= pm0.paths(v) + Seq::new(0, |j: int| pre[j].push(p)));
                            proof {
                                if !(exists|q: LayoutPosition| #[trigger] self.is_content(q) && q.layer_index == a && q.row_index * C + q.col_index < idx) {
                                    let w = pre[0].last();
                                    assert(pm.paths(Keycode::_LS(a))[0] == pre[0]);
                                    assert(processed_before(w, a as int, idx as int, C as int));
                                    assert(self.cell(w).value == Keycode::_LS(a));
                                    assert(self.in_bounds(w));
                                    if w.layer_index == a {
                                        assert(self.is_content(w));
                                    }
                                    assert(w.layer_index < a);
                                }
                            }
                            assert forall|j: int| 0 <= j < pre.len() implies self.valid_path(#[trigger] pre[j])
                                && self.cell(pre[j].last()).value == Keycode::_LS(a)
                                && processed_before(pre[j].last(), a as int, idx as int, C as int) by {
                                assert(pre[j] == pm0.paths(Keycode::_LS(a))[j]);
                            }
                            self.extend_paths(&mut pm, &prefixes, p, v, a, idx);
                            assert(pm.paths(v) =~= pm0.paths(v) + Seq::new(
                                pm0.paths(Keycode::_LS(a)).len(),
                                |j: int| pm0.paths(Keycode::_LS(a))[j].push(p),
                            ));
                        },
                    }
                }
                assert forall|k: Keycode, j: int|
                    0 <= j < pm.paths(k).len() implies processed_before((#[trigger] pm.paths(k)[j]).last(), a as int, idx + 1, C as int) by {
                    if j < pm0.paths(k).len() && pm.paths(k)[j] == pm0.paths(k)[j] {
                        assert(processed_before(pm0.paths(k)[j].last(), a as int, idx as int, C as int));
                    }
                }
                proof {
                    if a > 0 && (exists|q: LayoutPosition| #[trigger] self.is_content(q) && q.layer_index == a && q.row_index * C + q.col_index < idx + 1) {
                        let q = choose|q: LayoutPosition| #[trigger] self.is_content(q) && q.layer_index == a && q.row_index * C + q.col_index < idx + 1;
                        if q.row_index * C + q.col_index == idx {
                            lemma_cell_index_unique(q.row_index as int, q.col_index as int, p.row_index as int, p.col_index as int, C as int);
                            assert(q == p);
                        } else {
                            assert(exists|q: LayoutPosition| #[trigger] self.is_content(q) && q.layer_index == a && q.row_index * C + q.col_index < idx);
                        }
                    }
                }
                proof {
                    self.lemma_exhaustive_step(pm0, pm, p, v, a as int, idx as int);
                }
                assert forall|q: LayoutPosition|
                    #![trigger self.is_content(q)]
                    self.is_content(q) && (q.layer_index < a || (q.layer_index == a
                        && q.row_index * C + q.col_index < idx + 1)) implies exists|j: int|
                        0 <= j < pm.paths(self.cell(q).value).len() && (#[trigger] pm.paths(
                            self.cell(q).value,
                        )[j]).last() == q by {
                    if q.layer_index == a && q.row_index * C + q.col_index == idx {
                        lemma_cell_index_unique(q.row_index as int, q.col_index as int, p.row_index as int, p.col_index as int, C as int);
                        assert(q == p);
                        let j = (pm.paths(v).len() - 1) as int;
                        assert(pm.paths(v)[j].last() == p);
                    } else {
                        let w = self.cell(q).value;
                        let j = choose|j: int| 0 <= j < pm0.paths(w).len() && (#[trigger] pm0.paths(w)[j]).last() == q;
                        assert(pm.paths(w)[j] == pm0.paths(w)[j]);
                    }
                }
                idx = idx + 1;
            }
            assert forall|q: LayoutPosition|
                #![trigger self.is_content(q)]
                self.is_content(q) && q.layer_index < a + 1 implies exists|j: int|
                    0 <= j < pm.paths(self.cell(q).value).len() && (#[trigger] pm.paths(
                        self.cell(q).value,
                    )[j]).last() == q by {
                lemma_cell_index(q.row_index as int, q.col_index as int, R as int, C as int);
            }
            assert forall|b: int| 0 < b < a + 1 && #[trigger] self.layer_has_content(b) implies self.switched_to_from_below(b) by {
                if b == a {
                    let q = choose|q: LayoutPosition| q.layer_index == a && #[trigger] self.is_content(q);
                    lemma_cell_index(q.row_index as int, q.col_index as int, R as int, C as int);
                    assert(exists|q: LayoutPosition| #[trigger] self.is_content(q) && q.layer_index == a && q.row_index * C + q.col_index < R * C);
                }
            }
            assert forall|k: Keycode, j: int|
                0 <= j < pm.paths(k).len() implies (#[trigger] pm.paths(k)[j]).last().layer_index < a + 1 by {
                assert(processed_before(pm.paths(k)[j].last(), a as int, (R * C) as int, C as int));
            }
            proof {
                self.lemma_exhaustive_next_layer(pm, a as int);
            }
            a = a + 1;
        }
        let ghost before = *self;
        assert(before.layers_reachable());
        proof {
            self.lemma_exhaustive_done(pm, n as int);
        }
        self.keycode_pathmap = pm;
        assert forall|s: Seq<LayoutPosition>|
            #[trigger] self.valid_path(s) && self.is_content(s.last()) implies self.paths(self.cell(s.last()).value).contains(s) by {
            assert(self.grid() == before.grid());
            assert forall|i: int| 0 <= i < s.len() implies before.in_bounds(#[trigger] s[i]) by {
                assert(self.in_bounds(s[i]));
            }
            assert forall|i: int| 1 <= i < s.len() implies (#[trigger] s[i]).layer_index > 0 && before.cell(s[i - 1]).value
                == Keycode::_LS(s[i].layer_index) && processed_before(
                s[i - 1],
                s[i].layer_index as int,
                s[i].row_index * C + s[i].col_index,
                C as int,
            ) by {
                assert(self.cell(s[i - 1]) == before.cell(s[i - 1]));
            }
            assert(before.valid_path(s));
            assert(before.is_content(s.last()));
            assert(self.paths(self.cell(s.last()).value) == pm.paths(before.cell(s.last()).value));
        }
        assert forall|k: Keycode| (#[trigger] self.paths(k)).no_duplicates() by {
            assert(self.paths(k) == pm.paths(k));
        }
        assert(!self.has_paths(Keycode::_NO));
        assert(self.grid() == before.grid());
        assert forall|k: Keycode| self.paths(k) == pm.paths(k) && (self.has_paths(k) == pm.has(k)) by {}
        assert forall|q: LayoutPosition|
            #![trigger self.is_content(q)]
            self.is_content(q) implies exists|j: int|
                0 <= j < self.paths(self.cell(q).value).len() && (#[trigger] self.paths(
                    self.cell(q).value,
                )[j]).last() == q by {
            assert(before.is_content(q));
        }
        Ok(())
    }
}

/// Every way to extend each sequence of `outs` with a path of `ps`: for each
/// path in order, every sequence of `outs` in order.
pub open spec fn cross(outs: Seq<Seq<LayoutPosition>>, ps: Seq<Seq<LayoutPosition>>) -> Seq<
    Seq<LayoutPosition>,
>
    decreases ps.len(),
{
    if ps.len() == 0 {
        Seq::empty()
    } else {
        cross(outs, ps.drop_last()) + outs.map_values(|o: Seq<LayoutPosition>| o + ps.last())
    }
}

/// The cell that `init_blank` puts at row-major `idx` of layer `t` in a
/// layout of `n` layers.
pub open spec fn spec_blank_cell(t: int, idx: int, n: int) -> KeycodeKey {
    let v = if t == 0 && idx < n - 1 {
        Keycode::_LS((idx + 1) as usize)
    } else if t > 0 && idx == t - 1 {
        Keycode::_LST(t as usize, 0)
    } else {
        Keycode::_NO
    };
    KeycodeKey { value: v, is_moveable: true, is_symmetric: false }
}

impl<const R: usize, const C: usize> Layout<R, C> {
    /// The sequences that type `ks` one keycode after another, each keycode
    /// by any of its paths.
    pub open spec fn sequences_for(&self, ks: Seq<Keycode>) -> Seq<Seq<LayoutPosition>>
        decreases ks.len(),
    {
        if ks.len() == 0 {
            Seq::empty()
        } else {
            let prev = self.sequences_for(ks.drop_last());
            if prev.len() == 0 {
                self.paths(ks.last())
            } else {
                cross(prev, self.paths(ks.last()))
            }
        }
    }

    /// Whether every keycode of `ks` has an entry in the path-map.
    pub open spec fn typeable(&self, ks: Seq<Keycode>) -> bool {
        forall|i: int| 0 <= i < ks.len() ==> self.has_paths(#[trigger] ks[i])
    }

    pub fn len(&self) -> (r: usize)
        ensures
            r == self.num_layers(),
    {
        self.layers.len()
    }

    pub fn is_empty(&self) -> (r: bool)
        ensures
            r == (self.num_layers() == 0),
    {
        self.layers.len() == 0
    }

    /// The cell at `p`.
    pub fn get(&self, p: LayoutPosition) -> (k: KeycodeKey)
        requires
            self.wf(),
            self.in_bounds(p),
        ensures
            k == self.cell(p),
    {
        assert(self.layers@[p.layer_index as int].wf());
        self.layers[p.layer_index].get(p.row_index, p.col_index)
    }

    /// Replaces the cell at `p`; the path-map is left as it was.
    fn put(&mut self, p: LayoutPosition, k: KeycodeKey)
        requires
            old(self).wf(),
            old(self).in_bounds(p),
        ensures
            final(self).wf(),
            final(self).grid() == old(self).grid().update(
                p.layer_index as int,
                old(self).grid()[p.layer_index as int].update(p.row_index * C + p.col_index, k),
            ),
            final(self).keycode_pathmap == old(self).keycode_pathmap,
    {
        let l = p.layer_index;
        assert(self.layers@[l as int].wf());
        let ghost before = self.layers@;
        let mut layer = self.layers.remove(l);
        layer.set(p.row_index, p.col_index, k);
        self.layers.insert(l, layer);
        assert(self.layers@ =~= before.update(l as int, layer));
        assert(self.num_layers() == old(self).num_layers());
        assert forall|kc: Keycode, j: int|
            0 <= j < self.paths(kc).len() implies (#[trigger] self.paths(kc)[j]).len() >= 1 && self.in_bounds(
                self.paths(kc)[j].last(),
            ) by {
            assert(self.paths(kc) == old(self).paths(kc));
        }
        assert(self.grid() =~= old(self).grid().update(
            p.layer_index as int,
            old(self).grid()[p.layer_index as int].update(p.row_index * C + p.col_index, k),
        ));
    }

    /// Replaces the cell at `p`. The path-map is left as it was; rebuild it
    /// with [`Layout::generate_pathmap`].
    pub fn set_cell(&mut self, p: LayoutPosition, k: KeycodeKey)
        requires
            old(self).wf(),
            old(self).in_bounds(p),
        ensures
            final(self).wf(),
            final(self).grid() == put_cell(old(self).grid(), p, C as int, k),
    {
        self.put(p, k)
    }

    /// A copy with the same cells and path-map.
    pub fn duplicate(&self) -> (r: Self)
        requires
            self.wf(),
        ensures
            r.wf(),
            r.grid() == self.grid(),
            forall|k: Keycode| r.paths(k) == self.paths(k) && r.has_paths(k) == self.has_paths(k),
    {
        let mut layers: Vec<Layer<R, C, KeycodeKey>> = Vec::new();
        let mut i: usize = 0;
        while i < self.layers.len()
            invariant
                i <= self.layers@.len(),
                self.wf(),
                layers@.len() == i,
                forall|j: int| 0 <= j < i ==> (#[trigger] layers@[j]).wf() && layers@[j].keys() == self.layers@[j].keys(),
            decreases self.layers@.len() - i,
        {
            assert(self.layers@[i as int].wf());
            layers.push(self.layers[i].duplicate());
            i = i + 1;
        }
        let r = Layout { layers, keycode_pathmap: self.keycode_pathmap.duplicate() };
        assert(r.grid() =~= self.grid());
        assert(r.num_layers() == self.num_layers());
        assert forall|kc: Keycode, j: int|
            0 <= j < r.paths(kc).len() implies (#[trigger] r.paths(kc)[j]).len() >= 1 && r.in_bounds(
                r.paths(kc)[j].last(),
            ) by {
            assert(r.paths(kc) == self.paths(kc));
        }
        assert forall|kc: Keycode| r.has_paths(kc) == self.has_paths(kc) by {}
        r
    }

    /// The mirror of `lp` across the vertical centre line.
    pub fn symmetric_position(&self, lp: LayoutPosition) -> (r: LayoutPosition)
        requires
            lp.col_index < C,
        ensures
            r == (LayoutPosition { col_index: (C - 1 - lp.col_index) as usize, ..lp }),
    {
        LayoutPosition { layer_index: lp.layer_index, row_index: lp.row_index, col_index: (C - 1) - lp.col_index }
    }

    /// The recorded paths to `k`, if `k` is typeable.
    pub fn paths_to_keycode(&self, k: Keycode) -> (r: Option<&Vec<LayoutPositionSequence>>)
        requires
            self.wf(),
        ensures
            r is None <==> !self.has_paths(k),
            r matches Some(v) ==> paths_view(v@) == self.paths(k),
    {
        self.keycode_pathmap.get(k)
    }

    /// `num_layers` layers of blank cells, where cell `j` (row-major) of the
    /// home layer switches to layer `j + 1` and the same cell of layer
    /// `j + 1` is its target marker.
    pub fn init_blank(num_layers: usize) -> (l: Self)
        requires
            1 <= num_layers,
            num_layers - 1 <= R * C,
            R * C <= usize::MAX,
        ensures
            l.wf(),
            l.pathmap_ok(),
            l.num_layers() == num_layers,
            forall|t: int, idx: int|
                0 <= t < num_layers && 0 <= idx < R * C ==> #[trigger] l.grid()[t][idx]
                    == spec_blank_cell(t, idx, num_layers as int),
    {
        let mut layers: Vec<Layer<R, C, KeycodeKey>> = Vec::new();
        let mut t: usize = 0;
        while t < num_layers
            invariant
                t <= num_layers,
                num_layers - 1 <= R * C,
                R * C <= usize::MAX,
                layers@.len() == t,
                forall|i: int| 0 <= i < t ==> (#[trigger] layers@[i]).wf(),
                forall|i: int, idx: int|
                    0 <= i < t && 0 <= idx < R * C ==> #[trigger] layers@[i].keys()[idx]
                        == spec_blank_cell(i, idx, num_layers as int),
            decreases num_layers - t,
        {
            let mut layer = Layer::<R, C, KeycodeKey>::init_blank();
            if t == 0 {
                let mut j: usize = 0;
                while j + 1 < num_layers
                    invariant
                        t == 0,
                        j + 1 <= num_layers,
                        num_layers - 1 <= R * C,
                        layer.wf(),
                        forall|idx: int|
                            0 <= idx < R * C ==> #[trigger] layer.keys()[idx] == if idx < j {
                                spec_blank_cell(0, idx, num_layers as int)
                            } else {
                                KeycodeKey { value: Keycode::_NO, is_moveable: true, is_symmetric: false }
                            },
                    decreases num_layers - j,
                {
                    let k = KeycodeKey::default_from_keycode(Keycode::_LS(j + 1));
                    layer.set_row_major(j, k);
                    j = j + 1;
                }
            } else {
                let k = KeycodeKey::default_from_keycode(Keycode::_LST(t, 0));
                layer.set_row_major(t - 1, k);
            }
            layers.push(layer);
            t = t + 1;
        }
        let mut layout = Layout { layers, keycode_pathmap: KeycodePathMap::new() };
        assert forall|i: int| 0 <= i < layout.layers@.len() implies (#[trigger] layout.layers@[i]).wf() by {}
        let ghost pre = layout;
        let r = layout.generate_pathmap();
        match r {
            Ok(()) => {},
            Err(e) => {
                match e {
                    AlcError::LayerAccessError(a) => {
                        assert(false) by {
                            let p = choose|p: LayoutPosition| p.layer_index == a && #[trigger] pre.is_content(p);
                            lemma_cell_index(p.row_index as int, p.col_index as int, R as int, C as int);
                            assert(pre.grid()[a as int] == pre.layers@[a as int].keys());
                        }
                    },
                    _ => {},
                }
            },
        }
        layout
    }

    /// Every keystroke sequence that types `ngram`, or `None` when one of its
    /// keycodes has no path.
    pub fn ngram_to_sequences(&self, ngram: &crate::ngram::Ngram) -> (r: Option<
        Vec<LayoutPositionSequence>,
    >)
        requires
            self.wf(),
        ensures
            r is None <==> !self.typeable(ngram@),
            r matches Some(v) ==> paths_view(v@) == self.sequences_for(ngram@),
    {
        let mut out: Vec<LayoutPositionSequence> = Vec::new();
        let n = ngram.len();
        let mut i: usize = 0;
        assert(paths_view(out@) =~= self.sequences_for(ngram@.subrange(0, 0)));
        while i < n
            invariant
                i <= n,
                n == ngram@.len(),
                self.wf(),
                paths_view(out@) == self.sequences_for(ngram@.subrange(0, i as int)),
                forall|j: int| 0 <= j < i ==> self.has_paths(#[trigger] ngram@[j]),
            decreases n - i,
        {
            let k = ngram.get(i);
            let ps = match self.paths_to_keycode(k) {
                Some(p) => p,
                None => {
                    return None;
                },
            };
            assert(ngram@.subrange(0, i + 1).drop_last() =~= ngram@.subrange(0, i as int));
            assert(ngram@.subrange(0, i + 1).last() == k);
            if out.len() == 0 {
                out = copy_sequences(ps);
            } else {
                let ghost outs = paths_view(out@);
                let ghost pv = paths_view(ps@);
                let mut temp: Vec<LayoutPositionSequence> = Vec::new();
                let mut j: usize = 0;
                assert(paths_view(temp@) =~= cross(outs, pv.subrange(0, 0)));
                while j < ps.len()
                    invariant
                        j <= ps@.len(),
                        outs == paths_view(out@),
                        pv == paths_view(ps@),
                        paths_view(temp@) == cross(outs, pv.subrange(0, j as int)),
                    decreases ps@.len() - j,
                {
                    let mut l: usize = 0;
                    let ghost base = paths_view(temp@);
                    assert(outs.subrange(0, 0).map_values(|o: Seq<LayoutPosition>| o + pv[j as int]) =~= Seq::<Seq<LayoutPosition>>::empty());
                    assert(paths_view(temp@) =~= base + outs.subrange(0, 0).map_values(|o: Seq<LayoutPosition>| o + pv[j as int]));
                    while l < out.len()
                        invariant
                            j < ps@.len(),
                            l <= out@.len(),
                            outs == paths_view(out@),
                            pv == paths_view(ps@),
                            paths_view(temp@) == base + outs.subrange(0, l as int).map_values(|o: Seq<LayoutPosition>| o + pv[j as int]),
                        decreases out@.len() - l,
                    {
                        let mut cur = out[l].duplicate();
                        let mut add = ps[j].duplicate();
                        cur.append(&mut add);
                        assert(cur@ == outs[l as int] + pv[j as int]);
                        let ghost tv = temp@;
                        temp.push(cur);
                        assert(paths_view(temp@) =~= paths_view(tv).push(cur@));
                        assert(outs.subrange(0, l + 1).map_values(|o: Seq<LayoutPosition>| o + pv[j as int]) =~= outs.subrange(0, l as int).map_values(|o: Seq<LayoutPosition>| o + pv[j as int]).push(outs[l as int] + pv[j as int]));
                        assert(paths_view(temp@) =~= base + outs.subrange(0, l + 1).map_values(|o: Seq<LayoutPosition>| o + pv[j as int]));
                        l = l + 1;
                    }
                    assert(outs.subrange(0, out@.len() as int) =~= outs);
                    assert(pv.subrange(0, j + 1).drop_last() =~= pv.subrange(0, j as int));
                    assert(pv.subrange(0, j + 1).last() == pv[j as int]);
                    j = j + 1;
                }
                assert(pv.subrange(0, ps@.len() as int) =~= pv);
                out = temp;
            }
            i = i + 1;
        }
        assert(ngram@.subrange(0, n as int) =~= ngram@);
        Some(out)
    }
}

/// `g` with cell `p` replaced by `k`, for layers of `cols` columns.
pub open spec fn put_cell(g: Seq<Seq<KeycodeKey>>, p: LayoutPosition, cols: int, k: KeycodeKey) -> Seq<
    Seq<KeycodeKey>,
> {
    g.update(p.layer_index as int, g[p.layer_index as int].update(p.row_index * cols + p.col_index, k))
}

/// The mirror of `p` across the vertical centre line of `cols` columns.
pub open spec fn mirror(p: LayoutPosition, cols: int) -> LayoutPosition {
    LayoutPosition { col_index: (cols - 1 - p.col_index) as usize, ..p }
}

/// The cell of layer `t` under `p`.
pub open spec fn under(p: LayoutPosition, t: usize) -> LayoutPosition {
    LayoutPosition { layer_index: t, ..p }
}

impl<const R: usize, const C: usize> Layout<R, C> {
    /// What a caller of `swap` must ensure: both cells moveable, no target
    /// marker involved, a layer switch only on the first side and within one
    /// layer, and a symmetric cell on the second side only if the first is.
    pub open spec fn swap_pre(&self, p1: LayoutPosition, p2: LayoutPosition) -> bool {
        let k1 = self.cell(p1);
        let k2 = self.cell(p2);
        &&& self.in_bounds(p1)
        &&& self.in_bounds(p2)
        &&& p1 != p2 ==> {
            &&& k1.is_moveable && k2.is_moveable
            &&& !(k2.value is _LS)
            &&& !(k1.value is _LST) && !(k2.value is _LST)
            &&& !(!k1.is_symmetric && k2.is_symmetric)
            &&& (k1.value matches Keycode::_LS(t) ==> p1.layer_index == p2.layer_index
                && !k2.is_symmetric && !k1.is_symmetric && t < self.num_layers())
        }
    }

    /// Whether `swap(p1, p2)` changes the cells.
    pub open spec fn swap_effective(&self, p1: LayoutPosition, p2: LayoutPosition) -> bool {
        let k1 = self.cell(p1);
        if p1 == p2 {
            false
        } else if let Keycode::_LS(t) = k1.value {
            let k2c = self.cell(under(p2, t));
            k2c.is_moveable && !k2c.is_symmetric
        } else if k1.is_symmetric {
            let k2m = self.cell(mirror(p2, C as int));
            !(C % 2 == 1 && p2.col_index == (C - 1) / 2) && k2m.is_moveable && !(k2m.value is _LS)
                && !(k2m.value is _LST)
        } else {
            true
        }
    }

    /// The cells after an effective `swap(p1, p2)`: the two cells trade
    /// places, and so do the cells under them in the switched-to layer (for
    /// a layer switch) or their mirrors (for symmetric cells).
    pub open spec fn swapped_grid(&self, p1: LayoutPosition, p2: LayoutPosition) -> Seq<Seq<KeycodeKey>> {
        grid_swapped(self.grid(), p1, p2, C as int)
    }

    /// Whether `replace` may overwrite the cell at `p`: moveable, not a layer
    /// key, and blank or typeable elsewhere too.
    pub open spec fn replace_pre(&self, p: LayoutPosition) -> bool {
        let k = self.cell(p);
        &&& self.in_bounds(p)
        &&& k.is_moveable
        &&& !(k.value is _LS)
        &&& !(k.value is _LST)
        &&& (k.value == Keycode::_NO || (self.has_paths(k.value) && self.paths(k.value).len() >= 2))
    }

    /// Every layer-switch and symmetric pairing holds and no layer key is
    /// symmetric.
    pub open spec fn pairings_ok(&self) -> bool {
        grid_pairings_ok(self.grid(), R as int, C as int)
    }

    /// The conditions under which a swap of a layer switch keeps the
    /// pairings: see [`lemma_ls_swap_keeps_pairings`].
    pub open spec fn ls_swap_safe(&self, p1: LayoutPosition, p2: LayoutPosition) -> bool {
        let g = self.grid();
        let t = self.cell(p1).value->_LS_0;
        let a = p1.layer_index;
        let k2c = grid_cell(g, under(p2, t), C as int);
        &&& grid_cell(g, under(p1, t), C as int).value == Keycode::_LST(t, a)
        &&& !is_layer_key(k2c) && !k2c.is_symmetric
        &&& forall|b: usize| b < g.len() && b != a ==> grid_cell(g, under(p1, b), C as int).value != Keycode::_LS(t)
        &&& forall|b: usize, u: usize| b < g.len() && u != t ==> grid_cell(g, under(p2, b), C as int).value != Keycode::_LST(u, a)
    }

    /// Exchanges the cells at `p1` and `p2`, keeping layer switches paired
    /// with their targets and symmetric cells with their mirrors, then
    /// rebuilds the path-map. Returns whether a swap happened; a swap that
    /// would break a pairing does nothing.
    pub fn swap(&mut self, p1: LayoutPosition, p2: LayoutPosition) -> (r: Result<bool, AlcError>)
        requires
            old(self).wf(),
            old(self).swap_pre(p1, p2),
        ensures
            final(self).wf(),
            !old(self).swap_effective(p1, p2) ==> r == Ok::<bool, AlcError>(false) && *final(self)
                == *old(self),
            old(self).swap_effective(p1, p2) ==> final(self).grid() == old(self).swapped_grid(p1, p2),
            old(self).swap_effective(p1, p2) && r.is_ok() ==> r == Ok::<bool, AlcError>(true)
                && final(self).pathmap_ok(),
            old(self).swap_effective(p1, p2) ==> (r.is_ok() <==> final(self).layers_reachable()),
            old(self).pairings_ok() && (old(self).cell(p1).value is _LS ==> old(self).ls_swap_safe(p1, p2))
                ==> final(self).pairings_ok() && final(self).layer_switches_ok() && final(self).symmetry_ok(),
            r matches Err(e) ==> (e is LayerAccessError),
    {
        proof {
            if self.pairings_ok() {
                self.lemma_pairings_ok_checks();
            }
        }
        if p1 == p2 {
            return Ok(false);
        }
        let k1 = self.get(p1);
        let k2 = self.get(p2);
        let ghost g = self.grid();
        if let Keycode::_LS(t) = k1.value {
            let q1 = LayoutPosition::new(t, p1.row_index, p1.col_index);
            let q2 = LayoutPosition::new(t, p2.row_index, p2.col_index);
            let k1c = self.get(q1);
            let k2c = self.get(q2);
            if !k2c.is_moveable || k2c.is_symmetric {
                return Ok(false);
            }
            self.put(p1, k2);
            self.put(p2, k1);
            self.put(q1, k2c);
            self.put(q2, k1c);
        } else if k1.is_symmetric {
            if C % 2 == 1 && p2.col_index == (C - 1) / 2 {
                return Ok(false);
            }
            let q1 = self.symmetric_position(p1);
            let q2 = self.symmetric_position(p2);
            let k1m = self.get(q1);
            let k2m = self.get(q2);
            if !k2m.is_moveable {
                return Ok(false);
            }
            match k2m.value {
                Keycode::_LS(_) | Keycode::_LST(_, _) => {
                    return Ok(false);
                },
                _ => {},
            }
            self.put(p1, k2);
            self.put(p2, k1);
            self.put(q1, k2m);
            self.put(q2, k1m);
        } else {
            self.put(p1, k2);
            self.put(p2, k1);
        }
        proof {
            let g0 = old(self).grid();
            old(self).lemma_grid_shape();
            if old(self).pairings_ok() && (k1.value is _LS ==> old(self).ls_swap_safe(p1, p2)) {
                assert(grid_shaped(g0, R as int, C as int));
                assert(grid_cell(g0, p1, C as int) == k1);
                assert(grid_cell(g0, p2, C as int) == k2);
                if k1.value is _LS {
                    lemma_ls_swap_keeps_pairings(g0, p1, p2, R as int, C as int);
                } else {
                    if k1.is_symmetric {
                        assert(mirror(p2, C as int) != p2) by {
                            if mirror(p2, C as int) == p2 {
                                assert(p2.col_index == C - 1 - p2.col_index);
                            }
                        }
                        assert(grid_cell(g0, mirror(p2, C as int), C as int) == old(self).cell(mirror(p2, C as int)));
                    }
                    lemma_swap_keeps_pairings(g0, p1, p2, R as int, C as int);
                }
            }
        }
        let ghost mid = *self;
        let r = self.generate_pathmap();
        proof {
            self.lemma_reachable_same_grid(&mid);
            if self.pairings_ok() {
                self.lemma_pairings_ok_checks();
            }
        }
        match r {
            Ok(()) => Ok(true),
            Err(e) => Err(e),
        }
    }

    /// Overwrites the keycode at `p` with `value`, keeping its flags, and
    /// rebuilds the path-map.
    pub fn replace(&mut self, p: LayoutPosition, value: Keycode) -> (r: Result<bool, AlcError>)
        requires
            old(self).wf(),
            old(self).replace_pre(p),
        ensures
            final(self).wf(),
            final(self).grid() == put_cell(
                old(self).grid(),
                p,
                C as int,
                KeycodeKey { value, ..old(self).cell(p) },
            ),
            r.is_ok() ==> r == Ok::<bool, AlcError>(true) && final(self).pathmap_ok(),
            r.is_ok() <==> final(self).layers_reachable(),
            r matches Err(e) ==> (e is LayerAccessError),
            old(self).pairings_ok() && !(value is _LS) && !(value is _LST) ==> final(self).pairings_ok()
                && final(self).layer_switches_ok() && final(self).symmetry_ok(),
    {
        let mut k = self.get(p);
        k.set_value(value);
        self.put(p, k);
        proof {
            let g0 = old(self).grid();
            old(self).lemma_grid_shape();
            if old(self).pairings_ok() && !(value is _LS) && !(value is _LST) {
                lemma_replace_keeps_pairings(g0, p, value, R as int, C as int);
            }
        }
        let ghost mid = *self;
        let r = self.generate_pathmap();
        proof {
            self.lemma_reachable_same_grid(&mid);
            if self.pairings_ok() {
                self.lemma_pairings_ok_checks();
            }
        }
        match r {
            Ok(()) => Ok(true),
            Err(e) => Err(e),
        }
    }
}

impl<const R: usize, const C: usize> Layout<R, C> {
    /// `k` is the first key, in entry order, with a path that ends on
    /// another keycode, and `p` ends the first such path of `k`.
    pub open spec fn first_bad_path(&self, k: Keycode, p: LayoutPosition) -> bool {
        let keys = self.pathmap_keys();
        &&& exists|i: int|
            0 <= i < keys.len() && keys[i] == k && forall|x: int, j: int|
                0 <= x < i && 0 <= j < self.paths(keys[x]).len() ==> self.cell((#[trigger] self.paths(keys[x])[j]).last()).value
                    == keys[x]
        &&& exists|j: int|
            0 <= j < self.paths(k).len() && self.paths(k)[j].last() == p && forall|jj: int|
                0 <= jj < j ==> self.cell((#[trigger] self.paths(k)[jj]).last()).value == k
    }

    /// Every recorded path ends on a cell holding its keycode.
    pub open spec fn terminals_correct(&self) -> bool {
        forall|k: Keycode, j: int|
            0 <= j < self.paths(k).len() ==> self.cell((#[trigger] self.paths(k)[j]).last()).value == k
    }

    /// A cell that the correctness check expects a path to: not blank and
    /// not a layer-switch target marker.
    pub open spec fn needs_path(&self, p: LayoutPosition) -> bool {
        &&& self.in_bounds(p)
        &&& self.cell(p).value != Keycode::_NO
        &&& !(self.cell(p).value is _LST)
    }

    pub open spec fn reached(&self, p: LayoutPosition) -> bool {
        exists|j: int|
            0 <= j < self.paths(self.cell(p).value).len() && (#[trigger] self.paths(
                self.cell(p).value,
            )[j]).last() == p
    }

    pub open spec fn cells_reached(&self) -> bool {
        forall|p: LayoutPosition| #[trigger] self.needs_path(p) ==> self.reached(p)
    }

    /// The position of row-major cell `idx` of layer `a`.
    fn position_of(a: usize, idx: usize) -> (p: LayoutPosition)
        requires
            idx < R * C,
        ensures
            p.layer_index == a,
            p.row_index < R,
            p.col_index < C,
            p.row_index * C + p.col_index == idx,
            p == walk_pos(a as int, idx as int, C as int),
    {
        proof {
            lemma_row_major_split(idx as int, R as int, C as int);
        }
        LayoutPosition::new(a, idx / C, idx % C)
    }

    /// Whether some path of `k` ends at `p`.
    fn ends_at(&self, k: Keycode, p: LayoutPosition) -> (r: bool)
        requires
            self.wf(),
        ensures
            r == exists|j: int| 0 <= j < self.paths(k).len() && (#[trigger] self.paths(k)[j]).last() == p,
    {
        let ps = match self.keycode_pathmap.get(k) {
            Some(ps) => ps,
            None => {
                proof {
                    self.keycode_pathmap.lemma_absent(k);
                }
                return false;
            },
        };
        let ghost pv = paths_view(ps@);
        let mut j: usize = 0;
        while j < ps.len()
            invariant
                j <= ps@.len(),
                self.wf(),
                pv == paths_view(ps@),
                pv == self.paths(k),
                forall|x: int| 0 <= x < j ==> (#[trigger] pv[x]).last() != p,
            decreases ps@.len() - j,
        {
            assert(pv[j as int] == ps@[j as int]@);
            assert(pv[j as int].len() >= 1);
            let last = ps[j].get(ps[j].len() - 1);
            if last == p {
                return true;
            }
            j = j + 1;
        }
        false
    }

    /// Checks the path-map against the cells: every path must end on its
    /// keycode, and every cell that is neither blank nor a target marker must
    /// end some path.
    pub fn verify_pathmap_correctness(&self) -> (r: Result<bool, AlcError>)
        requires
            self.wf(),
        ensures
            r.is_ok() <==> self.terminals_correct() && self.cells_reached(),
            r.is_ok() ==> r == Ok::<bool, AlcError>(true),
            r matches Err(e) ==> match e {
                AlcError::IncorrectPathmapError(k, p, f) => !self.terminals_correct() && self.in_bounds(p)
                    && self.cell(p).value == f && f != k && self.first_bad_path(k, p),
                AlcError::IncompletePathmapError(k, p) => self.terminals_correct() && self.needs_path(p)
                    && !self.reached(p) && k == self.cell(p).value && forall|q: LayoutPosition|
                    #[trigger] self.needs_path(q) && processed_before(q, p.layer_index as int, p.row_index * C + p.col_index, C as int)
                        ==> self.reached(q),
                _ => false,
            },
    {
        let keys = self.keycode_pathmap.key_list();
        let mut i: usize = 0;
        while i < keys.len()
            invariant
                i <= keys@.len(),
                self.wf(),
                keys@ == self.pathmap_keys(),
                forall|x: int, j: int|
                    0 <= x < i && 0 <= j < self.paths(keys@[x]).len() ==> self.cell(
                        (#[trigger] self.paths(keys@[x])[j]).last(),
                    ).value == keys@[x],
            decreases keys@.len() - i,
        {
            let (k, ps) = self.keycode_pathmap.entry(i);
            let ghost pv = paths_view(ps@);
            let mut j: usize = 0;
            while j < ps.len()
                invariant
                    i < keys@.len(),
                    j <= ps@.len(),
                    self.wf(),
                    keys@ == self.pathmap_keys(),
                    k == keys@[i as int],
                    pv == paths_view(ps@),
                    pv == self.paths(k),
                    forall|x: int, jj: int|
                        0 <= x < i && 0 <= jj < self.paths(keys@[x]).len() ==> self.cell(
                            (#[trigger] self.paths(keys@[x])[jj]).last(),
                        ).value == keys@[x],
                    forall|jj: int| 0 <= jj < j ==> self.cell((#[trigger] pv[jj]).last()).value == k,
                decreases ps@.len() - j,
            {
                assert(pv[j as int] == ps@[j as int]@);
                assert(pv[j as int].len() >= 1 && self.in_bounds(pv[j as int].last()));
                let last = ps[j].get(ps[j].len() - 1);
                let found = self.get(last).value;
                if found != k {
                    assert(self.first_bad_path(k, last)) by {
                        assert(self.pathmap_keys()[i as int] == k);
                        assert(pv[j as int].last() == last);
                    }
                    return Err(AlcError::IncorrectPathmapError(k, last, found));
                }
                j = j + 1;
            }
            i = i + 1;
        }
        assert(self.terminals_correct()) by {
            assert forall|k: Keycode, j: int| 0 <= j < self.paths(k).len() implies self.cell(
                (#[trigger] self.paths(k)[j]).last(),
            ).value == k by {
                if !self.has_paths(k) {
                    self.keycode_pathmap.lemma_absent(k);
                    assert(self.paths(k).len() == 0);
                } else {
                    let x = choose|x: int| 0 <= x < keys@.len() && keys@[x] == k;
                    assert(self.paths(keys@[x])[j] == self.paths(k)[j]);
                }
            }
        }
        let n = self.layers.len();
        let mut a: usize = 0;
        while a < n
            invariant
                a <= n,
                n == self.num_layers(),
                self.wf(),
                self.terminals_correct(),
                forall|q: LayoutPosition|
                    #[trigger] self.needs_path(q) && q.layer_index < a ==> self.reached(q),
            decreases n - a,
        {
            let mut idx: usize = 0;
            while idx < R * C
                invariant
                    a < n,
                    idx <= R * C,
                    n == self.num_layers(),
                    self.wf(),
                    self.terminals_correct(),
                    forall|q: LayoutPosition|
                        #[trigger] self.needs_path(q) && (q.layer_index < a || (q.layer_index == a
                            && q.row_index * C + q.col_index < idx)) ==> self.reached(q),
                decreases R * C - idx,
            {
                let p = Self::position_of(a, idx);
                let v = self.get(p).value;
                let skip = match v {
                    Keycode::_NO => true,
                    Keycode::_LST(_, _) => true,
                    _ => false,
                };
                if !skip && !self.ends_at(v, p) {
                    assert(self.needs_path(p));
                    assert(!self.reached(p));
                    return Err(AlcError::IncompletePathmapError(v, p));
                }
                assert forall|q: LayoutPosition|
                    #[trigger] self.needs_path(q) && (q.layer_index < a || (q.layer_index == a
                        && q.row_index * C + q.col_index < idx + 1)) implies self.reached(q) by {
                    if q.layer_index == a && q.row_index * C + q.col_index == idx {
                        lemma_cell_index_unique(q.row_index as int, q.col_index as int, p.row_index as int, p.col_index as int, C as int);
                        assert(q == p);
                    }
                }
                idx = idx + 1;
            }
            assert forall|q: LayoutPosition|
                #[trigger] self.needs_path(q) && q.layer_index < a + 1 implies self.reached(q) by {
                lemma_cell_index(q.row_index as int, q.col_index as int, R as int, C as int);
            }
            a = a + 1;
        }
        Ok(true)
    }
}

/// Whether `v` holds `p`.
pub fn contains_position(v: &Vec<LayoutPosition>, p: LayoutPosition) -> (r: bool)
    ensures
        r == v@.contains(p),
{
    let mut i: usize = 0;
    while i < v.len()
        invariant
            i <= v@.len(),
            forall|j: int| 0 <= j < i ==> v@[j] != p,
        decreases v@.len() - i,
    {
        if v[i] == p {
            return true;
        }
        i = i + 1;
    }
    false
}

impl<const R: usize, const C: usize> Layout<R, C> {
    /// A layer switch at `p` has its target marker under it in the target
    /// layer; a target marker at `p` is not under a switch to another layer.
    pub open spec fn ls_pair_ok(&self, p: LayoutPosition) -> bool {
        grid_ls_pair_ok(self.grid(), p, C as int)
    }

    /// A symmetric cell has a symmetric mirror.
    pub open spec fn sym_pair_ok(&self, p: LayoutPosition) -> bool {
        grid_sym_pair_ok(self.grid(), p, C as int)
    }

    pub open spec fn layer_switches_ok(&self) -> bool {
        forall|p: LayoutPosition| #[trigger] self.in_bounds(p) ==> self.ls_pair_ok(p)
    }

    pub open spec fn symmetry_ok(&self) -> bool {
        forall|p: LayoutPosition| #[trigger] self.in_bounds(p) ==> self.sym_pair_ok(p)
    }

    /// The cell paired with the layer key at `p` (itself for other cells).
    pub open spec fn ls_partner(&self, p: LayoutPosition) -> LayoutPosition {
        grid_ls_partner(self.grid(), p, C as int)
    }

    /// The broken layer-switch pairings in (layer, row, column) order.
    pub open spec fn ls_violations(&self) -> Seq<(LayoutPosition, LayoutPosition)> {
        ls_list(self.grid(), self.num_layers(), (R * C) as nat, C as int)
    }

    /// The broken symmetric pairings in (layer, row, column) order.
    pub open spec fn sym_violations(&self) -> Seq<(LayoutPosition, LayoutPosition)> {
        sym_list(self.grid(), self.num_layers(), (R * C) as nat, C as int)
    }

    /// Lists the broken layer-switch pairings and the broken symmetric
    /// pairings, each as the offending cell and the cell it should pair with.
    pub fn verify_layout_correctness(&self) -> (r: (
        Vec<(LayoutPosition, LayoutPosition)>,
        Vec<(LayoutPosition, LayoutPosition)>,
    ))
        requires
            self.wf(),
        ensures
            r.0@ == self.ls_violations(),
            r.1@ == self.sym_violations(),
            r.0@.len() == 0 <==> self.layer_switches_ok(),
            r.1@.len() == 0 <==> self.symmetry_ok(),
            forall|i: int|
                0 <= i < r.0@.len() ==> self.in_bounds((#[trigger] r.0@[i]).0) && !self.ls_pair_ok(r.0@[i].0)
                    && r.0@[i].1 == self.ls_partner(r.0@[i].0),
            forall|i: int|
                0 <= i < r.1@.len() ==> self.in_bounds((#[trigger] r.1@[i]).0) && !self.sym_pair_ok(r.1@[i].0)
                    && r.1@[i].1 == mirror(r.1@[i].0, C as int),
    {
        let mut ls_bad: Vec<(LayoutPosition, LayoutPosition)> = Vec::new();
        let mut sym_bad: Vec<(LayoutPosition, LayoutPosition)> = Vec::new();
        let n = self.layers.len();
        let mut a: usize = 0;
        while a < n
            invariant
                a <= n,
                n == self.num_layers(),
                self.wf(),
                ls_bad@ == ls_list(self.grid(), a as nat, (R * C) as nat, C as int),
                sym_bad@ == sym_list(self.grid(), a as nat, (R * C) as nat, C as int),
                forall|i: int|
                    0 <= i < ls_bad@.len() ==> self.in_bounds((#[trigger] ls_bad@[i]).0) && !self.ls_pair_ok(ls_bad@[i].0)
                        && ls_bad@[i].1 == self.ls_partner(ls_bad@[i].0),
                forall|i: int|
                    0 <= i < sym_bad@.len() ==> self.in_bounds((#[trigger] sym_bad@[i]).0) && !self.sym_pair_ok(sym_bad@[i].0)
                        && sym_bad@[i].1 == mirror(sym_bad@[i].0, C as int),
                ls_bad@.len() == 0 ==> forall|q: LayoutPosition| #[trigger] self.in_bounds(q) && q.layer_index < a ==> self.ls_pair_ok(q),
                sym_bad@.len() == 0 ==> forall|q: LayoutPosition| #[trigger] self.in_bounds(q) && q.layer_index < a ==> self.sym_pair_ok(q),
            decreases n - a,
        {
            let mut idx: usize = 0;
            assert(ls_bad@ =~= ls_list(self.grid(), a as nat, (R * C) as nat, C as int) + ls_list_in(self.grid(), a as int, 0, C as int));
            assert(sym_bad@ =~= sym_list(self.grid(), a as nat, (R * C) as nat, C as int) + sym_list_in(self.grid(), a as int, 0, C as int));
            while idx < R * C
                invariant
                    a < n,
                    idx <= R * C,
                    n == self.num_layers(),
                    self.wf(),
                    ls_bad@ == ls_list(self.grid(), a as nat, (R * C) as nat, C as int) + ls_list_in(self.grid(), a as int, idx as nat, C as int),
                    sym_bad@ == sym_list(self.grid(), a as nat, (R * C) as nat, C as int) + sym_list_in(self.grid(), a as int, idx as nat, C as int),
                    forall|i: int|
                        0 <= i < ls_bad@.len() ==> self.in_bounds((#[trigger] ls_bad@[i]).0) && !self.ls_pair_ok(ls_bad@[i].0)
                            && ls_bad@[i].1 == self.ls_partner(ls_bad@[i].0),
                    forall|i: int|
                        0 <= i < sym_bad@.len() ==> self.in_bounds((#[trigger] sym_bad@[i]).0) && !self.sym_pair_ok(sym_bad@[i].0)
                            && sym_bad@[i].1 == mirror(sym_bad@[i].0, C as int),
                    ls_bad@.len() == 0 ==> forall|q: LayoutPosition| #[trigger] self.in_bounds(q) && (q.layer_index < a || (q.layer_index == a
                        && q.row_index * C + q.col_index < idx)) ==> self.ls_pair_ok(q),
                    sym_bad@.len() == 0 ==> forall|q: LayoutPosition| #[trigger] self.in_bounds(q) && (q.layer_index < a || (q.layer_index == a
                        && q.row_index * C + q.col_index < idx)) ==> self.sym_pair_ok(q),
                decreases R * C - idx,
            {
                let p = Self::position_of(a, idx);
                let key = self.get(p);
                match key.value {
                    Keycode::_LS(t) => {
                        let q = LayoutPosition::new(t, p.row_index, p.col_index);
                        let ok = if t < n {
                            match self.get(q).value {
                                Keycode::_LST(t2, _) => t2 == t,
                                _ => false,
                            }
                        } else {
                            false
                        };
                        if !ok {
                            ls_bad.push((p, q));
                        }
                    },
                    Keycode::_LST(t, s) => {
                        let q = LayoutPosition::new(s, p.row_index, p.col_index);
                        let ok = if s < n {
                            match self.get(q).value {
                                Keycode::_LS(t2) => t2 == t,
                                _ => true,
                            }
                        } else {
                            false
                        };
                        if !ok {
                            ls_bad.push((p, q));
                        }
                    },
                    _ => {},
                }
                if key.is_symmetric {
                    let q = self.symmetric_position(p);
                    if !self.get(q).is_symmetric {
                        sym_bad.push((p, q));
                    }
                }
                assert(ls_bad@ =~= ls_list(self.grid(), a as nat, (R * C) as nat, C as int) + ls_list_in(self.grid(), a as int, (idx + 1) as nat, C as int));
                assert(sym_bad@ =~= sym_list(self.grid(), a as nat, (R * C) as nat, C as int) + sym_list_in(self.grid(), a as int, (idx + 1) as nat, C as int));
                assert forall|q: LayoutPosition|
                    #[trigger] self.in_bounds(q) && q.layer_index == a && q.row_index * C + q.col_index == idx implies q == p by {
                    lemma_cell_index_unique(q.row_index as int, q.col_index as int, p.row_index as int, p.col_index as int, C as int);
                }
                idx = idx + 1;
            }
            assert forall|q: LayoutPosition| #[trigger] self.in_bounds(q) && q.layer_index == a implies q.row_index * C + q.col_index < R * C by {
                lemma_cell_index(q.row_index as int, q.col_index as int, R as int, C as int);
            }
            a = a + 1;
        }
        if ls_bad.len() > 0 {
            let ghost w = ls_bad@[0];
            assert(self.in_bounds(w.0) && !self.ls_pair_ok(w.0));
        } else {
            assert forall|q: LayoutPosition| #[trigger] self.in_bounds(q) implies self.ls_pair_ok(q) by {}
        }
        if sym_bad.len() > 0 {
            let ghost w = sym_bad@[0];
            assert(self.in_bounds(w.0) && !self.sym_pair_ok(w.0));
        } else {
            assert forall|q: LayoutPosition| #[trigger] self.in_bounds(q) implies self.sym_pair_ok(q) by {}
        }
        (ls_bad, sym_bad)
    }

    /// Whether pruning blanks the cell at `p`: not visited, moveable, not
    /// symmetric, and not a layer key.
    pub open spec fn prunable(&self, p: LayoutPosition, visited: Seq<LayoutPosition>) -> bool {
        let k = self.cell(p);
        !visited.contains(p) && k.is_moveable && !k.is_symmetric && !(k.value is _LS) && !(k.value is _LST)
    }

    /// Blanks every prunable cell. The path-map is left as it was; rebuild it
    /// afterwards.
    pub fn remove_unused_keys(&mut self, visited: &Vec<LayoutPosition>)
        requires
            old(self).wf(),
        ensures
            final(self).wf(),
            final(self).num_layers() == old(self).num_layers(),
            forall|k: Keycode| #[trigger] final(self).paths(k) == old(self).paths(k),
            final(self).pathmap_keys() == old(self).pathmap_keys(),
            forall|p: LayoutPosition|
                #[trigger] old(self).in_bounds(p) ==> final(self).cell(p) == if old(self).prunable(p, visited@) {
                    KeycodeKey { value: Keycode::_NO, ..old(self).cell(p) }
                } else {
                    old(self).cell(p)
                },
    {
        let ghost start = *self;
        let n = self.layers.len();
        let mut a: usize = 0;
        while a < n
            invariant
                a <= n,
                n == self.num_layers(),
                n == start.num_layers(),
                self.wf(),
                self.keycode_pathmap == start.keycode_pathmap,
                forall|p: LayoutPosition|
                    #[trigger] start.in_bounds(p) ==> self.cell(p) == if p.layer_index < a && start.prunable(p, visited@) {
                        KeycodeKey { value: Keycode::_NO, ..start.cell(p) }
                    } else {
                        start.cell(p)
                    },
            decreases n - a,
        {
            let mut idx: usize = 0;
            while idx < R * C
                invariant
                    a < n,
                    idx <= R * C,
                    n == self.num_layers(),
                    n == start.num_layers(),
                    self.wf(),
                    self.keycode_pathmap == start.keycode_pathmap,
                    forall|p: LayoutPosition|
                        #[trigger] start.in_bounds(p) ==> self.cell(p) == if (p.layer_index < a || (p.layer_index == a
                            && p.row_index * C + p.col_index < idx)) && start.prunable(p, visited@) {
                            KeycodeKey { value: Keycode::_NO, ..start.cell(p) }
                        } else {
                            start.cell(p)
                        },
                decreases R * C - idx,
            {
                let p = Self::position_of(a, idx);
                let k = self.get(p);
                assert(start.in_bounds(p));
                assert(k == start.cell(p));
                let keep = contains_position(visited, p) || !k.is_moveable || k.is_symmetric || match k.value {
                    Keycode::_LS(_) => true,
                    Keycode::_LST(_, _) => true,
                    _ => false,
                };
                let ghost mid = *self;
                if !keep {
                    let mut nk = k;
                    nk.set_value(Keycode::_NO);
                    self.put(p, nk);
                }
                assert forall|q: LayoutPosition|
                    #[trigger] start.in_bounds(q) implies self.cell(q) == if (q.layer_index < a || (q.layer_index == a
                        && q.row_index * C + q.col_index < idx + 1)) && start.prunable(q, visited@) {
                        KeycodeKey { value: Keycode::_NO, ..start.cell(q) }
                    } else {
                        start.cell(q)
                    } by {
                    assert(mid.in_bounds(q));
                    lemma_cell_index(q.row_index as int, q.col_index as int, R as int, C as int);
                    if q.layer_index == a && q.row_index * C + q.col_index == idx {
                        lemma_cell_index_unique(q.row_index as int, q.col_index as int, p.row_index as int, p.col_index as int, C as int);
                        assert(q == p);
                    } else if !keep {
                        if q.layer_index == a {
                            assert(q.row_index * C + q.col_index != p.row_index * C + p.col_index);
                        }
                        assert(self.cell(q) == mid.cell(q));
                    }
                }
                idx = idx + 1;
            }
            assert forall|q: LayoutPosition| #[trigger] start.in_bounds(q) && q.layer_index == a implies q.row_index * C + q.col_index < R * C by {
                lemma_cell_index(q.row_index as int, q.col_index as int, R as int, C as int);
            }
            a = a + 1;
        }
    }
}

/// The pieces of a layout string around its layer header lines.
pub uninterp spec fn layer_sections(s: Seq<char>) -> Seq<Seq<char>>;

/// Relies on `regex::Regex::split` with the pattern `(___)(.*)(___)`: the
/// pieces of `s` around each layer header such as `___Layer 0___`, in order.
/// The pattern is a valid literal, so `Regex::new` succeeds.
#[verifier::external_body]
fn split_layer_sections(s: &str) -> (r: Vec<String>)
    ensures
        r@.len() == layer_sections(s@).len(),
        forall|i: int| 0 <= i < r@.len() ==> #[trigger] r@[i]@ == layer_sections(s@)[i],
{
    match regex::Regex::new(r"(___)(.*)(___)") {
        Ok(re) => re.split(s).map(String::from).collect(),
        Err(_) => Vec::new(),
    }
}

/// The number of sections that are not blank.
pub open spec fn count_nonblank(ss: Seq<Seq<char>>) -> nat
    decreases ss.len(),
{
    if ss.len() == 0 {
        0
    } else {
        count_nonblank(ss.drop_last()) + if crate::text::is_blank(ss.last()) {
            0nat
        } else {
            1nat
        }
    }
}

impl<const R: usize, const C: usize> Layout<R, C> {
    /// Builds a layout from its layer sections: every non-blank section is a
    /// layer; each layer switch gets its target marker; the path-map is
    /// built and the pairings are checked.
    pub fn try_from_sections(sections: &Vec<String>) -> (r: Result<Self, AlcError>)
        requires
            R * C <= usize::MAX,
        ensures
            r matches Ok(l) ==> l.wf() && l.pathmap_ok() && l.layer_switches_ok() && l.symmetry_ok()
                && l.num_layers() == count_nonblank(sections@.map_values(|s: String| s@)),
            r matches Ok(l) ==> l.grid() == sections_grid(sections@.map_values(|s: String| s@), R as nat, C as nat),
            r.is_ok() <==> sections_ok(sections@.map_values(|s: String| s@), R as nat, C as nat),
            r matches Err(e) ==> sections_error(sections@.map_values(|s: String| s@), R as nat, C as nat, e),
    {
        let ghost sv = sections@.map_values(|s: String| s@);
        let mut layers: Vec<Layer<R, C, KeycodeKey>> = Vec::new();
        let mut i: usize = 0;
        while i < sections.len()
            invariant
                i <= sections@.len(),
                R * C <= usize::MAX,
                sv == sections@.map_values(|s: String| s@),
                layers@.len() == count_nonblank(sv.subrange(0, i as int)),
                forall|j: int| 0 <= j < layers@.len() ==> (#[trigger] layers@[j]).wf(),
                parse_sections(sv.subrange(0, i as int), R as nat, C as nat) is Some,
                layers@.map_values(|l: Layer<R, C, KeycodeKey>| l.keys()) == parse_sections(sv.subrange(0, i as int), R as nat, C as nat)->Some_0,
            decreases sections@.len() - i,
        {
            let cs = crate::text::chars_of(sections[i].as_str());
            assert(sv.subrange(0, i + 1).drop_last() =~= sv.subrange(0, i as int));
            assert(sv.subrange(0, i + 1).last() == cs@);
            if !crate::text::blank(&cs) {
                let layer = match Layer::<R, C, KeycodeKey>::try_from_chars(&cs) {
                    Ok(l) => l,
                    Err(e) => {
                        proof {
                            lemma_parse_sections_none(sv, i as int + 1, R as nat, C as nat);
                            lemma_parse_prefix_none(sv, i as int + 1, R as nat, C as nat);
                        }
                        return Err(e);
                    },
                };
                let ghost lv = layers@;
                layers.push(layer);
                assert(layers@.map_values(|l: Layer<R, C, KeycodeKey>| l.keys()) =~= lv.map_values(|l: Layer<R, C, KeycodeKey>| l.keys()).push(layer.keys()));
            }
            i = i + 1;
        }
        assert(sv.subrange(0, sections@.len() as int) =~= sv);
        let ghost g0 = layers@.map_values(|l: Layer<R, C, KeycodeKey>| l.keys());
        let mut layout = Layout { layers, keycode_pathmap: KeycodePathMap::new() };
        assert forall|j: int| 0 <= j < layout.layers@.len() implies (#[trigger] layout.layers@[j]).wf() by {}
        assert(layout.grid() =~= g0);
        let n = layout.layers.len();
        let mut a: usize = 0;
        while a < n
            invariant
                a <= n,
                n == layout.num_layers(),
                n == count_nonblank(sv),
                layout.wf(),
                layout.grid() == reinforce_all(g0, a as nat, (R * C) as nat),
            decreases n - a,
        {
            let mut idx: usize = 0;
            while idx < R * C
                invariant
                    a < n,
                    idx <= R * C,
                    n == layout.num_layers(),
                    n == count_nonblank(sv),
                    layout.wf(),
                    layout.grid() == reinforce_in(reinforce_all(g0, a as nat, (R * C) as nat), a as int, idx as nat),
                decreases R * C - idx,
            {
                let p = Self::position_of(a, idx);
                let k = layout.get(p);
                let ghost gb = layout.grid();
                if let Keycode::_LS(t) = k.value {
                    if t < n {
                        let q = LayoutPosition::new(t, p.row_index, p.col_index);
                        let mut kq = layout.get(q);
                        kq.set_value(Keycode::_LST(t, a));
                        layout.put(q, kq);
                        assert(layout.grid() == reinforce_step(gb, a as int, idx as int));
                    }
                }
                idx = idx + 1;
            }
            a = a + 1;
        }
        assert(g0.len() == n);
        proof {
            layout.lemma_reachable_grid();
        }
        let ghost pre = layout;
        match layout.generate_pathmap() {
            Ok(()) => {},
            Err(e) => {
                return Err(e);
            },
        }
        assert(layout.grid() == pre.grid());
        let (v1, v2) = layout.verify_layout_correctness();
        if v1.len() > 0 {
            return Err(AlcError::LayoutLayerSwitchError(v1));
        }
        if v2.len() > 0 {
            return Err(AlcError::LayoutSymmetryError(v2));
        }
        Ok(layout)
    }

    /// Reads a layout: layers separated by header lines such as
    /// `___Layer 0___`, each in the layer grammar of [`Layer`].
    pub fn try_from_str(s: &str) -> (r: Result<Self, AlcError>)
        requires
            R * C <= usize::MAX,
        ensures
            r matches Ok(l) ==> l.wf() && l.pathmap_ok() && l.layer_switches_ok() && l.symmetry_ok()
                && l.num_layers() == count_nonblank(layer_sections(s@)),
            r matches Ok(l) ==> l.grid() == sections_grid(layer_sections(s@), R as nat, C as nat),
            r.is_ok() <==> sections_ok(layer_sections(s@), R as nat, C as nat),
            r matches Err(e) ==> sections_error(layer_sections(s@), R as nat, C as nat, e),
    {
        let sections = split_layer_sections(s);
        assert(sections@.map_values(|x: String| x@) =~= layer_sections(s@));
        Self::try_from_sections(&sections)
    }
}

impl<const R: usize, const C: usize> Layout<R, C> {
    /// Fills the blank randomizeable cells, layer by layer, from the queue
    /// `draw` and then from `all`, never with a keycode the path-map already
    /// holds, and rebuilds the path-map; see [`fill_layers`].
    pub fn randomize_with(&mut self, all: &Vec<Keycode>, draw: &Vec<Keycode>) -> (r: Result<(), AlcError>)
        requires
            old(self).wf(),
        ensures
            final(self).wf(),
            final(self).grid() == fill_layers(
                old(self).grid(),
                old(self).num_layers(),
                all@,
                draw@,
                old(self).pathmap_keys(),
                (R * C) as nat,
            ).0,
            r.is_ok() ==> final(self).pathmap_ok(),
            r.is_ok() <==> final(self).layers_reachable(),
            r matches Err(e) ==> (e is LayerAccessError),
            old(self).pairings_ok() && no_layer_keys(all@) && no_layer_keys(draw@) ==> final(self).pairings_ok()
                && final(self).layer_switches_ok() && final(self).symmetry_ok(),
    {
        let ghost start = *self;
        let present = self.keycode_pathmap.key_list();
        let mut queue = crate::ngram::copy_keycodes(draw);
        let n = self.layers.len();
        let mut a: usize = 0;
        let mut stopped = false;
        while a < n && !stopped
            invariant
                a <= n,
                n == self.num_layers(),
                n == start.num_layers(),
                self.wf(),
                present@ == start.pathmap_keys(),
                self.keycode_pathmap == start.keycode_pathmap,
                ({
                    let f = fill_layers(start.grid(), a as nat, all@, draw@, present@, (R * C) as nat);
                    &&& self.grid() == f.0
                    &&& queue@ == f.1
                    &&& stopped == f.2
                }),
            decreases n - a,
        {
            let ghost before = *self;
            assert(self.layers@[a as int].wf());
            let mut layer = self.layers.remove(a);
            let (rest, used) = layer.randomize(all, &queue, &present);
            self.layers.insert(a, layer);
            assert(self.layers@ =~= before.layers@.update(a as int, layer));
            assert(self.grid() =~= before.grid().update(a as int, layer.keys()));
            assert forall|j: int| 0 <= j < self.layers@.len() implies (#[trigger] self.layers@[j]).wf() by {
                if j != a {
                    assert(self.layers@[j] == before.layers@[j]);
                }
            }
            assert(self.num_layers() == before.num_layers());
            assert forall|kc: Keycode, j: int|
                0 <= j < self.paths(kc).len() implies (#[trigger] self.paths(kc)[j]).len() >= 1 && self.in_bounds(
                    self.paths(kc)[j].last(),
                ) by {
                assert(self.paths(kc) == before.paths(kc));
            }
            queue = rest;
            stopped = used;
            a = a + 1;
        }
        proof {
            if stopped {
                lemma_fill_layers_stopped(start.grid(), a as nat, n as nat, all@, draw@, present@, (R * C) as nat);
            }
            if start.pairings_ok() && no_layer_keys(all@) && no_layer_keys(draw@) {
                start.lemma_grid_shape();
                self.lemma_grid_shape();
                lemma_fill_layers_plain(start.grid(), n as nat, all@, draw@, present@, (R * C) as nat);
                assert forall|q: LayoutPosition| #[trigger] grid_in_bounds(start.grid(), q, R as int, C as int) implies filled_plainly(
                    grid_cell(start.grid(), q, C as int),
                    grid_cell(self.grid(), q, C as int),
                ) by {
                    lemma_cell_index(q.row_index as int, q.col_index as int, R as int, C as int);
                }
                if R > 0 && C > 0 {
                    lemma_fill_keeps_pairings(start.grid(), self.grid(), R as int, C as int);
                }
            }
        }
        let ghost mid = *self;
        let r = self.generate_pathmap();
        proof {
            self.lemma_reachable_same_grid(&mid);
            if self.pairings_ok() {
                self.lemma_pairings_ok_checks();
            }
        }
        r
    }

    /// Shuffles `valid_keycodes` twice, once as the refill pool and once as
    /// the queue, and fills the layout from them; see
    /// [`Layout::randomize_with`].
    pub fn randomize(&mut self, rng: &mut rand_chacha::ChaCha8Rng, valid_keycodes: &Vec<Keycode>) -> (r: Result<(), AlcError>)
        requires
            old(self).wf(),
        ensures
            final(self).wf(),
            exists|all: Seq<Keycode>, draw: Seq<Keycode>|
                all.to_multiset() == valid_keycodes@.to_multiset() && draw.to_multiset()
                    == valid_keycodes@.to_multiset() && final(self).grid() == #[trigger] fill_layers(
                    old(self).grid(),
                    old(self).num_layers(),
                    all,
                    draw,
                    old(self).pathmap_keys(),
                    (R * C) as nat,
                ).0,
            r.is_ok() ==> final(self).pathmap_ok(),
            r.is_ok() <==> final(self).layers_reachable(),
            r matches Err(e) ==> (e is LayerAccessError),
            old(self).pairings_ok() && no_layer_keys(valid_keycodes@) ==> final(self).pairings_ok()
                && final(self).layer_switches_ok() && final(self).symmetry_ok(),
    {
        let mut all = crate::ngram::copy_keycodes(valid_keycodes);
        crate::random::shuffle_keycodes(rng, &mut all);
        let mut draw = crate::ngram::copy_keycodes(valid_keycodes);
        crate::random::shuffle_keycodes(rng, &mut draw);
        proof {
            lemma_permuted_plain(all@, valid_keycodes@);
            lemma_permuted_plain(draw@, valid_keycodes@);
        }
        self.randomize_with(&all, &draw)
    }

    /// A position drawn at random in the layout.
    pub fn generate_random_position(&self, rng: &mut rand_chacha::ChaCha8Rng) -> (p: LayoutPosition)
        requires
            self.num_layers() > 0,
            R > 0,
            C > 0,
        ensures
            self.in_bounds(p),
    {
        let layer_limit = self.layers.len();
        let l = crate::random::random_below(rng, layer_limit);
        let r = crate::random::random_below(rng, R);
        let c = crate::random::random_below(rng, C);
        LayoutPosition::new(l, r, c)
    }

    /// A moveable position drawn at random, with up to a hundred draws.
    fn generate_random_moveable_position(&self, rng: &mut rand_chacha::ChaCha8Rng) -> (r: Option<LayoutPosition>)
        requires
            self.wf(),
            self.num_layers() > 0,
            R > 0,
            C > 0,
        ensures
            r matches Some(p) ==> self.in_bounds(p) && self.cell(p).is_moveable,
    {
        let mut count: u32 = 0;
        while count < FALLBACK_COUNT
            invariant
                self.wf(),
                self.num_layers() > 0,
                R > 0,
                C > 0,
            decreases FALLBACK_COUNT - count,
        {
            let p = self.generate_random_position(rng);
            if self.get(p).is_moveable {
                return Some(p);
            }
            count = count + 1;
        }
        None
    }

    /// Whether `p` may be the first cell of a random swap: moveable,
    /// holding a keycode, and not a target marker.
    pub fn swap_source_ok(&self, p: LayoutPosition) -> (r: bool)
        requires
            self.wf(),
            self.in_bounds(p),
        ensures
            r == (self.cell(p).is_moveable && self.cell(p).value != Keycode::_NO && !(self.cell(p).value is _LST)),
    {
        let k = self.get(p);
        k.is_moveable && k.value != Keycode::_NO && !matches!(k.value, Keycode::_LST(_, _))
    }

    /// Whether `p2` may be swapped with `p1` by the search: `swap` accepts
    /// the pair, the cells differ, and both or neither are symmetric.
    pub fn swap_partner_ok(&self, p1: LayoutPosition, p2: LayoutPosition) -> (r: bool)
        requires
            self.wf(),
            self.in_bounds(p1),
            self.in_bounds(p2),
        ensures
            r == (self.swap_pre(p1, p2) && p1 != p2 && self.cell(p1).is_symmetric == self.cell(p2).is_symmetric),
    {
        if p1 == p2 {
            return false;
        }
        let k1 = self.get(p1);
        let k2 = self.get(p2);
        if !k1.is_moveable || !k2.is_moveable || k1.is_symmetric != k2.is_symmetric {
            return false;
        }
        if matches!(k2.value, Keycode::_LS(_)) || matches!(k1.value, Keycode::_LST(_, _)) || matches!(k2.value, Keycode::_LST(_, _)) {
            return false;
        }
        match k1.value {
            Keycode::_LS(t) => p1.layer_index == p2.layer_index && !k2.is_symmetric && !k1.is_symmetric && t < self.layers.len(),
            _ => true,
        }
    }

    /// Two positions drawn at random for a swap: the first accepted by
    /// [`Layout::swap_source_ok`], the second by [`Layout::swap_partner_ok`];
    /// `None` when a hundred draws find none.
    pub fn generate_random_valid_swap(&self, rng: &mut rand_chacha::ChaCha8Rng) -> (r: Option<(LayoutPosition, LayoutPosition)>)
        requires
            self.wf(),
            self.num_layers() > 0,
            R > 0,
            C > 0,
        ensures
            r matches Some((p1, p2)) ==> self.in_bounds(p1) && self.in_bounds(p2) && self.cell(p1).is_moveable
                && self.cell(p1).value != Keycode::_NO && !(self.cell(p1).value is _LST) && self.swap_pre(p1, p2)
                && p1 != p2 && self.cell(p1).is_symmetric == self.cell(p2).is_symmetric,
    {
        let mut p1 = self.generate_random_moveable_position(rng)?;
        let mut count: u32 = 0;
        while !self.swap_source_ok(p1)
            invariant
                self.wf(),
                self.num_layers() > 0,
                R > 0,
                C > 0,
                self.in_bounds(p1),
            decreases FALLBACK_COUNT - count,
        {
            if count >= FALLBACK_COUNT {
                return None;
            }
            p1 = self.generate_random_moveable_position(rng)?;
            count = count + 1;
        }
        let mut p2 = self.generate_random_moveable_position(rng)?;
        count = 0;
        while !self.swap_partner_ok(p1, p2)
            invariant
                self.wf(),
                self.num_layers() > 0,
                R > 0,
                C > 0,
                self.in_bounds(p1),
                self.in_bounds(p2),
                self.swap_source_ok_spec(p1),
            decreases FALLBACK_COUNT - count,
        {
            if count >= FALLBACK_COUNT {
                return None;
            }
            p2 = self.generate_random_moveable_position(rng)?;
            count = count + 1;
        }
        Some((p1, p2))
    }

    pub open spec fn swap_source_ok_spec(&self, p: LayoutPosition) -> bool {
        self.cell(p).is_moveable && self.cell(p).value != Keycode::_NO && !(self.cell(p).value is _LST)
    }

    /// Whether `replace` may be aimed at `p` by the search: it accepts the
    /// cell, and the cell is not symmetric.
    fn replaceable(&self, p: LayoutPosition) -> (r: bool)
        requires
            self.wf(),
            self.in_bounds(p),
        ensures
            r == (self.replace_pre(p) && !self.cell(p).is_symmetric),
    {
        let k = self.get(p);
        let layer_key = match k.value {
            Keycode::_LS(_) => true,
            Keycode::_LST(_, _) => true,
            _ => false,
        };
        if layer_key || !k.is_moveable || k.is_symmetric {
            return false;
        }
        if k.value == Keycode::_NO {
            return true;
        }
        match self.keycode_pathmap.get(k.value) {
            Some(ps) => ps.len() >= 2,
            None => false,
        }
    }

    /// A position drawn at random that `replace` accepts and that is not
    /// symmetric; `None` when a hundred draws find none.
    pub fn generate_valid_replace_position(&self, rng: &mut rand_chacha::ChaCha8Rng) -> (r: Option<LayoutPosition>)
        requires
            self.wf(),
            self.num_layers() > 0,
            R > 0,
            C > 0,
        ensures
            r matches Some(p) ==> self.replace_pre(p) && !self.cell(p).is_symmetric,
    {
        let mut count: u32 = 0;
        while count < FALLBACK_COUNT
            invariant
                self.wf(),
                self.num_layers() > 0,
                R > 0,
                C > 0,
            decreases FALLBACK_COUNT - count,
        {
            let p = self.generate_random_moveable_position(rng)?;
            if self.replaceable(p) {
                return Some(p);
            }
            count = count + 1;
        }
        None
    }
}

/// How many draws the random position searches make before giving up.
pub const FALLBACK_COUNT: u32 = 100;

/// The cell at `q` of layers with `cols` columns.
pub open spec fn grid_cell(g: Seq<Seq<KeycodeKey>>, q: LayoutPosition, cols: int) -> KeycodeKey {
    g[q.layer_index as int][q.row_index * cols + q.col_index]
}

pub open spec fn grid_in_bounds(g: Seq<Seq<KeycodeKey>>, q: LayoutPosition, rows: int, cols: int) -> bool {
    q.layer_index < g.len() && q.row_index < rows && q.col_index < cols
}

/// Layers of `rows` by `cols` cells each.
pub open spec fn grid_shaped(g: Seq<Seq<KeycodeKey>>, rows: int, cols: int) -> bool {
    forall|l: int| 0 <= l < g.len() ==> (#[trigger] g[l]).len() == rows * cols
}

/// The cells after an effective swap of `p1` and `p2`; see
/// [`Layout::swapped_grid`].
pub open spec fn grid_swapped(g: Seq<Seq<KeycodeKey>>, p1: LayoutPosition, p2: LayoutPosition, cols: int) -> Seq<Seq<KeycodeKey>> {
    let k1 = grid_cell(g, p1, cols);
    let k2 = grid_cell(g, p2, cols);
    let g2 = put_cell(put_cell(g, p1, cols, k2), p2, cols, k1);
    if let Keycode::_LS(t) = k1.value {
        let q1 = under(p1, t);
        let q2 = under(p2, t);
        put_cell(put_cell(g2, q1, cols, grid_cell(g, q2, cols)), q2, cols, grid_cell(g, q1, cols))
    } else if k1.is_symmetric {
        let q1 = mirror(p1, cols);
        let q2 = mirror(p2, cols);
        put_cell(put_cell(g2, q1, cols, grid_cell(g, q2, cols)), q2, cols, grid_cell(g, q1, cols))
    } else {
        g2
    }
}

/// A cell read after one write: the written value at the written position,
/// the old value elsewhere.
pub proof fn lemma_cell_after_put(g: Seq<Seq<KeycodeKey>>, p: LayoutPosition, k: KeycodeKey, q: LayoutPosition, rows: int, cols: int)
    requires
        grid_shaped(g, rows, cols),
        grid_in_bounds(g, p, rows, cols),
        grid_in_bounds(g, q, rows, cols),
    ensures
        grid_shaped(put_cell(g, p, cols, k), rows, cols),
        put_cell(g, p, cols, k).len() == g.len(),
        grid_cell(put_cell(g, p, cols, k), q, cols) == if q == p { k } else { grid_cell(g, q, cols) },
{
    lemma_cell_index(p.row_index as int, p.col_index as int, rows, cols);
    lemma_cell_index(q.row_index as int, q.col_index as int, rows, cols);
    if q != p && q.layer_index == p.layer_index && q.row_index * cols + q.col_index == p.row_index * cols + p.col_index {
        lemma_cell_index_unique(q.row_index as int, q.col_index as int, p.row_index as int, p.col_index as int, cols);
    }
}

/// Two grids of the same shape with the same cell at every position are
/// equal.
pub proof fn lemma_grid_ext(g: Seq<Seq<KeycodeKey>>, h: Seq<Seq<KeycodeKey>>, rows: int, cols: int)
    requires
        rows > 0,
        cols > 0,
        rows * cols <= usize::MAX,
        g.len() <= usize::MAX,
        g.len() == h.len(),
        grid_shaped(g, rows, cols),
        grid_shaped(h, rows, cols),
        forall|q: LayoutPosition| grid_in_bounds(g, q, rows, cols) ==> #[trigger] grid_cell(g, q, cols) == grid_cell(h, q, cols),
    ensures
        g == h,
{
    assert forall|l: int| 0 <= l < g.len() implies g[l] =~= h[l] by {
        assert forall|i: int| 0 <= i < g[l].len() implies g[l][i] == h[l][i] by {
            lemma_row_major_split(i, rows, cols);
            assert(rows <= rows * cols) by (nonlinear_arith)
                requires
                    cols > 0,
                    rows > 0,
            ;
            let q = LayoutPosition { layer_index: l as usize, row_index: (i / cols) as usize, col_index: (i % cols) as usize };
            assert(grid_in_bounds(g, q, rows, cols));
            assert(grid_cell(g, q, cols) == grid_cell(h, q, cols));
        }
    }
    assert(g =~= h);
}

/// Swapping the same two cells twice gives back the cells one started with,
/// when the first swap changes something and neither is a layer switch; for
/// symmetric cells, both must be symmetric, the first must not be its own
/// mirror, and its mirror must be able to move back.
pub proof fn lemma_swap_twice(g: Seq<Seq<KeycodeKey>>, p1: LayoutPosition, p2: LayoutPosition, rows: int, cols: int)
    requires
        rows > 0,
        cols > 0,
        rows * cols <= usize::MAX,
        g.len() <= usize::MAX,
        grid_shaped(g, rows, cols),
        grid_in_bounds(g, p1, rows, cols),
        grid_in_bounds(g, p2, rows, cols),
        p1 != p2,
        !(grid_cell(g, p1, cols).value is _LS),
        !(grid_cell(g, p2, cols).value is _LS),
        grid_cell(g, p1, cols).is_symmetric == grid_cell(g, p2, cols).is_symmetric,
        grid_cell(g, p1, cols).is_symmetric ==> {
            let q1 = mirror(p1, cols);
            let q2 = mirror(p2, cols);
            let k1m = grid_cell(g, q1, cols);
            let k2m = grid_cell(g, q2, cols);
            &&& q1 != p1
            &&& q2 != p2
            &&& k1m.is_moveable && !(k1m.value is _LS) && !(k1m.value is _LST)
            &&& k2m.is_moveable && !(k2m.value is _LS) && !(k2m.value is _LST)
        },
    ensures
        grid_swapped(grid_swapped(g, p1, p2, cols), p1, p2, cols) == g,
{
    let g1 = grid_swapped(g, p1, p2, cols);
    let g2 = grid_swapped(g1, p1, p2, cols);
    let k1 = grid_cell(g, p1, cols);
    let k2 = grid_cell(g, p2, cols);
    let q1 = mirror(p1, cols);
    let q2 = mirror(p2, cols);
    assert(grid_in_bounds(g, q1, rows, cols));
    assert(grid_in_bounds(g, q2, rows, cols));
    assert(cols <= rows * cols) by (nonlinear_arith)
        requires
            cols > 0,
            rows > 0,
    ;
    assert(q1.col_index == cols - 1 - p1.col_index);
    assert(q2.col_index == cols - 1 - p2.col_index);
    assert(q1 == p2 <==> q2 == p1);
    assert(q1 != q2);
    let a = put_cell(g, p1, cols, k2);
    lemma_cell_after_put(g, p1, k2, p1, rows, cols);
    let b = put_cell(a, p2, cols, k1);
    lemma_cell_after_put(a, p2, k1, p1, rows, cols);
    if k1.is_symmetric {
        let c = put_cell(b, q1, cols, grid_cell(g, q2, cols));
        lemma_cell_after_put(b, q1, grid_cell(g, q2, cols), p1, rows, cols);
        assert(g1 == put_cell(c, q2, cols, grid_cell(g, q1, cols)));
        assert forall|q: LayoutPosition| grid_in_bounds(g, q, rows, cols) implies #[trigger] grid_cell(g1, q, cols) == if q == q2 {
            grid_cell(g, q1, cols)
        } else if q == q1 {
            grid_cell(g, q2, cols)
        } else if q == p2 {
            k1
        } else if q == p1 {
            k2
        } else {
            grid_cell(g, q, cols)
        } by {
            lemma_cell_after_put(g, p1, k2, q, rows, cols);
            lemma_cell_after_put(a, p2, k1, q, rows, cols);
            lemma_cell_after_put(b, q1, grid_cell(g, q2, cols), q, rows, cols);
            lemma_cell_after_put(c, q2, grid_cell(g, q1, cols), q, rows, cols);
        }
        lemma_cell_after_put(b, q1, grid_cell(g, q2, cols), q2, rows, cols);
        lemma_cell_after_put(c, q2, grid_cell(g, q1, cols), q1, rows, cols);
        assert(grid_shaped(g1, rows, cols));
        assert(g1.len() == g.len());
        let a1 = put_cell(g1, p1, cols, grid_cell(g1, p2, cols));
        let b1 = put_cell(a1, p2, cols, grid_cell(g1, p1, cols));
        let c1 = put_cell(b1, q1, cols, grid_cell(g1, q2, cols));
        lemma_cell_after_put(g1, p1, grid_cell(g1, p2, cols), p1, rows, cols);
        lemma_cell_after_put(a1, p2, grid_cell(g1, p1, cols), p1, rows, cols);
        lemma_cell_after_put(b1, q1, grid_cell(g1, q2, cols), p1, rows, cols);
        assert forall|q: LayoutPosition| grid_in_bounds(g, q, rows, cols) implies #[trigger] grid_cell(g2, q, cols) == grid_cell(g, q, cols) by {
            lemma_cell_after_put(g1, p1, grid_cell(g1, p2, cols), q, rows, cols);
            lemma_cell_after_put(a1, p2, grid_cell(g1, p1, cols), q, rows, cols);
            lemma_cell_after_put(b1, q1, grid_cell(g1, q2, cols), q, rows, cols);
            lemma_cell_after_put(c1, q2, grid_cell(g1, q1, cols), q, rows, cols);
            assert(grid_cell(g1, q1, cols) == grid_cell(g, q2, cols) || q1 == q2 || q1 == p2 || q1 == p1);
        }
        lemma_cell_after_put(c1, q2, grid_cell(g1, q1, cols), p1, rows, cols);
        lemma_grid_ext(g2, g, rows, cols);
    } else {
        assert(g1 == b);
        assert forall|q: LayoutPosition| grid_in_bounds(g, q, rows, cols) implies #[trigger] grid_cell(g1, q, cols) == if q == p2 {
            k1
        } else if q == p1 {
            k2
        } else {
            grid_cell(g, q, cols)
        } by {
            lemma_cell_after_put(g, p1, k2, q, rows, cols);
            lemma_cell_after_put(a, p2, k1, q, rows, cols);
        }
        let a1 = put_cell(g1, p1, cols, k1);
        lemma_cell_after_put(g1, p1, k1, p1, rows, cols);
        assert forall|q: LayoutPosition| grid_in_bounds(g, q, rows, cols) implies #[trigger] grid_cell(g2, q, cols) == grid_cell(g, q, cols) by {
            lemma_cell_after_put(g1, p1, k1, q, rows, cols);
            lemma_cell_after_put(a1, p2, k2, q, rows, cols);
        }
        lemma_cell_after_put(a1, p2, k2, p1, rows, cols);
        lemma_grid_ext(g2, g, rows, cols);
    }
}

/// See [`Layout::ls_pair_ok`].
pub open spec fn grid_ls_pair_ok(g: Seq<Seq<KeycodeKey>>, p: LayoutPosition, cols: int) -> bool {
    match grid_cell(g, p, cols).value {
        Keycode::_LS(t) => t < g.len() && (grid_cell(g, under(p, t), cols).value matches Keycode::_LST(t2, _)
            && t2 == t),
        Keycode::_LST(t, s) => s < g.len() && !(grid_cell(g, under(p, s), cols).value matches Keycode::_LS(t2)
            && t2 != t),
        _ => true,
    }
}

/// See [`Layout::sym_pair_ok`].
pub open spec fn grid_sym_pair_ok(g: Seq<Seq<KeycodeKey>>, p: LayoutPosition, cols: int) -> bool {
    grid_cell(g, p, cols).is_symmetric ==> grid_cell(g, mirror(p, cols), cols).is_symmetric
}

/// Every layer-switch pairing and every symmetric pairing holds, and no
/// layer key is symmetric.
pub open spec fn grid_pairings_ok(g: Seq<Seq<KeycodeKey>>, rows: int, cols: int) -> bool {
    forall|q: LayoutPosition|
        #[trigger] grid_in_bounds(g, q, rows, cols) ==> grid_ls_pair_ok(g, q, cols) && grid_sym_pair_ok(g, q, cols)
            && (grid_cell(g, q, cols).is_symmetric ==> !(grid_cell(g, q, cols).value is _LS) && !(grid_cell(
            g,
            q,
            cols,
        ).value is _LST))
}

pub open spec fn is_layer_key(k: KeycodeKey) -> bool {
    k.value is _LS || k.value is _LST
}

/// Replacing the keycode of a cell that is not a layer key with one that is
/// not a layer key keeps every pairing.
pub proof fn lemma_replace_keeps_pairings(g: Seq<Seq<KeycodeKey>>, p: LayoutPosition, v: Keycode, rows: int, cols: int)
    requires
        rows > 0,
        cols > 0,
        grid_shaped(g, rows, cols),
        grid_in_bounds(g, p, rows, cols),
        grid_pairings_ok(g, rows, cols),
        !is_layer_key(grid_cell(g, p, cols)),
        !(v is _LS) && !(v is _LST),
    ensures
        grid_pairings_ok(put_cell(g, p, cols, KeycodeKey { value: v, ..grid_cell(g, p, cols) }), rows, cols),
{
    let k = KeycodeKey { value: v, ..grid_cell(g, p, cols) };
    let h = put_cell(g, p, cols, k);
    lemma_cell_after_put(g, p, k, p, rows, cols);
    assert forall|q: LayoutPosition| #[trigger] grid_in_bounds(h, q, rows, cols) implies grid_ls_pair_ok(h, q, cols)
        && grid_sym_pair_ok(h, q, cols) && (grid_cell(h, q, cols).is_symmetric ==> !(grid_cell(h, q, cols).value is _LS)
        && !(grid_cell(h, q, cols).value is _LST)) by {
        assert(grid_in_bounds(g, q, rows, cols));
        lemma_cell_after_put(g, p, k, q, rows, cols);
        let m = mirror(q, cols);
        assert(grid_in_bounds(g, m, rows, cols));
        lemma_cell_after_put(g, p, k, m, rows, cols);
        match grid_cell(g, q, cols).value {
            Keycode::_LS(t) => {
                lemma_cell_after_put(g, p, k, under(q, t), rows, cols);
            },
            Keycode::_LST(t, s) => {
                lemma_cell_after_put(g, p, k, under(q, s), rows, cols);
            },
            _ => {},
        }
    }
}

/// A swap of two cells that are not layer switches, plain or symmetric,
/// keeps every pairing.
pub proof fn lemma_swap_keeps_pairings(g: Seq<Seq<KeycodeKey>>, p1: LayoutPosition, p2: LayoutPosition, rows: int, cols: int)
    requires
        rows > 0,
        cols > 0,
        rows * cols <= usize::MAX,
        grid_shaped(g, rows, cols),
        grid_in_bounds(g, p1, rows, cols),
        grid_in_bounds(g, p2, rows, cols),
        grid_pairings_ok(g, rows, cols),
        p1 != p2,
        !is_layer_key(grid_cell(g, p1, cols)),
        !is_layer_key(grid_cell(g, p2, cols)),
        !(!grid_cell(g, p1, cols).is_symmetric && grid_cell(g, p2, cols).is_symmetric),
        grid_cell(g, p1, cols).is_symmetric ==> !is_layer_key(grid_cell(g, mirror(p2, cols), cols))
            && mirror(p2, cols) != p2,
    ensures
        grid_pairings_ok(grid_swapped(g, p1, p2, cols), rows, cols),
{
    let g1 = grid_swapped(g, p1, p2, cols);
    let k1 = grid_cell(g, p1, cols);
    let k2 = grid_cell(g, p2, cols);
    let q1 = mirror(p1, cols);
    let q2 = mirror(p2, cols);
    assert(cols <= rows * cols) by (nonlinear_arith)
        requires
            cols > 0,
            rows > 0,
    ;
    assert(grid_in_bounds(g, q1, rows, cols));
    assert(grid_in_bounds(g, q2, rows, cols));
    assert(q1.col_index == cols - 1 - p1.col_index);
    assert(q2.col_index == cols - 1 - p2.col_index);
    assert(mirror(q1, cols) == p1);
    assert(mirror(q2, cols) == p2);
    let a = put_cell(g, p1, cols, k2);
    let b = put_cell(a, p2, cols, k1);
    lemma_cell_after_put(g, p1, k2, p1, rows, cols);
    if k1.is_symmetric {
        assert(grid_sym_pair_ok(g, p1, cols));
        let c = put_cell(b, q1, cols, grid_cell(g, q2, cols));
        lemma_cell_after_put(a, p2, k1, p1, rows, cols);
        lemma_cell_after_put(b, q1, grid_cell(g, q2, cols), p1, rows, cols);
        assert forall|q: LayoutPosition| grid_in_bounds(g, q, rows, cols) implies #[trigger] grid_cell(g1, q, cols) == if q == q2 {
            grid_cell(g, q1, cols)
        } else if q == q1 {
            grid_cell(g, q2, cols)
        } else if q == p2 {
            k1
        } else if q == p1 {
            k2
        } else {
            grid_cell(g, q, cols)
        } && grid_in_bounds(g1, q, rows, cols) by {
            lemma_cell_after_put(g, p1, k2, q, rows, cols);
            lemma_cell_after_put(a, p2, k1, q, rows, cols);
            lemma_cell_after_put(b, q1, grid_cell(g, q2, cols), q, rows, cols);
            lemma_cell_after_put(c, q2, grid_cell(g, q1, cols), q, rows, cols);
        }
        assert(grid_in_bounds(g, p1, rows, cols) && grid_sym_pair_ok(g, p2, cols) && grid_sym_pair_ok(g, q1, cols) && grid_sym_pair_ok(g, q2, cols));
        assert forall|q: LayoutPosition| #[trigger] grid_in_bounds(g1, q, rows, cols) implies grid_ls_pair_ok(g1, q, cols)
            && grid_sym_pair_ok(g1, q, cols) && (grid_cell(g1, q, cols).is_symmetric ==> !(grid_cell(g1, q, cols).value is _LS)
            && !(grid_cell(g1, q, cols).value is _LST)) by {
            assert(grid_in_bounds(g, q, rows, cols));
            let m = mirror(q, cols);
            assert(m.col_index == cols - 1 - q.col_index);
            assert(grid_in_bounds(g, m, rows, cols));
            assert(mirror(m, cols) == q);
            assert(grid_cell(g1, m, cols) == grid_cell(g1, m, cols));
            match grid_cell(g, q, cols).value {
                Keycode::_LS(t) => {
                    assert(grid_in_bounds(g, under(q, t), rows, cols));
                    assert(grid_cell(g1, under(q, t), cols) == grid_cell(g1, under(q, t), cols));
                },
                Keycode::_LST(t, s) => {
                    assert(grid_in_bounds(g, under(q, s), rows, cols));
                    assert(grid_cell(g1, under(q, s), cols) == grid_cell(g1, under(q, s), cols));
                },
                _ => {},
            }
        }
    } else {
        assert forall|q: LayoutPosition| grid_in_bounds(g, q, rows, cols) implies #[trigger] grid_cell(g1, q, cols) == if q == p2 {
            k1
        } else if q == p1 {
            k2
        } else {
            grid_cell(g, q, cols)
        } && grid_in_bounds(g1, q, rows, cols) by {
            lemma_cell_after_put(g, p1, k2, q, rows, cols);
            lemma_cell_after_put(a, p2, k1, q, rows, cols);
        }
        assert forall|q: LayoutPosition| #[trigger] grid_in_bounds(g1, q, rows, cols) implies grid_ls_pair_ok(g1, q, cols)
            && grid_sym_pair_ok(g1, q, cols) && (grid_cell(g1, q, cols).is_symmetric ==> !(grid_cell(g1, q, cols).value is _LS)
            && !(grid_cell(g1, q, cols).value is _LST)) by {
            assert(grid_in_bounds(g, q, rows, cols));
            let m = mirror(q, cols);
            assert(m.col_index == cols - 1 - q.col_index);
            assert(grid_in_bounds(g, m, rows, cols));
            assert(mirror(m, cols) == q);
            assert(grid_cell(g1, m, cols) == grid_cell(g1, m, cols));
            match grid_cell(g, q, cols).value {
                Keycode::_LS(t) => {
                    assert(grid_in_bounds(g, under(q, t), rows, cols));
                    assert(grid_cell(g1, under(q, t), cols) == grid_cell(g1, under(q, t), cols));
                },
                Keycode::_LST(t, s) => {
                    assert(grid_in_bounds(g, under(q, s), rows, cols));
                    assert(grid_cell(g1, under(q, s), cols) == grid_cell(g1, under(q, s), cols));
                },
                _ => {},
            }
        }
    }
}

/// The layer-by-layer fill of the first `l` layers: each layer is filled
/// with [`crate::layer::fill_upto`] from what is left of the queue, and the
/// fill stops after the layer in which the queue was refilled. Returns the
/// cells, what is left of the queue, and whether the fill stopped.
pub open spec fn fill_layers(
    g: Seq<Seq<KeycodeKey>>,
    l: nat,
    all: Seq<Keycode>,
    draw: Seq<Keycode>,
    present: Seq<Keycode>,
    cells: nat,
) -> (Seq<Seq<KeycodeKey>>, Seq<Keycode>, bool)
    decreases l,
{
    if l == 0 {
        (g, draw, false)
    } else {
        let prev = fill_layers(g, (l - 1) as nat, all, draw, present, cells);
        if prev.2 {
            prev
        } else {
            let f = crate::layer::fill_upto(
                crate::layer::FillState { cells: prev.0[l - 1], queue: prev.1, pos: 0, refilled: false },
                cells,
                all,
                present,
            );
            (prev.0.update(l - 1, f.cells), f.queue.subrange(f.pos as int, f.queue.len() as int), f.refilled)
        }
    }
}

/// Once the fill has stopped, later layers are left as they are.
pub proof fn lemma_fill_layers_stopped(
    g: Seq<Seq<KeycodeKey>>,
    a: nat,
    l: nat,
    all: Seq<Keycode>,
    draw: Seq<Keycode>,
    present: Seq<Keycode>,
    cells: nat,
)
    requires
        a <= l,
        fill_layers(g, a, all, draw, present, cells).2,
    ensures
        fill_layers(g, l, all, draw, present, cells) == fill_layers(g, a, all, draw, present, cells),
    decreases l - a,
{
    if l > a {
        lemma_fill_layers_stopped(g, a, (l - 1) as nat, all, draw, present, cells);
    }
}

impl<const R: usize, const C: usize> Layout<R, C> {
    /// Path-map completeness and correctness: a layout whose path-map
    /// describes its cells, as every constructor and mutation that succeeds
    /// leaves it, passes the path-map check: every path ends on its keycode
    /// and every cell that is neither blank nor a target marker ends a path.
    pub proof fn lemma_pathmap_ok_passes_check(&self)
        requires
            self.pathmap_ok(),
        ensures
            self.terminals_correct(),
            self.cells_reached(),
    {
        assert forall|p: LayoutPosition| #[trigger] self.needs_path(p) implies self.reached(p) by {
            assert(self.is_content(p));
        }
    }
}

/// One step of the target-marker pass at cell `idx` of layer `a`: a switch
/// to an existing layer `t` puts `LST(t, a)` under itself in layer `t`.
pub open spec fn reinforce_step(g: Seq<Seq<KeycodeKey>>, a: int, idx: int) -> Seq<Seq<KeycodeKey>> {
    match g[a][idx].value {
        Keycode::_LS(t) => if t < g.len() {
            g.update(t as int, g[t as int].update(idx, KeycodeKey { value: Keycode::_LST(t, a as usize), ..g[t as int][idx] }))
        } else {
            g
        },
        _ => g,
    }
}

/// The pass over the first `idx` cells of layer `a`.
pub open spec fn reinforce_in(g: Seq<Seq<KeycodeKey>>, a: int, idx: nat) -> Seq<Seq<KeycodeKey>>
    decreases idx,
{
    if idx == 0 {
        g
    } else {
        reinforce_step(reinforce_in(g, a, (idx - 1) as nat), a, idx - 1)
    }
}

/// The pass over the first `a` layers, each of `cells` cells, row-major.
pub open spec fn reinforce_all(g: Seq<Seq<KeycodeKey>>, a: nat, cells: nat) -> Seq<Seq<KeycodeKey>>
    decreases a,
{
    if a == 0 {
        g
    } else {
        reinforce_in(reinforce_all(g, (a - 1) as nat, cells), a - 1, cells)
    }
}

/// The cells of the non-blank sections read as keycode layers, when every
/// one of them reads.
pub open spec fn parse_sections(ss: Seq<Seq<char>>, rows: nat, cols: nat) -> Option<Seq<Seq<KeycodeKey>>>
    decreases ss.len(),
{
    if ss.len() == 0 {
        Some(Seq::empty())
    } else {
        match parse_sections(ss.drop_last(), rows, cols) {
            None => None,
            Some(prev) => if crate::text::is_blank(ss.last()) {
                Some(prev)
            } else {
                match crate::layer::spec_parse_key_layer(ss.last(), rows, cols) {
                    None => None,
                    Some(cells) => Some(prev.push(cells)),
                }
            },
        }
    }
}

/// When a non-blank section does not read, no prefix that holds it reads.
pub proof fn lemma_parse_sections_none(ss: Seq<Seq<char>>, k: int, rows: nat, cols: nat)
    requires
        1 <= k <= ss.len(),
        !crate::text::is_blank(ss[k - 1]),
        crate::layer::spec_parse_key_layer(ss[k - 1], rows, cols) is None,
    ensures
        parse_sections(ss.subrange(0, k), rows, cols) is None,
{
    assert(ss.subrange(0, k).drop_last() =~= ss.subrange(0, k - 1));
}

/// A swap of a layer switch `LS(t)` at `p1` with a cell `p2` of the same
/// layer keeps every pairing, when the target marker under `p1` records this
/// layer, the cell under `p2` in layer `t` is not a layer key, no other
/// layer holds `LS(t)` at `p1`'s cell, and no other layer holds, at `p2`'s
/// cell, a target marker from this layer for another layer.
pub proof fn lemma_ls_swap_keeps_pairings(g: Seq<Seq<KeycodeKey>>, p1: LayoutPosition, p2: LayoutPosition, rows: int, cols: int)
    requires
        rows > 0,
        cols > 0,
        rows * cols <= usize::MAX,
        grid_shaped(g, rows, cols),
        grid_in_bounds(g, p1, rows, cols),
        grid_in_bounds(g, p2, rows, cols),
        grid_pairings_ok(g, rows, cols),
        p1 != p2,
        p1.layer_index == p2.layer_index,
        grid_cell(g, p1, cols).value is _LS,
        !is_layer_key(grid_cell(g, p2, cols)),
        !grid_cell(g, p2, cols).is_symmetric,
        ({
            let t = grid_cell(g, p1, cols).value->_LS_0;
            let a = p1.layer_index;
            let k2c = grid_cell(g, under(p2, t), cols);
            &&& grid_cell(g, under(p1, t), cols).value == Keycode::_LST(t, a)
            &&& !is_layer_key(k2c) && !k2c.is_symmetric
            &&& forall|b: usize| b < g.len() && b != a ==> grid_cell(g, under(p1, b), cols).value != Keycode::_LS(t)
            &&& forall|b: usize, u: usize| b < g.len() && u != t ==> grid_cell(g, under(p2, b), cols).value != Keycode::_LST(u, a)
        }),
    ensures
        grid_pairings_ok(grid_swapped(g, p1, p2, cols), rows, cols),
{
    let t = grid_cell(g, p1, cols).value->_LS_0;
    let a = p1.layer_index;
    let g1 = grid_swapped(g, p1, p2, cols);
    let k1 = grid_cell(g, p1, cols);
    let k2 = grid_cell(g, p2, cols);
    let q1 = under(p1, t);
    let q2 = under(p2, t);
    assert(grid_ls_pair_ok(g, p1, cols));
    assert(t < g.len());
    assert(grid_in_bounds(g, q1, rows, cols));
    assert(grid_in_bounds(g, q2, rows, cols));
    let k1c = grid_cell(g, q1, cols);
    let k2c = grid_cell(g, q2, cols);
    assert(q1 != q2);
    assert(q1 != p2 && q1 != p1) by {
        if q1 == p1 {
            assert(k1c == k1);
        }
    }
    let a0 = put_cell(g, p1, cols, k2);
    let b0 = put_cell(a0, p2, cols, k1);
    let c0 = put_cell(b0, q1, cols, k2c);
    assert(g1 == put_cell(c0, q2, cols, k1c));
    assert forall|q: LayoutPosition| grid_in_bounds(g, q, rows, cols) implies #[trigger] grid_cell(g1, q, cols) == if q == q2 {
        k1c
    } else if q == q1 {
        k2c
    } else if q == p2 {
        k1
    } else if q == p1 {
        k2
    } else {
        grid_cell(g, q, cols)
    } && grid_in_bounds(g1, q, rows, cols) by {
        lemma_cell_after_put(g, p1, k2, q, rows, cols);
        lemma_cell_after_put(a0, p2, k1, q, rows, cols);
        lemma_cell_after_put(b0, q1, k2c, q, rows, cols);
        lemma_cell_after_put(c0, q2, k1c, q, rows, cols);
    }
    lemma_cell_after_put(g, p1, k2, p1, rows, cols);
    lemma_cell_after_put(a0, p2, k1, p1, rows, cols);
    lemma_cell_after_put(b0, q1, k2c, p1, rows, cols);
    lemma_cell_after_put(c0, q2, k1c, p1, rows, cols);
    assert(g1.len() == g.len());
    assert(cols <= rows * cols) by (nonlinear_arith)
        requires
            cols > 0,
            rows > 0,
    ;
    assert(!k1.is_symmetric);
    assert(grid_in_bounds(g, q1, rows, cols));
    assert(!k1c.is_symmetric);
    assert forall|q: LayoutPosition| #[trigger] grid_in_bounds(g1, q, rows, cols) implies grid_ls_pair_ok(g1, q, cols)
        && grid_sym_pair_ok(g1, q, cols) && (grid_cell(g1, q, cols).is_symmetric ==> !(grid_cell(g1, q, cols).value is _LS)
        && !(grid_cell(g1, q, cols).value is _LST)) by {
        assert(grid_in_bounds(g, q, rows, cols));
        let m = mirror(q, cols);
        assert(m.col_index == cols - 1 - q.col_index);
        assert(grid_in_bounds(g, m, rows, cols));
        assert(mirror(m, cols) == q);
        assert(grid_cell(g1, m, cols) == grid_cell(g1, m, cols));
        assert(grid_sym_pair_ok(g, m, cols));
        match grid_cell(g1, q, cols).value {
            Keycode::_LS(u) => {
                assert(grid_in_bounds(g, under(q, u), rows, cols));
                assert(grid_cell(g1, under(q, u), cols) == grid_cell(g1, under(q, u), cols));
                if q != p2 {
                    assert(grid_ls_pair_ok(g, q, cols));
                    if under(q, u) == q1 {
                        assert(u == t);
                        assert(q == under(p1, q.layer_index));
                        if q.layer_index != a {
                            assert(grid_cell(g, under(p1, q.layer_index), cols).value != Keycode::_LS(t));
                        }
                    }
                }
            },
            Keycode::_LST(u, s) => {
                assert(grid_in_bounds(g, under(q, s), rows, cols));
                assert(grid_cell(g1, under(q, s), cols) == grid_cell(g1, under(q, s), cols));
                if q != q2 {
                    assert(grid_ls_pair_ok(g, q, cols));
                    if under(q, s) == p2 {
                        assert(q == under(p2, q.layer_index));
                        assert(s == a);
                        if u != t {
                            assert(grid_cell(g, under(p2, q.layer_index), cols).value != Keycode::_LST(u, a));
                        }
                    }
                } else {
                    assert(under(q, s) == p2);
                }
            },
            _ => {},
        }
    }
}

/// Cell `idx`, row-major, of layer `a`.
pub open spec fn walk_pos(a: int, idx: int, cols: int) -> LayoutPosition {
    LayoutPosition { layer_index: a as usize, row_index: (idx / cols) as usize, col_index: (idx % cols) as usize }
}

/// The cell paired with the layer key at `p` (itself for other cells).
pub open spec fn grid_ls_partner(g: Seq<Seq<KeycodeKey>>, p: LayoutPosition, cols: int) -> LayoutPosition {
    match grid_cell(g, p, cols).value {
        Keycode::_LS(t) => under(p, t),
        Keycode::_LST(_, s) => under(p, s),
        _ => p,
    }
}

/// The broken layer-switch pairings among the first `idx` cells of layer `a`.
pub open spec fn ls_list_in(g: Seq<Seq<KeycodeKey>>, a: int, idx: nat, cols: int) -> Seq<(LayoutPosition, LayoutPosition)>
    decreases idx,
{
    if idx == 0 {
        Seq::empty()
    } else {
        let prev = ls_list_in(g, a, (idx - 1) as nat, cols);
        let p = walk_pos(a, idx - 1, cols);
        if grid_ls_pair_ok(g, p, cols) {
            prev
        } else {
            prev.push((p, grid_ls_partner(g, p, cols)))
        }
    }
}

/// The broken layer-switch pairings of the first `a` layers, in order.
pub open spec fn ls_list(g: Seq<Seq<KeycodeKey>>, a: nat, cells: nat, cols: int) -> Seq<(LayoutPosition, LayoutPosition)>
    decreases a,
{
    if a == 0 {
        Seq::empty()
    } else {
        ls_list(g, (a - 1) as nat, cells, cols) + ls_list_in(g, a - 1, cells, cols)
    }
}

/// The broken symmetric pairings among the first `idx` cells of layer `a`.
pub open spec fn sym_list_in(g: Seq<Seq<KeycodeKey>>, a: int, idx: nat, cols: int) -> Seq<(LayoutPosition, LayoutPosition)>
    decreases idx,
{
    if idx == 0 {
        Seq::empty()
    } else {
        let prev = sym_list_in(g, a, (idx - 1) as nat, cols);
        let p = walk_pos(a, idx - 1, cols);
        if grid_sym_pair_ok(g, p, cols) {
            prev
        } else {
            prev.push((p, mirror(p, cols)))
        }
    }
}

/// The broken symmetric pairings of the first `a` layers, in order.
pub open spec fn sym_list(g: Seq<Seq<KeycodeKey>>, a: nat, cells: nat, cols: int) -> Seq<(LayoutPosition, LayoutPosition)>
    decreases a,
{
    if a == 0 {
        Seq::empty()
    } else {
        sym_list(g, (a - 1) as nat, cells, cols) + sym_list_in(g, a - 1, cells, cols)
    }
}

/// A cell that the path-map must reach; see [`Layout::is_content`].
pub open spec fn grid_is_content(g: Seq<Seq<KeycodeKey>>, p: LayoutPosition, rows: int, cols: int) -> bool {
    &&& grid_in_bounds(g, p, rows, cols)
    &&& grid_cell(g, p, cols).value != Keycode::_NO
    &&& !(p.layer_index > 0 && grid_cell(g, p, cols).value is _LST)
}

/// Every layer above the home layer that holds a cell to reach has a switch
/// to it in a lower layer; see [`Layout::layers_reachable`].
pub open spec fn grid_layers_reachable(g: Seq<Seq<KeycodeKey>>, rows: int, cols: int) -> bool {
    forall|a: int| 0 < a < g.len() && #[trigger] grid_layer_has_content(g, a, rows, cols) ==> grid_switched_below(g, a, rows, cols)
}

pub open spec fn grid_layer_has_content(g: Seq<Seq<KeycodeKey>>, a: int, rows: int, cols: int) -> bool {
    exists|p: LayoutPosition| p.layer_index == a && #[trigger] grid_is_content(g, p, rows, cols)
}

pub open spec fn grid_switched_below(g: Seq<Seq<KeycodeKey>>, a: int, rows: int, cols: int) -> bool {
    exists|q: LayoutPosition|
        #![trigger grid_cell(g, q, cols)]
        q.layer_index < a && grid_in_bounds(g, q, rows, cols) && grid_cell(g, q, cols).value == Keycode::_LS(a as usize)
}

/// The cells that a layout text's sections give: the parsed layers after the
/// target-marker pass (nothing when a section does not read).
pub open spec fn sections_grid(ss: Seq<Seq<char>>, rows: nat, cols: nat) -> Seq<Seq<KeycodeKey>> {
    let g0 = parse_sections(ss, rows, cols)->Some_0;
    reinforce_all(g0, g0.len(), rows * cols)
}

/// Whether the sections read as a layout whose layers are all reachable and
/// whose pairings all hold.
pub open spec fn sections_ok(ss: Seq<Seq<char>>, rows: nat, cols: nat) -> bool {
    let g = sections_grid(ss, rows, cols);
    &&& parse_sections(ss, rows, cols) is Some
    &&& grid_layers_reachable(g, rows as int, cols as int)
    &&& ls_list(g, g.len(), rows * cols, cols as int).len() == 0
    &&& sym_list(g, g.len(), rows * cols, cols as int).len() == 0
}

/// The error that reading the sections gives: a parse error when a section
/// does not read, else an unreachable layer, else the broken layer-switch
/// pairings, else the broken symmetric pairings.
pub open spec fn sections_error(ss: Seq<Seq<char>>, rows: nat, cols: nat, e: AlcError) -> bool {
    let g = sections_grid(ss, rows, cols);
    let parsed = parse_sections(ss, rows, cols) is Some;
    let reach = grid_layers_reachable(g, rows as int, cols as int);
    let lsl = ls_list(g, g.len(), rows * cols, cols as int);
    match e {
        AlcError::InvalidKeycodeKeyFromString(_, _) => !parsed,
        AlcError::RowMismatchError(_, _) => !parsed,
        AlcError::ColMismatchError(_, _, _) => !parsed,
        AlcError::FromStringHeaderError(_) => !parsed,
        AlcError::LayerAccessError(_) => parsed && !reach,
        AlcError::LayoutLayerSwitchError(v) => parsed && reach && v@ == lsl && lsl.len() > 0,
        AlcError::LayoutSymmetryError(v) => parsed && reach && lsl.len() == 0 && v@ == sym_list(g, g.len(), rows * cols, cols as int) && v@.len() > 0,
        _ => false,
    }
}

/// Once a prefix of the sections does not read, neither do the sections.
pub proof fn lemma_parse_prefix_none(ss: Seq<Seq<char>>, k: int, rows: nat, cols: nat)
    requires
        0 <= k <= ss.len(),
        parse_sections(ss.subrange(0, k), rows, cols) is None,
    ensures
        parse_sections(ss, rows, cols) is None,
    decreases ss.len(),
{
    if k == ss.len() {
        assert(ss.subrange(0, k) =~= ss);
    } else {
        assert(ss.drop_last().subrange(0, k) =~= ss.subrange(0, k));
        lemma_parse_prefix_none(ss.drop_last(), k, rows, cols);
    }
}

/// The last step of the exhaustiveness argument: a typing sequence ending at
/// the cell just processed is recorded.
proof fn lemma_prefix_recorded<const R: usize, const C: usize>(
    l: &Layout<R, C>,
    s: Seq<LayoutPosition>,
    p: LayoutPosition,
    v: Keycode,
    a: int,
    idx: int,
    pm0: KeycodePathMap,
    pm: KeycodePathMap,
)
    requires
        l.valid_path(s),
        s.last() == p,
        l.is_content(p),
        l.cell(p).value == v,
        p.layer_index == a,
        p.row_index * C + p.col_index == idx,
        forall|t: Seq<LayoutPosition>|
            #[trigger] l.valid_path(t) && l.is_content(t.last()) && processed_before(t.last(), a, idx, C as int)
                ==> pm0.paths(l.cell(t.last()).value).contains(t),
        a == 0 ==> pm.paths(v) == pm0.paths(v).push(seq![p]),
        a > 0 ==> pm.paths(v) == pm0.paths(v) + Seq::new(
            pm0.paths(Keycode::_LS(a as usize)).len(),
            |j: int| pm0.paths(Keycode::_LS(a as usize))[j].push(p),
        ),
    ensures
        pm.paths(v).contains(s),
{
    if s.len() == 1 {
        assert(s[0].layer_index == 0);
        assert(s =~= seq![p]);
        assert(pm.paths(v)[pm0.paths(v).len() as int] == s);
    } else {
        let sp = s.drop_last();
        let n = s.len() - 1;
        assert(s[n] == p);
        assert(s[n].layer_index > 0);
        assert(l.cell(s[n - 1]).value == Keycode::_LS(a as usize));
        assert(l.valid_path(sp)) by {
            assert forall|i: int| 0 <= i < sp.len() implies l.in_bounds(#[trigger] sp[i]) by {
                assert(sp[i] == s[i]);
            }
            assert forall|i: int| 1 <= i < sp.len() implies (#[trigger] sp[i]).layer_index > 0 && l.cell(sp[i - 1]).value
                == Keycode::_LS(sp[i].layer_index) && processed_before(
                sp[i - 1],
                sp[i].layer_index as int,
                sp[i].row_index * C + sp[i].col_index,
                C as int,
            ) by {
                assert(sp[i] == s[i]);
                assert(sp[i - 1] == s[i - 1]);
            }
        }
        assert(sp.last() == s[n - 1]);
        assert(l.in_bounds(s[n - 1]));
        assert(l.is_content(sp.last()));
        assert(processed_before(sp.last(), a, idx, C as int));
        let pre = pm0.paths(Keycode::_LS(a as usize));
        assert(pre.contains(sp));
        let j = choose|j: int| 0 <= j < pre.len() && pre[j] == sp;
        assert(sp.push(p) =~= s);
        assert(pm.paths(v)[pm0.paths(v).len() + j] == s);
    }
}

impl<const R: usize, const C: usize> Layout<R, C> {
    /// Every typing sequence ending on a cell to reach that comes before cell
    /// `idx` of layer `a` is recorded in `pm`.
    #[verifier::opaque]
    pub open spec fn exhaustive_upto(&self, pm: KeycodePathMap, a: int, idx: int) -> bool {
        forall|s: Seq<LayoutPosition>|
            #[trigger] self.valid_path(s) && self.is_content(s.last()) && processed_before(s.last(), a, idx, C as int)
                ==> pm.paths(self.cell(s.last()).value).contains(s)
    }

    proof fn lemma_exhaustive_start(&self, pm: KeycodePathMap)
        ensures
            self.exhaustive_upto(pm, 0, 0),
    {
        reveal(Layout::exhaustive_upto);
    }

    proof fn lemma_exhaustive_next_layer(&self, pm: KeycodePathMap, a: int)
        requires
            self.exhaustive_upto(pm, a, (R * C) as int),
        ensures
            self.exhaustive_upto(pm, a + 1, 0),
    {
        reveal(Layout::exhaustive_upto);
        assert forall|s: Seq<LayoutPosition>|
            #[trigger] self.valid_path(s) && self.is_content(s.last()) && processed_before(s.last(), a + 1, 0, C as int)
                implies pm.paths(self.cell(s.last()).value).contains(s) by {
            lemma_cell_index(s.last().row_index as int, s.last().col_index as int, R as int, C as int);
        }
    }

    proof fn lemma_exhaustive_done(&self, pm: KeycodePathMap, n: int)
        requires
            n == self.num_layers(),
            self.exhaustive_upto(pm, n, 0),
        ensures
            forall|s: Seq<LayoutPosition>|
                #[trigger] self.valid_path(s) && self.is_content(s.last()) ==> pm.paths(self.cell(s.last()).value).contains(s),
    {
        reveal(Layout::exhaustive_upto);
    }

    /// After cell `p` (row-major `idx` of layer `a`) is processed, the
    /// sequences ending there are recorded too.
    proof fn lemma_exhaustive_step(&self, pm0: KeycodePathMap, pm: KeycodePathMap, p: LayoutPosition, v: Keycode, a: int, idx: int)
        requires
            self.exhaustive_upto(pm0, a, idx),
            p.layer_index == a,
            p.row_index < R,
            p.col_index < C,
            p.row_index * C + p.col_index == idx,
            self.cell(p).value == v,
            forall|k: Keycode, j: int| 0 <= j < pm0.paths(k).len() ==> pm.paths(k).len() >= pm0.paths(k).len() && #[trigger] pm.paths(k)[j] == pm0.paths(k)[j],
            self.is_content(p) && a == 0 ==> pm.paths(v) == pm0.paths(v).push(seq![p]),
            self.is_content(p) && a > 0 ==> pm.paths(v) == pm0.paths(v) + Seq::new(
                pm0.paths(Keycode::_LS(a as usize)).len(),
                |j: int| pm0.paths(Keycode::_LS(a as usize))[j].push(p),
            ),
        ensures
            self.exhaustive_upto(pm, a, idx + 1),
    {
        reveal(Layout::exhaustive_upto);
        assert forall|s: Seq<LayoutPosition>|
            #[trigger] self.valid_path(s) && self.is_content(s.last()) && processed_before(s.last(), a, idx + 1, C as int)
                implies pm.paths(self.cell(s.last()).value).contains(s) by {
            let w = self.cell(s.last()).value;
            if processed_before(s.last(), a, idx, C as int) {
                let j = choose|j: int| 0 <= j < pm0.paths(w).len() && pm0.paths(w)[j] == s;
                assert(pm.paths(w)[j] == pm0.paths(w)[j]);
            } else {
                let q = s.last();
                lemma_cell_index_unique(q.row_index as int, q.col_index as int, p.row_index as int, p.col_index as int, C as int);
                assert(q == p);
                lemma_prefix_recorded(self, s, p, v, a, idx, pm0, pm);
            }
        }
    }
}

impl<const R: usize, const C: usize> Layout<R, C> {
    /// Records `prefix ++ [p]` under `v` for every prefix, in order.
    #[verifier::rlimit(100)]
    fn extend_paths(
        &self,
        pm: &mut KeycodePathMap,
        prefixes: &Vec<LayoutPositionSequence>,
        p: LayoutPosition,
        v: Keycode,
        a: usize,
        idx: usize,
    )
        requires
            self.wf(),
            old(pm).wf(),
            a > 0,
            self.in_bounds(p),
            p.layer_index == a,
            p.row_index * C + p.col_index == idx,
            self.cell(p).value == v,
            v != Keycode::_NO,
            paths_view(prefixes@).no_duplicates(),
            forall|j: int|
                0 <= j < prefixes@.len() ==> self.valid_path(#[trigger] paths_view(prefixes@)[j]) && self.cell(
                    paths_view(prefixes@)[j].last(),
                ).value == Keycode::_LS(a) && processed_before(paths_view(prefixes@)[j].last(), a as int, idx as int, C as int),
            forall|j: int|
                0 <= j < old(pm).paths(v).len() ==> processed_before(
                    (#[trigger] old(pm).paths(v)[j]).last(),
                    a as int,
                    idx as int,
                    C as int,
                ),
            old(pm).paths(v).no_duplicates(),
        ensures
            final(pm).wf(),
            final(pm).paths(v) == old(pm).paths(v) + Seq::new(
                prefixes@.len(),
                |j: int| paths_view(prefixes@)[j].push(p),
            ),
            forall|k: Keycode| k != v ==> #[trigger] final(pm).paths(k) == old(pm).paths(k),
            forall|k: Keycode| #[trigger] final(pm).has(k) <==> old(pm).has(k) || (k == v && prefixes@.len() > 0),
            final(pm).paths(v).no_duplicates(),
            forall|j: int|
                0 <= j < final(pm).paths(v).len() - old(pm).paths(v).len() ==> self.valid_path(
                    #[trigger] final(pm).paths(v)[old(pm).paths(v).len() + j],
                ) && final(pm).paths(v)[old(pm).paths(v).len() + j].last() == p,
    {
        let ghost pre = paths_view(prefixes@);
        let ghost pm0 = *pm;
        let mut i: usize = 0;
        assert(pm.paths(v) =~= pm0.paths(v) + Seq::new(0, |j: int| pre[j].push(p)));
        while i < prefixes.len()
            invariant
                i <= prefixes@.len(),
                pre == paths_view(prefixes@),
                self.wf(),
                self.in_bounds(p),
                p.layer_index == a,
                p.row_index * C + p.col_index == idx,
                a > 0,
                pm.wf(),
                pre.no_duplicates(),
                forall|j: int| 0 <= j < pre.len() ==> self.valid_path(#[trigger] pre[j]) && self.cell(pre[j].last()).value
                    == Keycode::_LS(a) && processed_before(pre[j].last(), a as int, idx as int, C as int),
                forall|j: int| 0 <= j < pm0.paths(v).len() ==> processed_before((#[trigger] pm0.paths(v)[j]).last(), a as int, idx as int, C as int),
                pm0.paths(v).no_duplicates(),
                pm.paths(v) == pm0.paths(v) + Seq::new(i as nat, |j: int| pre[j].push(p)),
                pm.paths(v).no_duplicates(),
                forall|k: Keycode| k != v ==> #[trigger] pm.paths(k) == pm0.paths(k),
                forall|k: Keycode| #[trigger] pm.has(k) <==> pm0.has(k) || (k == v && i > 0),
            decreases prefixes@.len() - i,
        {
            let mut s = prefixes[i].duplicate();
            s.push(p);
            let ghost sv = s@;
            assert(sv == pre[i as int].push(p));
            assert(self.valid_path(sv)) by {
                let q = pre[i as int];
                assert forall|x: int| 1 <= x < sv.len() implies (#[trigger] sv[x]).layer_index > 0 && self.cell(sv[x - 1]).value
                    == Keycode::_LS(sv[x].layer_index) && processed_before(
                    sv[x - 1],
                    sv[x].layer_index as int,
                    sv[x].row_index * C + sv[x].col_index,
                    C as int,
                ) by {
                    if x < q.len() {
                        assert(sv[x] == q[x]);
                        assert(sv[x - 1] == q[x - 1]);
                    } else {
                        assert(sv[x - 1] == q.last());
                        assert(sv[x] == p);
                    }
                }
                assert forall|x: int| 0 <= x < sv.len() implies self.in_bounds(#[trigger] sv[x]) by {
                    if x < q.len() {
                        assert(sv[x] == q[x]);
                    }
                }
            }
            let ghost old_v = pm.paths(v);
            assert(!old_v.contains(sv)) by {
                if old_v.contains(sv) {
                    let j = choose|j: int| 0 <= j < old_v.len() && old_v[j] == sv;
                    if j < pm0.paths(v).len() {
                        assert(old_v[j] == pm0.paths(v)[j]);
                        assert(processed_before(pm0.paths(v)[j].last(), a as int, idx as int, C as int));
                    } else {
                        let jj = j - pm0.paths(v).len();
                        assert(old_v[j] == pre[jj].push(p));
                        assert(pre[jj] == pre[jj].push(p).drop_last());
                        assert(pre[i as int] == sv.drop_last());
                    }
                }
            }
            pm.add(v, s);
            assert(pm.paths(v) =~= pm0.paths(v) + Seq::new((i + 1) as nat, |j: int| pre[j].push(p)));
            assert(pm.paths(v) == old_v.push(sv));
            i = i + 1;
        }
        assert forall|j: int|
            0 <= j < pm.paths(v).len() - pm0.paths(v).len() implies self.valid_path(
                #[trigger] pm.paths(v)[pm0.paths(v).len() + j],
            ) && pm.paths(v)[pm0.paths(v).len() + j].last() == p by {
            assert(pm.paths(v)[pm0.paths(v).len() + j] == pre[j].push(p));
            let sv = pre[j].push(p);
            let q = pre[j];
            assert forall|x: int| 1 <= x < sv.len() implies (#[trigger] sv[x]).layer_index > 0 && self.cell(sv[x - 1]).value
                == Keycode::_LS(sv[x].layer_index) && processed_before(
                sv[x - 1],
                sv[x].layer_index as int,
                sv[x].row_index * C + sv[x].col_index,
                C as int,
            ) by {
                if x < q.len() {
                    assert(sv[x] == q[x]);
                    assert(sv[x - 1] == q[x - 1]);
                } else {
                    assert(sv[x - 1] == q.last());
                    assert(sv[x] == p);
                }
            }
            assert forall|x: int| 0 <= x < sv.len() implies self.in_bounds(#[trigger] sv[x]) by {
                if x < q.len() {
                    assert(sv[x] == q[x]);
                }
            }
        }
    }
}

/// No keycode of `s` is a layer switch or a target marker.
pub open spec fn no_layer_keys(s: Seq<Keycode>) -> bool {
    forall|i: int| 0 <= i < s.len() ==> !(#[trigger] s[i] is _LS) && !(s[i] is _LST)
}

/// A fill changes a cell only from a blank randomizeable one to a plain,
/// moveable, non-symmetric keycode.
pub open spec fn filled_plainly(k0: KeycodeKey, k1: KeycodeKey) -> bool {
    k1 == k0 || (k0.spec_randomizeable() && k0.value == Keycode::_NO && !(k1.value is _LS) && !(k1.value is _LST)
        && !k1.is_symmetric)
}

proof fn lemma_next_plain(q: Seq<Keycode>, p: nat, present: Seq<Keycode>)
    requires
        no_layer_keys(q),
    ensures
        spec_next_acceptable(q, p, present).0 matches Some(v) ==> !(v is _LS) && !(v is _LST),
    decreases q.len() - p,
{
    if p < q.len() && present.contains(q[p as int]) {
        lemma_next_plain(q, p + 1, present);
    }
}

proof fn lemma_fill_plain(start: FillState, n: nat, all: Seq<Keycode>, present: Seq<Keycode>)
    requires
        n <= start.cells.len(),
        no_layer_keys(start.queue),
        no_layer_keys(all),
    ensures
        fill_upto(start, n, all, present).cells.len() == start.cells.len(),
        no_layer_keys(fill_upto(start, n, all, present).queue),
        forall|i: int| 0 <= i < start.cells.len() ==> filled_plainly(start.cells[i], #[trigger] fill_upto(start, n, all, present).cells[i]),
    decreases n,
{
    if n > 0 {
        lemma_fill_plain(start, (n - 1) as nat, all, present);
        let s = fill_upto(start, (n - 1) as nat, all, present);
        let q = if s.pos >= s.queue.len() { all } else { s.queue };
        let p = if s.pos >= s.queue.len() { 0nat } else { s.pos };
        lemma_next_plain(q, p, present);
        let f = fill_upto(start, n, all, present);
        assert forall|i: int| 0 <= i < start.cells.len() implies filled_plainly(start.cells[i], #[trigger] f.cells[i]) by {
            assert(filled_plainly(start.cells[i], s.cells[i]));
            if i == n - 1 && s.cells[i] != f.cells[i] {
                assert(s.cells[i] == start.cells[i]);
            }
        }
    }
}

proof fn lemma_fill_layers_plain(g: Seq<Seq<KeycodeKey>>, l: nat, all: Seq<Keycode>, draw: Seq<Keycode>, present: Seq<Keycode>, cells: nat)
    requires
        l <= g.len(),
        forall|j: int| 0 <= j < g.len() ==> (#[trigger] g[j]).len() == cells,
        no_layer_keys(all),
        no_layer_keys(draw),
    ensures
        fill_layers(g, l, all, draw, present, cells).0.len() == g.len(),
        no_layer_keys(fill_layers(g, l, all, draw, present, cells).1),
        forall|j: int| 0 <= j < g.len() ==> (#[trigger] fill_layers(g, l, all, draw, present, cells).0[j]).len() == cells,
        forall|j: int, i: int|
            0 <= j < g.len() && 0 <= i < cells ==> filled_plainly(g[j][i], #[trigger] fill_layers(g, l, all, draw, present, cells).0[j][i]),
    decreases l,
{
    if l > 0 {
        lemma_fill_layers_plain(g, (l - 1) as nat, all, draw, present, cells);
        let prev = fill_layers(g, (l - 1) as nat, all, draw, present, cells);
        if !prev.2 {
            let st = FillState { cells: prev.0[l - 1], queue: prev.1, pos: 0, refilled: false };
            lemma_fill_plain(st, cells, all, present);
            let f = fill_upto(st, cells, all, present);
            lemma_fill_shape(st, cells, all, present);
            assert forall|k: int| 0 <= k < f.queue.subrange(f.pos as int, f.queue.len() as int).len() implies !(#[trigger] f.queue.subrange(f.pos as int, f.queue.len() as int)[k] is _LS)
                && !(f.queue.subrange(f.pos as int, f.queue.len() as int)[k] is _LST) by {
                assert(f.queue.subrange(f.pos as int, f.queue.len() as int)[k] == f.queue[f.pos + k]);
            }
            let res = fill_layers(g, l, all, draw, present, cells);
            assert forall|j: int| 0 <= j < g.len() implies (#[trigger] res.0[j]).len() == cells by {}
            assert forall|j: int, i: int|
                0 <= j < g.len() && 0 <= i < cells implies filled_plainly(g[j][i], #[trigger] res.0[j][i]) by {
                assert(filled_plainly(g[j][i], prev.0[j][i]));
                if j == l - 1 {
                    assert(filled_plainly(prev.0[j][i], f.cells[i]));
                }
            }
        }
    }
}

/// Filling cells plainly keeps every pairing.
pub proof fn lemma_fill_keeps_pairings(g: Seq<Seq<KeycodeKey>>, h: Seq<Seq<KeycodeKey>>, rows: int, cols: int)
    requires
        rows > 0,
        cols > 0,
        rows * cols <= usize::MAX,
        g.len() == h.len(),
        grid_shaped(g, rows, cols),
        grid_shaped(h, rows, cols),
        grid_pairings_ok(g, rows, cols),
        forall|q: LayoutPosition| #[trigger] grid_in_bounds(g, q, rows, cols) ==> filled_plainly(grid_cell(g, q, cols), grid_cell(h, q, cols)),
    ensures
        grid_pairings_ok(h, rows, cols),
{
    assert(cols <= rows * cols) by (nonlinear_arith)
        requires
            cols > 0,
            rows > 0,
    ;
    assert forall|q: LayoutPosition| #[trigger] grid_in_bounds(h, q, rows, cols) implies grid_ls_pair_ok(h, q, cols)
        && grid_sym_pair_ok(h, q, cols) && (grid_cell(h, q, cols).is_symmetric ==> !(grid_cell(h, q, cols).value is _LS)
        && !(grid_cell(h, q, cols).value is _LST)) by {
        assert(grid_in_bounds(g, q, rows, cols));
        let m = mirror(q, cols);
        assert(m.col_index == cols - 1 - q.col_index);
        assert(grid_in_bounds(g, m, rows, cols));
        assert(filled_plainly(grid_cell(g, m, cols), grid_cell(h, m, cols)));
        match grid_cell(h, q, cols).value {
            Keycode::_LS(u) => {
                assert(grid_ls_pair_ok(g, q, cols));
                assert(grid_in_bounds(g, under(q, u), rows, cols));
                assert(filled_plainly(grid_cell(g, under(q, u), cols), grid_cell(h, under(q, u), cols)));
            },
            Keycode::_LST(u, s) => {
                assert(grid_ls_pair_ok(g, q, cols));
                assert(grid_in_bounds(g, under(q, s), rows, cols));
                assert(filled_plainly(grid_cell(g, under(q, s), cols), grid_cell(h, under(q, s), cols)));
            },
            _ => {},
        }
    }
}

/// A permutation of keycodes without layer keys has none either.
pub proof fn lemma_permuted_plain(s: Seq<Keycode>, v: Seq<Keycode>)
    requires
        s.to_multiset() == v.to_multiset(),
    ensures
        no_layer_keys(v) ==> no_layer_keys(s),
{
    s.to_multiset_ensures();
    v.to_multiset_ensures();
    if no_layer_keys(v) {
        assert forall|i: int| 0 <= i < s.len() implies !(#[trigger] s[i] is _LS) && !(s[i] is _LST) by {
            assert(s.contains(s[i]));
            assert(s.to_multiset().count(s[i]) > 0);
            assert(v.to_multiset().count(s[i]) > 0);
            assert(v.contains(s[i]));
            let j = choose|j: int| 0 <= j < v.len() && v[j] == s[i];
        }
    }
}

impl<const R: usize, const C: usize> Layout<R, C> {
    /// Two layouts with the same cells whose path-maps describe them record
    /// the same paths for every keycode, each once, so as many of them:
    /// swapping twice, or printing and reading back, gives back the
    /// path-map as well as the cells, up to the order of the paths.
    pub proof fn lemma_same_cells_same_paths(&self, other: &Self)
        requires
            self.grid() == other.grid(),
            self.pathmap_ok(),
            other.pathmap_ok(),
        ensures
            forall|k: Keycode| (#[trigger] self.paths(k)).to_set() == other.paths(k).to_set() && self.paths(k).len() == other.paths(k).len(),
    {
        assert forall|k: Keycode| (#[trigger] self.paths(k)).to_set() == other.paths(k).to_set() && self.paths(k).len() == other.paths(k).len() by {
            self.lemma_paths_included(other, k);
            other.lemma_paths_included(self, k);
            assert forall|s: Seq<LayoutPosition>| self.paths(k).to_set().contains(s) == other.paths(k).to_set().contains(s) by {
                if self.paths(k).contains(s) {
                    assert(other.paths(k).contains(s));
                }
                if other.paths(k).contains(s) {
                    assert(self.paths(k).contains(s));
                }
            }
            assert(self.paths(k).to_set() =~= other.paths(k).to_set());
            assert(self.paths(k).no_duplicates());
            assert(other.paths(k).no_duplicates());
            self.paths(k).unique_seq_to_set();
            other.paths(k).unique_seq_to_set();
        }
    }

    proof fn lemma_paths_included(&self, other: &Self, k: Keycode)
        requires
            self.grid() == other.grid(),
            self.pathmap_ok(),
            other.pathmap_ok(),
        ensures
            forall|s: Seq<LayoutPosition>| self.paths(k).contains(s) ==> other.paths(k).contains(s),
    {
        assert forall|s: Seq<LayoutPosition>| self.paths(k).contains(s) implies other.paths(k).contains(s) by {
            let j = choose|j: int| 0 <= j < self.paths(k).len() && self.paths(k)[j] == s;
            assert(self.valid_path(self.paths(k)[j]));
            assert forall|i: int| 0 <= i < s.len() implies other.in_bounds(#[trigger] s[i]) by {
                assert(self.in_bounds(s[i]));
            }
            assert forall|i: int| 1 <= i < s.len() implies (#[trigger] s[i]).layer_index > 0 && other.cell(s[i - 1]).value
                == Keycode::_LS(s[i].layer_index) && processed_before(
                s[i - 1],
                s[i].layer_index as int,
                s[i].row_index * C + s[i].col_index,
                C as int,
            ) by {
                assert(self.cell(s[i - 1]) == other.cell(s[i - 1]));
            }
            assert(other.valid_path(s));
            assert(self.is_content(s.last()));
            assert(other.is_content(s.last()));
            assert(other.cell(s.last()).value == k);
        }
    }
}

} // verus!
