use vstd::prelude::*;

use crate::error::AlcError;
use crate::grid::{phalanx_cells, phalanx_columns, phalanx_grid_filled, phalanx_grid_get, phalanx_grid_set, key_cells, key_columns, key_grid_clone, key_grid_filled, key_grid_get, key_grid_set};
use crate::key::{is_digit, spec_parse_key, spec_parse_phalanx, Finger, Hand, KeycodeKey, PhalanxKey};
use crate::keycode::Keycode;
use crate::text::{blank, chars_of, is_blank, is_space, space, spec_split, spec_words, split_chars, string_from_chars, words};
use array2d::Array2D;

verus! {

/// A rows-by-columns grid of cells, stored row by row.
#[verifier::reject_recursive_types(K)]
#[derive(Debug, PartialEq)]
pub struct Layer<const R: usize, const C: usize, K> {
    layer: Array2D<K>,
}

pub proof fn lemma_cell_index(r: int, c: int, rows: int, cols: int)
    requires
        0 <= r < rows,
        0 <= c < cols,
    ensures
        0 <= r * cols + c < rows * cols,
{
    assert(r * cols + c < rows * cols) by (nonlinear_arith)
        requires
            0 <= r < rows,
            0 <= c < cols,
    ;
    assert(0 <= r * cols) by (nonlinear_arith)
        requires
            0 <= r,
            0 <= c < cols,
    ;
}

pub proof fn lemma_cell_index_unique(r1: int, c1: int, r2: int, c2: int, cols: int)
    requires
        0 <= r1,
        0 <= r2,
        0 <= c1 < cols,
        0 <= c2 < cols,
        r1 * cols + c1 == r2 * cols + c2,
    ensures
        r1 == r2,
        c1 == c2,
{
    if r1 < r2 {
        assert(r1 * cols + c1 < r2 * cols + c2) by (nonlinear_arith)
            requires
                r1 < r2,
                0 <= c1 < cols,
                0 <= c2,
        ;
    } else if r2 < r1 {
        assert(r2 * cols + c2 < r1 * cols + c1) by (nonlinear_arith)
            requires
                r2 < r1,
                0 <= c2 < cols,
                0 <= c1,
        ;
    }
}

/// The lines of `s` that are not blank.
pub open spec fn spec_nonblank(lines: Seq<Seq<char>>) -> Seq<Seq<char>>
    decreases lines.len(),
{
    if lines.len() == 0 {
        Seq::empty()
    } else if is_blank(lines.last()) {
        spec_nonblank(lines.drop_last())
    } else {
        spec_nonblank(lines.drop_last()).push(lines.last())
    }
}

pub open spec fn spec_rows(s: Seq<char>) -> Seq<Seq<char>> {
    spec_nonblank(spec_split(s, '\n'))
}

/// A column-index header: at least one digit, and only digits besides
/// whitespace.
pub open spec fn is_header(line: Seq<char>) -> bool {
    (exists|i: int| 0 <= i < line.len() && is_digit(#[trigger] line[i])) && forall|i: int|
        0 <= i < line.len() ==> is_space(#[trigger] line[i]) || is_digit(line[i])
}

/// A first line that starts like a column-index header but is not one.
pub open spec fn is_bad_header(line: Seq<char>) -> bool {
    line.len() > 0 && is_digit(line[0]) && !is_header(line)
}

/// The data rows of a layer string with `r` rows: its non-blank lines, less
/// the first one when there is one line too many (it is taken for a
/// column-index header, and must be one if it starts with a digit).
pub open spec fn spec_layer_rows(s: Seq<char>, r: nat) -> Option<Seq<Seq<char>>> {
    let rows = spec_rows(s);
    if rows.len() == r + 1 {
        if is_bad_header(rows[0]) {
            None
        } else {
            Some(rows.drop_first())
        }
    } else if rows.len() == r {
        Some(rows)
    } else {
        None
    }
}

/// The part of a row after a `<index>|` prefix, or the whole row.
pub open spec fn spec_row_body(line: Seq<char>) -> Seq<char> {
    let pieces = spec_split(line, '|');
    if pieces.len() > 1 {
        pieces[1]
    } else {
        line
    }
}

pub open spec fn spec_row_tokens(line: Seq<char>) -> Seq<Seq<char>> {
    spec_words(spec_row_body(line))
}

/// The tokens of a layer string, row by row, when it has `r` rows of `c`
/// tokens each.
pub open spec fn spec_layer_tokens(s: Seq<char>, r: nat, c: nat) -> Option<Seq<Seq<Seq<char>>>> {
    match spec_layer_rows(s, r) {
        None => None,
        Some(rows) => if forall|i: int| 0 <= i < rows.len() ==> #[trigger] spec_row_tokens(rows[i]).len() == c {
            Some(Seq::new(rows.len(), |i: int| spec_row_tokens(rows[i])))
        } else {
            None
        },
    }
}

fn nonblank_lines(s: &Vec<char>) -> (r: Vec<Vec<char>>)
    ensures
        r@.len() == spec_rows(s@).len(),
        forall|i: int| 0 <= i < r@.len() ==> #[trigger] r@[i]@ == spec_rows(s@)[i],
{
    let lines = split_chars(s, '\n');
    let ghost ls = spec_split(s@, '\n');
    let mut r: Vec<Vec<char>> = Vec::new();
    let mut i: usize = 0;
    while i < lines.len()
        invariant
            i <= lines.len(),
            lines@.len() == ls.len(),
            ls == spec_split(s@, '\n'),
            forall|j: int| 0 <= j < lines@.len() ==> #[trigger] lines@[j]@ == ls[j],
            r@.len() == spec_nonblank(ls.subrange(0, i as int)).len(),
            forall|j: int| 0 <= j < r@.len() ==> #[trigger] r@[j]@ == spec_nonblank(ls.subrange(0, i as int))[j],
        decreases lines.len() - i,
    {
        assert(ls.subrange(0, i + 1).drop_last() =~= ls.subrange(0, i as int));
        if !blank(&lines[i]) {
            let line = crate::text::copy_chars(&lines[i]);
            r.push(line);
        }
        i = i + 1;
    }
    assert(ls.subrange(0, lines.len() as int) =~= ls);
    r
}

fn header(line: &Vec<char>) -> (r: bool)
    ensures
        r == is_header(line@),
{
    let mut seen = false;
    let mut i: usize = 0;
    while i < line.len()
        invariant
            i <= line.len(),
            forall|j: int| 0 <= j < i ==> is_space(#[trigger] line@[j]) || is_digit(line@[j]),
            seen <==> exists|j: int| 0 <= j < i && is_digit(#[trigger] line@[j]),
        decreases line.len() - i,
    {
        let c = line[i];
        if '0' <= c && c <= '9' {
            seen = true;
        } else if !space(c) {
            return false;
        }
        i = i + 1;
    }
    seen
}

/// Splits a layer string into its data rows: the non-blank lines, less the
/// first one when there is exactly one line more than `r`; that line is a
/// column-index header and must hold only digits if it starts with one.
pub fn rows_from_string(input_s: &Vec<char>, r: usize) -> (res: Result<Vec<Vec<char>>, AlcError>)
    ensures
        res.is_ok() <==> spec_layer_rows(input_s@, r as nat).is_some(),
        res.is_ok() ==> res->Ok_0@.len() == spec_layer_rows(input_s@, r as nat)->Some_0.len()
            && forall|i: int| 0 <= i < res->Ok_0@.len() ==> #[trigger] res->Ok_0@[i]@ == spec_layer_rows(
                input_s@,
                r as nat,
            )->Some_0[i],
        res.is_err() ==> (res->Err_0 is RowMismatchError || res->Err_0 is FromStringHeaderError),
{
    let mut rows = nonblank_lines(input_s);
    if r < usize::MAX && rows.len() == r + 1 {
        let first = &rows[0];
        let bad = first.len() > 0 && '0' <= first[0] && first[0] <= '9' && !header(first);
        if !bad {
            let ghost before = rows@;
            rows.remove(0);
            assert forall|i: int| 0 <= i < rows@.len() implies #[trigger] rows@[i]@ == spec_rows(input_s@).drop_first()[i] by {
                assert(rows@[i] == before[i + 1]);
            }
            return Ok(rows);
        } else {
            return Err(AlcError::FromStringHeaderError(string_from_chars(&rows[0])));
        }
    }
    if rows.len() != r {
        Err(AlcError::RowMismatchError(r, rows.len()))
    } else {
        Ok(rows)
    }
}

/// Splits a row into its cell tokens, after a `<index>|` prefix if there is
/// one; there must be exactly `c` of them.
pub fn cols_from_string(input_s: &Vec<char>, c: usize) -> (res: Result<Vec<Vec<char>>, AlcError>)
    ensures
        res.is_ok() <==> spec_row_tokens(input_s@).len() == c,
        res.is_ok() ==> res->Ok_0@.len() == c && forall|i: int|
            0 <= i < c ==> #[trigger] res->Ok_0@[i]@ == spec_row_tokens(input_s@)[i],
        res.is_err() ==> res->Err_0 is ColMismatchError,
{
    let pieces = split_chars(input_s, '|');
    let body = if pieces.len() > 1 {
        &pieces[1]
    } else {
        input_s
    };
    assert(body@ == spec_row_body(input_s@));
    let cols = words(body);
    if cols.len() != c {
        Err(AlcError::ColMismatchError(c, cols.len(), string_from_chars(input_s)))
    } else {
        Ok(cols)
    }
}

/// The cells that a layer string describes, row-major, where every token
/// reads as a keycode cell.
pub open spec fn spec_parse_key_layer(s: Seq<char>, r: nat, c: nat) -> Option<Seq<KeycodeKey>> {
    match spec_layer_tokens(s, r, c) {
        None => None,
        Some(g) => if forall|i: int, j: int|
            0 <= i < r && 0 <= j < c ==> (#[trigger] spec_parse_key(g[i][j])).is_some() {
            Some(Seq::new(r * c, |k: int| spec_parse_key(g[k / c as int][k % c as int])->Some_0))
        } else {
            None
        },
    }
}

impl<const R: usize, const C: usize> Layer<R, C, KeycodeKey> {
    /// The cells, row-major.
    pub closed spec fn keys(&self) -> Seq<KeycodeKey> {
        key_cells(self.layer)
    }

    /// The number of columns of the storage.
    pub closed spec fn columns(&self) -> nat {
        key_columns(self.layer)
    }

    pub open spec fn wf(&self) -> bool {
        &&& R * C <= usize::MAX
        &&& self.keys().len() == R * C
        &&& self.columns() == C
    }

    pub open spec fn at(&self, r: int, c: int) -> KeycodeKey {
        self.keys()[r * C + c]
    }

    /// A layer of blank, moveable, non-symmetric cells.
    pub fn init_blank() -> (l: Self)
        requires
            R * C <= usize::MAX,
        ensures
            l.wf(),
            l.keys() == Seq::new(
                (R * C) as nat,
                |i: int| KeycodeKey { value: Keycode::_NO, is_moveable: true, is_symmetric: false },
            ),
    {
        let default_key = KeycodeKey::default_from_keycode(Keycode::_NO);
        Layer { layer: key_grid_filled(default_key, R, C) }
    }

    pub fn get(&self, r: usize, c: usize) -> (k: KeycodeKey)
        requires
            self.wf(),
            r < R,
            c < C,
        ensures
            k == self.at(r as int, c as int),
    {
        proof {
            lemma_cell_index(r as int, c as int, R as int, C as int);
        }
        key_grid_get(&self.layer, r, c)
    }

    pub fn set(&mut self, r: usize, c: usize, k: KeycodeKey)
        requires
            old(self).wf(),
            r < R,
            c < C,
        ensures
            final(self).wf(),
            final(self).keys() == old(self).keys().update(r * C + c, k),
    {
        proof {
            lemma_cell_index(r as int, c as int, R as int, C as int);
        }
        key_grid_set(&mut self.layer, r, c, k)
    }

    /// The cell at row-major `index`, if there is one.
    pub fn get_row_major(&self, index: usize) -> (k: Option<KeycodeKey>)
        requires
            self.wf(),
        ensures
            index < R * C ==> k == Some(self.keys()[index as int]),
            index >= R * C ==> k.is_none(),
    {
        if index >= R * C {
            return None;
        }
        let r = index / C;
        let c = index % C;
        proof {
            vstd::arithmetic::div_mod::lemma_fundamental_div_mod(index as int, C as int);
            assert(r < R) by (nonlinear_arith)
                requires
                    index < R * C,
                    r == index / C,
                    C > 0,
            ;
            assert(index == r * C + c) by (nonlinear_arith)
                requires
                    index == C * (index / C) + index % C,
                    r == index / C,
                    c == index % C,
            ;
        }
        Some(self.get(r, c))
    }

    /// Replaces the cell at row-major `index`.
    pub fn set_row_major(&mut self, index: usize, k: KeycodeKey)
        requires
            old(self).wf(),
            index < R * C,
        ensures
            final(self).wf(),
            final(self).keys() == old(self).keys().update(index as int, k),
    {
        let r = index / C;
        let c = index % C;
        proof {
            vstd::arithmetic::div_mod::lemma_fundamental_div_mod(index as int, C as int);
            assert(r < R) by (nonlinear_arith)
                requires
                    index < R * C,
                    r == index / C,
                    C > 0,
            ;
            assert(index == r * C + c) by (nonlinear_arith)
                requires
                    index == C * (index / C) + index % C,
                    r == index / C,
                    c == index % C,
            ;
        }
        self.set(r, c, k)
    }

    pub fn num_rows(&self) -> (r: usize)
        ensures
            r == R,
    {
        R
    }

    pub fn num_columns(&self) -> (r: usize)
        ensures
            r == C,
    {
        C
    }

    /// The mirror of `l` across the vertical centre line.
    pub fn symmetric_position(&self, l: crate::position::LayoutPosition) -> (r: crate::position::LayoutPosition)
        requires
            l.col_index < C,
        ensures
            r == (crate::position::LayoutPosition { col_index: (C - 1 - l.col_index) as usize, ..l }),
    {
        crate::position::LayoutPosition { layer_index: l.layer_index, row_index: l.row_index, col_index: (C - 1) - l.col_index }
    }

    /// A copy with the same cells.
    pub fn duplicate(&self) -> (l: Self)
        ensures
            l.keys() == self.keys(),
            self.wf() ==> l.wf(),
    {
        Layer { layer: key_grid_clone(&self.layer) }
    }

    /// Reads a keycode layer; see [`spec_parse_key_layer`].
    pub fn try_from_chars(s: &Vec<char>) -> (res: Result<Self, AlcError>)
        requires
            R * C <= usize::MAX,
        ensures
            res.is_ok() <==> spec_parse_key_layer(s@, R as nat, C as nat).is_some(),
            res.is_ok() ==> res->Ok_0.wf() && res->Ok_0.keys() == spec_parse_key_layer(
                s@,
                R as nat,
                C as nat,
            )->Some_0,
            res.is_err() ==> (res->Err_0 is RowMismatchError || res->Err_0 is FromStringHeaderError
                || res->Err_0 is ColMismatchError || res->Err_0 is InvalidKeycodeKeyFromString),
    {
        let mut layer = Self::init_blank();
        let rows = rows_from_string(s, R)?;
        let ghost rs = spec_layer_rows(s@, R as nat)->Some_0;
        let mut toks: Vec<Vec<Vec<char>>> = Vec::new();
        let mut i: usize = 0;
        while i < R
            invariant
                i <= R,
                rows@.len() == R,
                rs.len() == R,
                forall|k: int| 0 <= k < R ==> #[trigger] rows@[k]@ == rs[k],
                rs == spec_layer_rows(s@, R as nat)->Some_0,
                spec_layer_rows(s@, R as nat).is_some(),
                toks@.len() == i,
                forall|k: int| 0 <= k < i ==> spec_row_tokens(#[trigger] rs[k]).len() == C,
                forall|k: int, j: int|
                    0 <= k < i && 0 <= j < C ==> (#[trigger] toks@[k]@[j])@ == spec_row_tokens(rs[k])[j],
                forall|k: int| 0 <= k < i ==> (#[trigger] toks@[k])@.len() == C,
            decreases R - i,
        {
            let cols = match cols_from_string(&rows[i], C) {
                Ok(v) => v,
                Err(e) => {
                    assert(spec_row_tokens(rs[i as int]).len() != C);
                    assert(spec_layer_tokens(s@, R as nat, C as nat).is_none());
                    return Err(e);
                },
            };
            toks.push(cols);
            i = i + 1;
        }
        let ghost g = Seq::new(rs.len(), |k: int| spec_row_tokens(rs[k]));
        assert(spec_layer_tokens(s@, R as nat, C as nat) == Some(g));
        let mut i: usize = 0;
        while i < R
            invariant
                i <= R,
                toks@.len() == R,
                g.len() == R,
                spec_layer_tokens(s@, R as nat, C as nat) == Some(g),
                forall|k: int| 0 <= k < R ==> (#[trigger] toks@[k])@.len() == C,
                forall|k: int| 0 <= k < R ==> (#[trigger] g[k]).len() == C,
                forall|k: int, j: int| 0 <= k < R && 0 <= j < C ==> (#[trigger] toks@[k]@[j])@ == g[k][j],
                layer.wf(),
                forall|k: int, j: int|
                    0 <= k < i && 0 <= j < C ==> (#[trigger] spec_parse_key(g[k][j])).is_some()
                        && layer.keys()[k * C + j] == spec_parse_key(g[k][j])->Some_0,
            decreases R - i,
        {
            let mut j: usize = 0;
            while j < C
                invariant
                    i < R,
                    j <= C,
                    toks@.len() == R,
                    g.len() == R,
                    spec_layer_tokens(s@, R as nat, C as nat) == Some(g),
                    forall|k: int| 0 <= k < R ==> (#[trigger] toks@[k])@.len() == C,
                    forall|k: int| 0 <= k < R ==> (#[trigger] g[k]).len() == C,
                    forall|k: int, j: int| 0 <= k < R && 0 <= j < C ==> (#[trigger] toks@[k]@[j])@ == g[k][j],
                    layer.wf(),
                    forall|k: int, jj: int|
                        0 <= k < i && 0 <= jj < C ==> (#[trigger] spec_parse_key(g[k][jj])).is_some()
                            && layer.keys()[k * C + jj] == spec_parse_key(g[k][jj])->Some_0,
                    forall|jj: int|
                        0 <= jj < j ==> (#[trigger] spec_parse_key(g[i as int][jj])).is_some()
                            && layer.keys()[i * C + jj] == spec_parse_key(g[i as int][jj])->Some_0,
                decreases C - j,
            {
                let key = match KeycodeKey::from_chars(&toks[i][j]) {
                    Ok(k) => k,
                    Err(e) => {
                        assert(spec_parse_key(g[i as int][j as int]).is_none());
                        return Err(e);
                    },
                };
                assert(toks@[i as int]@[j as int]@ == g[i as int][j as int]);
                assert(key == spec_parse_key(g[i as int][j as int])->Some_0);
                proof {
                    lemma_cell_index(i as int, j as int, R as int, C as int);
                }
                let ghost before = layer.keys();
                layer.set(i, j, key);
                assert forall|k: int, jj: int|
                    0 <= k < i && 0 <= jj < C implies (#[trigger] spec_parse_key(g[k][jj])).is_some()
                        && layer.keys()[k * C + jj] == spec_parse_key(g[k][jj])->Some_0 by {
                    lemma_cell_index(k, jj, R as int, C as int);
                    if k * C + jj == i * C + j {
                        lemma_cell_index_unique(k, jj, i as int, j as int, C as int);
                    }
                    assert(before[k * C + jj] == spec_parse_key(g[k][jj])->Some_0);
                }
                assert forall|jj: int|
                    0 <= jj <= j implies (#[trigger] spec_parse_key(g[i as int][jj])).is_some()
                        && layer.keys()[i * C + jj] == spec_parse_key(g[i as int][jj])->Some_0 by {
                    lemma_cell_index(i as int, jj, R as int, C as int);
                    if jj < j {
                        assert(before[i * C + jj] == spec_parse_key(g[i as int][jj])->Some_0);
                    }
                }
                j = j + 1;
            }
            i = i + 1;
        }
        assert forall|k: int, j: int|
            0 <= k < R && 0 <= j < C implies (#[trigger] spec_parse_key(g[k][j])).is_some() by {}
        let ghost expect = spec_parse_key_layer(s@, R as nat, C as nat)->Some_0;
        assert(layer.keys() =~= expect) by {
            assert forall|x: int| 0 <= x < R * C implies layer.keys()[x] == expect[x] by {
                let k = x / C as int;
                let j = x % C as int;
                vstd::arithmetic::div_mod::lemma_fundamental_div_mod(x, C as int);
                assert(0 <= k < R) by (nonlinear_arith)
                    requires
                        0 <= x < R * C,
                        k == x / C as int,
                        C > 0,
                ;
                assert(x == k * C + j);
            }
        }
        Ok(layer)
    }

    /// Reads a keycode layer from a string; see [`spec_parse_key_layer`].
    pub fn try_from_str(s: &str) -> (res: Result<Self, AlcError>)
        requires
            R * C <= usize::MAX,
        ensures
            res.is_ok() <==> spec_parse_key_layer(s@, R as nat, C as nat).is_some(),
            res.is_ok() ==> res->Ok_0.wf() && res->Ok_0.keys() == spec_parse_key_layer(
                s@,
                R as nat,
                C as nat,
            )->Some_0,
    {
        let v = chars_of(s);
        Self::try_from_chars(&v)
    }
}

/// The cells that a phalanx layer string describes, row-major, where every
/// token reads as a hand and finger.
pub open spec fn spec_parse_phalanx_layer(s: Seq<char>, r: nat, c: nat) -> Option<Seq<PhalanxKey>> {
    match spec_layer_tokens(s, r, c) {
        None => None,
        Some(g) => if forall|i: int, j: int|
            0 <= i < r && 0 <= j < c ==> (#[trigger] spec_parse_phalanx(g[i][j])).is_some() {
            Some(Seq::new(r * c, |k: int| spec_parse_phalanx(g[k / c as int][k % c as int])->Some_0))
        } else {
            None
        },
    }
}

impl<const R: usize, const C: usize> Layer<R, C, PhalanxKey> {
    /// The cells, row-major.
    pub closed spec fn phalanxes(&self) -> Seq<PhalanxKey> {
        phalanx_cells(self.layer)
    }

    /// The number of columns of the storage.
    pub closed spec fn columns(&self) -> nat {
        phalanx_columns(self.layer)
    }

    pub open spec fn wf(&self) -> bool {
        &&& R * C <= usize::MAX
        &&& self.phalanxes().len() == R * C
        &&& self.columns() == C
    }

    /// A layer whose every cell is the default left index finger.
    pub fn init_default() -> (l: Self)
        requires
            R * C <= usize::MAX,
        ensures
            l.wf(),
            l.phalanxes() == Seq::new((R * C) as nat, |i: int| PhalanxKey { hand: Hand::Left, finger: Finger::Index }),
    {
        Layer { layer: phalanx_grid_filled(PhalanxKey::default(), R, C) }
    }

    pub fn get(&self, r: usize, c: usize) -> (k: PhalanxKey)
        requires
            self.wf(),
            r < R,
            c < C,
        ensures
            k == self.phalanxes()[r * C + c],
    {
        proof {
            lemma_cell_index(r as int, c as int, R as int, C as int);
        }
        phalanx_grid_get(&self.layer, r, c)
    }

    pub fn set(&mut self, r: usize, c: usize, k: PhalanxKey)
        requires
            old(self).wf(),
            r < R,
            c < C,
        ensures
            final(self).wf(),
            final(self).phalanxes() == old(self).phalanxes().update(r * C + c, k),
    {
        proof {
            lemma_cell_index(r as int, c as int, R as int, C as int);
        }
        phalanx_grid_set(&mut self.layer, r, c, k)
    }

    /// Reads a phalanx layer; see [`spec_parse_phalanx_layer`].
    pub fn try_from_chars(s: &Vec<char>) -> (res: Result<Self, AlcError>)
        requires
            R * C <= usize::MAX,
        ensures
            res.is_ok() <==> spec_parse_phalanx_layer(s@, R as nat, C as nat).is_some(),
            res.is_ok() ==> res->Ok_0.wf() && res->Ok_0.phalanxes() == spec_parse_phalanx_layer(
                s@,
                R as nat,
                C as nat,
            )->Some_0,
            res.is_err() ==> (res->Err_0 is RowMismatchError || res->Err_0 is FromStringHeaderError
                || res->Err_0 is ColMismatchError || res->Err_0 is InvalidPhalanxError),
    {
        let mut layer = Self::init_default();
        let rows = rows_from_string(s, R)?;
        let ghost rs = spec_layer_rows(s@, R as nat)->Some_0;
        let mut toks: Vec<Vec<Vec<char>>> = Vec::new();
        let mut i: usize = 0;
        while i < R
            invariant
                i <= R,
                rows@.len() == R,
                rs.len() == R,
                forall|k: int| 0 <= k < R ==> #[trigger] rows@[k]@ == rs[k],
                rs == spec_layer_rows(s@, R as nat)->Some_0,
                spec_layer_rows(s@, R as nat).is_some(),
                toks@.len() == i,
                forall|k: int| 0 <= k < i ==> spec_row_tokens(#[trigger] rs[k]).len() == C,
                forall|k: int, j: int|
                    0 <= k < i && 0 <= j < C ==> (#[trigger] toks@[k]@[j])@ == spec_row_tokens(rs[k])[j],
                forall|k: int| 0 <= k < i ==> (#[trigger] toks@[k])@.len() == C,
            decreases R - i,
        {
            let cols = match cols_from_string(&rows[i], C) {
                Ok(v) => v,
                Err(e) => {
                    assert(spec_row_tokens(rs[i as int]).len() != C);
                    assert(spec_layer_tokens(s@, R as nat, C as nat).is_none());
                    return Err(e);
                },
            };
            toks.push(cols);
            i = i + 1;
        }
        let ghost g = Seq::new(rs.len(), |k: int| spec_row_tokens(rs[k]));
        assert(spec_layer_tokens(s@, R as nat, C as nat) == Some(g));
        let mut i: usize = 0;
        while i < R
            invariant
                i <= R,
                toks@.len() == R,
                g.len() == R,
                spec_layer_tokens(s@, R as nat, C as nat) == Some(g),
                forall|k: int| 0 <= k < R ==> (#[trigger] toks@[k])@.len() == C,
                forall|k: int| 0 <= k < R ==> (#[trigger] g[k]).len() == C,
                forall|k: int, j: int| 0 <= k < R && 0 <= j < C ==> (#[trigger] toks@[k]@[j])@ == g[k][j],
                layer.wf(),
                forall|k: int, j: int|
                    0 <= k < i && 0 <= j < C ==> (#[trigger] spec_parse_phalanx(g[k][j])).is_some()
                        && layer.phalanxes()[k * C + j] == spec_parse_phalanx(g[k][j])->Some_0,
            decreases R - i,
        {
            let mut j: usize = 0;
            while j < C
                invariant
                    i < R,
                    j <= C,
                    toks@.len() == R,
                    g.len() == R,
                    spec_layer_tokens(s@, R as nat, C as nat) == Some(g),
                    forall|k: int| 0 <= k < R ==> (#[trigger] toks@[k])@.len() == C,
                    forall|k: int| 0 <= k < R ==> (#[trigger] g[k]).len() == C,
                    forall|k: int, j: int| 0 <= k < R && 0 <= j < C ==> (#[trigger] toks@[k]@[j])@ == g[k][j],
                    layer.wf(),
                    forall|k: int, jj: int|
                        0 <= k < i && 0 <= jj < C ==> (#[trigger] spec_parse_phalanx(g[k][jj])).is_some()
                            && layer.phalanxes()[k * C + jj] == spec_parse_phalanx(g[k][jj])->Some_0,
                    forall|jj: int|
                        0 <= jj < j ==> (#[trigger] spec_parse_phalanx(g[i as int][jj])).is_some()
                            && layer.phalanxes()[i * C + jj] == spec_parse_phalanx(g[i as int][jj])->Some_0,
                decreases C - j,
            {
                let key = match PhalanxKey::from_chars(&toks[i][j]) {
                    Ok(k) => k,
                    Err(e) => {
                        assert(spec_parse_phalanx(g[i as int][j as int]).is_none());
                        return Err(e);
                    },
                };
                assert(toks@[i as int]@[j as int]@ == g[i as int][j as int]);
                assert(key == spec_parse_phalanx(g[i as int][j as int])->Some_0);
                proof {
                    lemma_cell_index(i as int, j as int, R as int, C as int);
                }
                let ghost before = layer.phalanxes();
                layer.set(i, j, key);
                assert forall|k: int, jj: int|
                    0 <= k < i && 0 <= jj < C implies (#[trigger] spec_parse_phalanx(g[k][jj])).is_some()
                        && layer.phalanxes()[k * C + jj] == spec_parse_phalanx(g[k][jj])->Some_0 by {
                    lemma_cell_index(k, jj, R as int, C as int);
                    if k * C + jj == i * C + j {
                        lemma_cell_index_unique(k, jj, i as int, j as int, C as int);
                    }
                    assert(before[k * C + jj] == spec_parse_phalanx(g[k][jj])->Some_0);
                }
                assert forall|jj: int|
                    0 <= jj <= j implies (#[trigger] spec_parse_phalanx(g[i as int][jj])).is_some()
                        && layer.phalanxes()[i * C + jj] == spec_parse_phalanx(g[i as int][jj])->Some_0 by {
                    lemma_cell_index(i as int, jj, R as int, C as int);
                    if jj < j {
                        assert(before[i * C + jj] == spec_parse_phalanx(g[i as int][jj])->Some_0);
                    }
                }
                j = j + 1;
            }
            i = i + 1;
        }
        assert forall|k: int, j: int|
            0 <= k < R && 0 <= j < C implies (#[trigger] spec_parse_phalanx(g[k][j])).is_some() by {}
        let ghost expect = spec_parse_phalanx_layer(s@, R as nat, C as nat)->Some_0;
        assert(layer.phalanxes() =~= expect) by {
            assert forall|x: int| 0 <= x < R * C implies layer.phalanxes()[x] == expect[x] by {
                let k = x / C as int;
                let j = x % C as int;
                vstd::arithmetic::div_mod::lemma_fundamental_div_mod(x, C as int);
                assert(0 <= k < R) by (nonlinear_arith)
                    requires
                        0 <= x < R * C,
                        k == x / C as int,
                        C > 0,
                ;
                assert(x == k * C + j);
            }
        }
        Ok(layer)
    }


    /// Reads a phalanx layer from a string; see [`spec_parse_phalanx_layer`].
    pub fn try_from_str(s: &str) -> (res: Result<Self, AlcError>)
        requires
            R * C <= usize::MAX,
        ensures
            res.is_ok() <==> spec_parse_phalanx_layer(s@, R as nat, C as nat).is_some(),
            res.is_ok() ==> res->Ok_0.wf() && res->Ok_0.phalanxes() == spec_parse_phalanx_layer(
                s@,
                R as nat,
                C as nat,
            )->Some_0,
    {
        let v = chars_of(s);
        Self::try_from_chars(&v)
    }
}

/// The first keycode of `q` from position `p` on that `present` does not
/// hold, and the position after it; `None` and the end when there is none.
pub open spec fn spec_next_acceptable(q: Seq<Keycode>, p: nat, present: Seq<Keycode>) -> (Option<Keycode>, nat)
    decreases q.len() - p,
{
    if p >= q.len() {
        (None, p)
    } else if present.contains(q[p as int]) {
        spec_next_acceptable(q, p + 1, present)
    } else {
        (Some(q[p as int]), p + 1)
    }
}

/// The state of a fill: the cells, the queue being drained, the position in
/// it, and whether it was refilled.
pub struct FillState {
    pub cells: Seq<KeycodeKey>,
    pub queue: Seq<Keycode>,
    pub pos: nat,
    pub refilled: bool,
}

/// One cell of the fill: a blank randomizeable cell takes the next
/// acceptable keycode of the queue, refilled from `all` when it is spent.
pub open spec fn fill_step(s: FillState, idx: int, all: Seq<Keycode>, present: Seq<Keycode>) -> FillState {
    let k = s.cells[idx];
    if k.spec_randomizeable() && k.value == Keycode::_NO {
        let (q, p, refilled) = if s.pos >= s.queue.len() {
            (all, 0nat, true)
        } else {
            (s.queue, s.pos, s.refilled)
        };
        let (choice, p2) = spec_next_acceptable(q, p, present);
        FillState {
            cells: match choice {
                Some(v) => s.cells.update(idx, KeycodeKey { value: v, is_moveable: true, is_symmetric: false }),
                None => s.cells,
            },
            queue: q,
            pos: p2,
            refilled,
        }
    } else {
        s
    }
}

/// The fill after the first `n` cells, row-major.
pub open spec fn fill_upto(start: FillState, n: nat, all: Seq<Keycode>, present: Seq<Keycode>) -> FillState
    decreases n,
{
    if n == 0 {
        start
    } else {
        fill_step(fill_upto(start, (n - 1) as nat, all, present), n - 1, all, present)
    }
}

pub proof fn lemma_fill_shape(start: FillState, n: nat, all: Seq<Keycode>, present: Seq<Keycode>)
    requires
        n <= start.cells.len(),
        start.pos <= start.queue.len(),
    ensures
        fill_upto(start, n, all, present).cells.len() == start.cells.len(),
        fill_upto(start, n, all, present).pos <= fill_upto(start, n, all, present).queue.len(),
    decreases n,
{
    if n > 0 {
        lemma_fill_shape(start, (n - 1) as nat, all, present);
        let s = fill_upto(start, (n - 1) as nat, all, present);
        let q = if s.pos >= s.queue.len() { all } else { s.queue };
        let p = if s.pos >= s.queue.len() { 0nat } else { s.pos };
        lemma_next_bound(q, p, present);
    }
}

pub proof fn lemma_next_bound(q: Seq<Keycode>, p: nat, present: Seq<Keycode>)
    requires
        p <= q.len(),
    ensures
        spec_next_acceptable(q, p, present).1 <= q.len(),
    decreases q.len() - p,
{
    if p < q.len() && present.contains(q[p as int]) {
        lemma_next_bound(q, p + 1, present);
    }
}

fn next_acceptable(q: &Vec<Keycode>, p: usize, present: &Vec<Keycode>) -> (r: (Option<Keycode>, usize))
    requires
        p <= q@.len(),
    ensures
        (r.0, r.1 as nat) == spec_next_acceptable(q@, p as nat, present@),
{
    let mut pos = p;
    while pos < q.len()
        invariant
            p <= pos <= q@.len(),
            spec_next_acceptable(q@, p as nat, present@) == spec_next_acceptable(q@, pos as nat, present@),
        decreases q@.len() - pos,
    {
        let v = q[pos];
        if !crate::keycode::contains_keycode(present, v) {
            return (Some(v), pos + 1);
        }
        pos = pos + 1;
    }
    (None, pos)
}

impl<const R: usize, const C: usize> Layer<R, C, KeycodeKey> {
    /// Fills the blank, randomizeable cells row-major from the front of
    /// `valid_keycodes`, skipping keycodes in `keycode_set` and starting over
    /// from `valid_keycodes_all` when the queue runs dry. Returns what is
    /// left of the queue and whether it ran dry.
    pub fn randomize(
        &mut self,
        valid_keycodes_all: &Vec<Keycode>,
        valid_keycodes: &Vec<Keycode>,
        keycode_set: &Vec<Keycode>,
    ) -> (r: (Vec<Keycode>, bool))
        requires
            old(self).wf(),
        ensures
            final(self).wf(),
            ({
                let f = fill_upto(
                    FillState { cells: old(self).keys(), queue: valid_keycodes@, pos: 0, refilled: false },
                    (R * C) as nat,
                    valid_keycodes_all@,
                    keycode_set@,
                );
                &&& final(self).keys() == f.cells
                &&& r.0@ == f.queue.subrange(f.pos as int, f.queue.len() as int)
                &&& r.1 == f.refilled
            }),
    {
        let ghost start = FillState { cells: self.keys(), queue: valid_keycodes@, pos: 0, refilled: false };
        let ghost all = valid_keycodes_all@;
        let ghost present = keycode_set@;
        let mut used_all = false;
        let mut queue = crate::ngram::copy_keycodes(valid_keycodes);
        let mut pos: usize = 0;
        let mut idx: usize = 0;
        while idx < R * C
            invariant
                idx <= R * C,
                self.wf(),
                start.cells.len() == R * C,
                start.pos <= start.queue.len(),
                all == valid_keycodes_all@,
                present == keycode_set@,
                ({
                    let f = fill_upto(start, idx as nat, all, present);
                    &&& self.keys() == f.cells
                    &&& queue@ == f.queue
                    &&& pos == f.pos
                    &&& used_all == f.refilled
                }),
            decreases R * C - idx,
        {
            proof {
                lemma_fill_shape(start, idx as nat, all, present);
            }
            let key = self.get_row_major(idx).unwrap();
            if key.randomizeable() && key.value == Keycode::_NO {
                if pos >= queue.len() {
                    queue = crate::ngram::copy_keycodes(valid_keycodes_all);
                    pos = 0;
                    used_all = true;
                }
                let (choice, next) = next_acceptable(&queue, pos, keycode_set);
                pos = next;
                if let Some(v) = choice {
                    self.set_row_major(idx, KeycodeKey::default_from_keycode(v));
                }
            }
            idx = idx + 1;
        }
        proof {
            lemma_fill_shape(start, (R * C) as nat, all, present);
        }
        let mut rest: Vec<Keycode> = Vec::new();
        let p0 = pos;
        while pos < queue.len()
            invariant
                p0 <= pos <= queue@.len(),
                rest@ == queue@.subrange(p0 as int, pos as int),
            decreases queue@.len() - pos,
        {
            rest.push(queue[pos]);
            assert(queue@.subrange(p0 as int, pos + 1) =~= queue@.subrange(p0 as int, pos as int).push(queue@[pos as int]));
            pos = pos + 1;
        }
        (rest, used_all)
    }

    /// The keycodes that the layer holds, each once.
    pub fn get_keycode_set(&self) -> (r: Vec<Keycode>)
        requires
            self.wf(),
        ensures
            r@.no_duplicates(),
            forall|k: Keycode| r@.contains(k) <==> exists|i: int| 0 <= i < R * C && (#[trigger] self.keys()[i]).value == k,
    {
        let mut r: Vec<Keycode> = Vec::new();
        let mut idx: usize = 0;
        while idx < R * C
            invariant
                idx <= R * C,
                self.wf(),
                r@.no_duplicates(),
                forall|k: Keycode| r@.contains(k) <==> exists|i: int| 0 <= i < idx && (#[trigger] self.keys()[i]).value == k,
            decreases R * C - idx,
        {
            let v = self.get_row_major(idx).unwrap().value;
            let ghost before = r@;
            if !crate::keycode::contains_keycode(&r, v) {
                r.push(v);
                assert forall|k: Keycode| r@.contains(k) <==> before.contains(k) || k == v by {
                    if r@.contains(k) && k != v {
                        let j = choose|j: int| 0 <= j < r@.len() && r@[j] == k;
                        assert(before[j] == k);
                    }
                    if before.contains(k) {
                        let j = choose|j: int| 0 <= j < before.len() && before[j] == k;
                        assert(r@[j] == k);
                    }
                    if k == v {
                        assert(r@[before.len() as int] == v);
                    }
                }
            }
            assert forall|k: Keycode| r@.contains(k) <==> before.contains(k) || k == v by {}
            assert forall|k: Keycode| (exists|i: int| 0 <= i < idx + 1 && (#[trigger] self.keys()[i]).value == k) <==> (before.contains(k) || k == v) by {
                if exists|i: int| 0 <= i < idx + 1 && (#[trigger] self.keys()[i]).value == k {
                    let i = choose|i: int| 0 <= i < idx + 1 && (#[trigger] self.keys()[i]).value == k;
                    if i < idx {
                        assert(before.contains(k));
                    }
                }
                if before.contains(k) {
                    let i = choose|i: int| 0 <= i < idx && (#[trigger] self.keys()[i]).value == k;
                    assert(0 <= i < idx + 1);
                }
                if k == v {
                    assert(self.keys()[idx as int].value == k);
                }
            }
            assert forall|k: Keycode| r@.contains(k) <==> exists|i: int| 0 <= i < idx + 1 && (#[trigger] self.keys()[i]).value == k by {
                assert(r@.contains(k) <==> before.contains(k) || k == v);
                assert((exists|i: int| 0 <= i < idx + 1 && (#[trigger] self.keys()[i]).value == k) <==> (before.contains(k) || k == v));
            }
            idx = idx + 1;
        }
        r
    }
}

} // verus!
