//! The text form of layouts: the grammar that `Layout::try_from_str` reads,
//! with a column-index header and row prefixes, so that printed layouts can
//! be read back.
use vstd::prelude::*;

use crate::key::KeycodeKey;
use crate::keycode::Keycode;
use crate::layout::Layout;
use crate::position::LayoutPosition;

verus! {

/// The decimal digits of `n`.
pub open spec fn decimal(n: nat) -> Seq<char>
    decreases n,
{
    if n < 10 {
        seq![(('0' as u8) + (n as u8)) as char]
    } else {
        decimal(n / 10).push((('0' as u8) + ((n % 10) as u8)) as char)
    }
}

/// The decimal digits of `n`.
pub fn decimal_chars(n: usize) -> (r: Vec<char>)
    ensures
        r@ == decimal(n as nat),
    decreases n,
{
    if n < 10 {
        let c = (('0' as u8) + (n as u8)) as char;
        vec![c]
    } else {
        let mut r = decimal_chars(n / 10);
        let c = (('0' as u8) + ((n % 10) as u8)) as char;
        r.push(c);
        r
    }
}

/// `s` right-aligned in `w` columns.
pub open spec fn pad(s: Seq<char>, w: nat) -> Seq<char> {
    if s.len() < w {
        Seq::new((w - s.len()) as nat, |i: int| ' ') + s
    } else {
        s
    }
}

fn pad_chars(s: Vec<char>, w: usize) -> (r: Vec<char>)
    ensures
        r@ == pad(s@, w as nat),
{
    if s.len() >= w {
        return s;
    }
    let mut r: Vec<char> = Vec::new();
    let n = w - s.len();
    let mut i: usize = 0;
    while i < n
        invariant
            i <= n,
            r@ == Seq::new(i as nat, |j: int| ' '),
        decreases n - i,
    {
        r.push(' ');
        assert(r@ =~= Seq::new((i + 1) as nat, |j: int| ' '));
        i = i + 1;
    }
    let ghost front = r@;
    let mut s2 = s;
    r.append(&mut s2);
    assert(r@ =~= pad(s@, w as nat));
    r
}

/// How a cell's keycode is written: `_` for a blank or a target marker,
/// `LS<t>` for a layer switch, the short name otherwise.
pub open spec fn key_text(k: KeycodeKey) -> Seq<char> {
    match k.value {
        Keycode::_NO => seq!['_'],
        Keycode::_LST(_, _) => seq!['_'],
        Keycode::_LS(t) => seq!['L', 'S'] + decimal(t as nat),
        v => v.spec_short_name(),
    }
}

pub open spec fn flag(b: bool) -> char {
    if b {
        '1'
    } else {
        '0'
    }
}

/// A cell as `<keycode>_<moveable><symmetric>`, the keycode right-aligned in
/// four columns, and a space.
pub open spec fn cell_text(k: KeycodeKey) -> Seq<char> {
    pad(key_text(k), 4) + seq!['_', flag(k.is_moveable), flag(k.is_symmetric), ' ']
}

/// The column indexes `0..c`, each right-aligned in seven columns.
pub open spec fn header_text(c: nat) -> Seq<char>
    decreases c,
{
    if c == 0 {
        seq![' ', ' ']
    } else {
        header_text((c - 1) as nat) + pad(decimal((c - 1) as nat), 7) + seq![' ']
    }
}

/// The first `c` cells of row `r`.
pub open spec fn row_cells_text(cells: Seq<KeycodeKey>, r: nat, cols: nat, c: nat) -> Seq<char>
    decreases c,
{
    if c == 0 {
        Seq::empty()
    } else {
        row_cells_text(cells, r, cols, (c - 1) as nat) + cell_text(cells[(r * cols + c - 1) as int])
    }
}

/// The first `r` rows, each as `<index>|` and its cells.
pub open spec fn rows_text(cells: Seq<KeycodeKey>, r: nat, cols: nat) -> Seq<char>
    decreases r,
{
    if r == 0 {
        Seq::empty()
    } else {
        rows_text(cells, (r - 1) as nat, cols) + decimal((r - 1) as nat) + seq!['|'] + row_cells_text(
            cells,
            (r - 1) as nat,
            cols,
            cols,
        ) + seq!['\n']
    }
}

/// The first `l` layers, each under a `___Layer <index>___` line.
pub open spec fn layers_text(g: Seq<Seq<KeycodeKey>>, l: nat, rows: nat, cols: nat) -> Seq<char>
    decreases l,
{
    if l == 0 {
        Seq::empty()
    } else {
        layers_text(g, (l - 1) as nat, rows, cols) + seq!['_', '_', '_', 'L', 'a', 'y', 'e', 'r', ' ']
            + decimal((l - 1) as nat) + seq!['_', '_', '_', '\n']
            + header_text(cols) + seq!['\n'] + rows_text(g[l - 1], rows, cols) + seq!['\n']
    }
}

impl<const R: usize, const C: usize> Layout<R, C> {
    /// The layout in its text form, with the flags of every cell.
    pub fn to_chars(&self) -> (r: Vec<char>)
        requires
            self.wf(),
        ensures
            r@ == layers_text(self.grid(), self.num_layers(), R as nat, C as nat),
    {
        proof {
            self.lemma_grid_shape();
        }
        let mut out: Vec<char> = Vec::new();
        let n = self.len();
        let mut l: usize = 0;
        while l < n
            invariant
                l <= n,
                n == self.num_layers(),
                self.wf(),
                out@ == layers_text(self.grid(), l as nat, R as nat, C as nat),
                forall|j: int| 0 <= j < n ==> (#[trigger] self.grid()[j]).len() == R * C,
            decreases n - l,
        {
            let ghost before = out@;
            let mut head = vec!['_', '_', '_', 'L', 'a', 'y', 'e', 'r', ' '];
            out.append(&mut head);
            let mut num = decimal_chars(l);
            out.append(&mut num);
            let mut tail = vec!['_', '_', '_', '\n'];
            out.append(&mut tail);
            assert(out@ =~= before + seq!['_', '_', '_', 'L', 'a', 'y', 'e', 'r', ' '] + decimal(l as nat) + seq!['_', '_', '_', '\n']);
            let mut hdr: Vec<char> = vec![' ', ' '];
            let mut k: usize = 0;
            while k < C
                invariant
                    k <= C,
                    hdr@ == header_text(k as nat),
                decreases C - k,
            {
                let mut d = pad_chars(decimal_chars(k), 7);
                hdr.append(&mut d);
                hdr.push(' ');
                k = k + 1;
            }
            out.append(&mut hdr);
            out.push('\n');
            let ghost after_header = out@;
            let mut r: usize = 0;
            while r < R
                invariant
                    r <= R,
                    l < n,
                    n == self.num_layers(),
                    self.wf(),
                    out@ == after_header + rows_text(self.grid()[l as int], r as nat, C as nat),
                    forall|j: int| 0 <= j < n ==> (#[trigger] self.grid()[j]).len() == R * C,
                decreases R - r,
            {
                let ghost row_start = out@;
                let mut idx = decimal_chars(r);
                out.append(&mut idx);
                out.push('|');
                let ghost cells_start = out@;
                let mut c: usize = 0;
                while c < C
                    invariant
                        c <= C,
                        r < R,
                        l < n,
                        n == self.num_layers(),
                        self.wf(),
                        out@ == cells_start + row_cells_text(self.grid()[l as int], r as nat, C as nat, c as nat),
                        forall|j: int| 0 <= j < n ==> (#[trigger] self.grid()[j]).len() == R * C,
                    decreases C - c,
                {
                    proof {
                        crate::layer::lemma_cell_index(r as int, c as int, R as int, C as int);
                    }
                    let k = self.get(LayoutPosition::new(l, r, c));
                    let mut text: Vec<char> = match k.value {
                        Keycode::_NO => vec!['_'],
                        Keycode::_LST(_, _) => vec!['_'],
                        Keycode::_LS(t) => {
                            let mut v = vec!['L', 'S'];
                            let mut d = decimal_chars(t);
                            v.append(&mut d);
                            v
                        },
                        v => crate::text::chars_of(v.short_name()),
                    };
                    assert(text@ =~= key_text(k));
                    let mut cell = pad_chars(text, 4);
                    cell.push('_');
                    cell.push(if k.is_moveable { '1' } else { '0' });
                    cell.push(if k.is_symmetric { '1' } else { '0' });
                    cell.push(' ');
                    assert(cell@ =~= cell_text(k));
                    let ghost pre = out@;
                    out.append(&mut cell);
                    assert(k == self.grid()[l as int][(r * C + c) as int]);
                    assert(out@ =~= cells_start + row_cells_text(self.grid()[l as int], r as nat, C as nat, (c + 1) as nat));
                    c = c + 1;
                }
                out.push('\n');
                assert(out@ =~= after_header + rows_text(self.grid()[l as int], (r + 1) as nat, C as nat));
                r = r + 1;
            }
            out.push('\n');
            assert(out@ =~= layers_text(self.grid(), (l + 1) as nat, R as nat, C as nat));
            l = l + 1;
        }
        out
    }

    /// The layout in its text form; see [`Layout::to_chars`].
    pub fn to_binary_string(&self) -> (r: String)
        requires
            self.wf(),
        ensures
            r@ == layers_text(self.grid(), self.num_layers(), R as nat, C as nat),
    {
        let v = self.to_chars();
        crate::text::string_from_chars(&v)
    }
}

} // verus!
