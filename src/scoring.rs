//! The discrete half of the advanced scorer: which keystrokes of a sequence
//! repeat a finger, and where runs of hand alternation and of finger rolls
//! start and end. The effort arithmetic over these runs is done by callers.
use vstd::prelude::*;

use crate::key::{spec_finger_cmp, Finger, Hand, PhalanxKey};
use crate::layer::Layer;
use crate::position::LayoutPositionSequence;

verus! {

#[derive(Debug, PartialEq, Eq, Structural, Clone, Copy)]
pub enum RollDirection {
    Inner,
    Outer,
    PlaceholderDirection,
}

/// The scorer with effort alone.
pub struct SimpleScoreFunction {}

impl SimpleScoreFunction {
    pub fn new() -> Self {
        SimpleScoreFunction {  }
    }
}

/// The scorer with alternation and roll reductions and same-finger
/// penalties.
pub struct AdvancedScoreFunction {}

impl AdvancedScoreFunction {
    pub fn new() -> Self {
        AdvancedScoreFunction {  }
    }
}

/// The scan state after some keystrokes: the alternation streak (hand
/// switches in a row), the roll streak, the roll directions, the previous
/// hand, finger and row, and the run boundaries and same-finger indices
/// found so far.
pub struct ScanSpec {
    pub alt: nat,
    pub roll: nat,
    pub roll_dir: RollDirection,
    pub prev_roll_dir: RollDirection,
    pub prev_hand: Hand,
    pub prev_finger: Finger,
    pub row: int,
    pub alt_inds: Seq<nat>,
    pub roll_inds: Seq<nat>,
    pub same: Seq<nat>,
}

pub open spec fn scan_start() -> ScanSpec {
    ScanSpec {
        alt: 0,
        roll: 0,
        roll_dir: RollDirection::PlaceholderDirection,
        prev_roll_dir: RollDirection::PlaceholderDirection,
        prev_hand: Hand::PlaceholderHand,
        prev_finger: Finger::PlaceholderFinger,
        row: 0,
        alt_inds: Seq::empty(),
        roll_inds: Seq::empty(),
        same: Seq::empty(),
    }
}

/// One keystroke `l` on hand and finger `k` in row `row`. A hand switch
/// extends the alternation streak and ends a roll; a same-hand move ends the
/// alternation and extends the roll when the fingers keep moving in the same
/// direction and the row changes by at most one. A streak above one (three
/// keystrokes) records its start when it reaches two and its end when it
/// breaks.
pub open spec fn scan_step(s: ScanSpec, l: nat, k: PhalanxKey, row: int) -> ScanSpec {
    let prev_alt = s.alt;
    let prev_roll = s.roll;
    let prev_row = s.row;
    let (alt, roll, roll_dir, prev_roll_dir) = if l > 0 {
        if k.hand != s.prev_hand {
            (s.alt + 1, 0nat, s.roll_dir, s.prev_roll_dir)
        } else {
            let cmp = spec_finger_cmp(k.finger, s.prev_finger);
            let (rd, prd) = if cmp == Some(core::cmp::Ordering::Greater) {
                (RollDirection::Inner, if s.roll == 0 { RollDirection::Inner } else { s.prev_roll_dir })
            } else if cmp == Some(core::cmp::Ordering::Less) {
                (RollDirection::Outer, if s.roll == 0 { RollDirection::Outer } else { s.prev_roll_dir })
            } else {
                (RollDirection::PlaceholderDirection, s.prev_roll_dir)
            };
            let r = if row - prev_row > 1 || prev_row - row > 1 {
                0nat
            } else if rd != RollDirection::PlaceholderDirection && prd == rd {
                s.roll + 1
            } else {
                0nat
            };
            (0nat, r, rd, prd)
        }
    } else {
        (s.alt, s.roll, s.roll_dir, s.prev_roll_dir)
    };
    let alt_inds = if l > 0 && alt == 0 && prev_alt > 1 {
        s.alt_inds.push(l)
    } else if l > 0 && prev_alt == 1 && alt > 1 {
        s.alt_inds.push((l - alt) as nat)
    } else {
        s.alt_inds
    };
    let roll_inds = if l > 0 && roll == 0 && prev_roll > 1 {
        s.roll_inds.push(l)
    } else if l > 0 && prev_roll == 1 && roll > 1 {
        s.roll_inds.push((l - roll) as nat)
    } else {
        s.roll_inds
    };
    let same = if k.hand == s.prev_hand && k.finger == s.prev_finger {
        s.same.push(l)
    } else {
        s.same
    };
    ScanSpec {
        alt,
        roll,
        roll_dir,
        prev_roll_dir: roll_dir,
        prev_hand: k.hand,
        prev_finger: k.finger,
        row,
        alt_inds,
        roll_inds,
        same,
    }
}

/// The scan state after the first `upto` keystrokes.
pub open spec fn scan_upto(ks: Seq<PhalanxKey>, rows: Seq<usize>, upto: nat) -> ScanSpec
    decreases upto,
{
    if upto == 0 {
        scan_start()
    } else {
        scan_step(
            scan_upto(ks, rows, (upto - 1) as nat),
            (upto - 1) as nat,
            ks[upto - 1],
            rows[upto - 1] as int,
        )
    }
}

/// The run boundaries of a whole sequence: streaks still open at the end
/// close at its length.
pub open spec fn spec_runs(ks: Seq<PhalanxKey>, rows: Seq<usize>) -> (Seq<nat>, Seq<nat>, Seq<nat>) {
    let s = scan_upto(ks, rows, ks.len());
    let n = ks.len();
    (
        if s.alt > 1 { s.alt_inds.push(n) } else { s.alt_inds },
        if s.roll > 1 { s.roll_inds.push(n) } else { s.roll_inds },
        s.same,
    )
}

/// Alternating start/end index pairs of hand-alternation runs and of roll
/// runs, and the indices whose keystroke repeats the previous finger.
#[derive(Debug, PartialEq, Clone)]
pub struct StreakRuns {
    pub alt_inds: Vec<usize>,
    pub roll_inds: Vec<usize>,
    pub same_finger: Vec<usize>,
}

pub open spec fn nat_view(v: Seq<usize>) -> Seq<nat> {
    v.map_values(|x: usize| x as nat)
}

pub proof fn lemma_scan_bounds(ks: Seq<PhalanxKey>, rows: Seq<usize>, upto: nat)
    requires
        upto <= ks.len(),
        upto <= rows.len(),
    ensures
        upto > 0 ==> scan_upto(ks, rows, upto).alt < upto,
        upto > 0 ==> scan_upto(ks, rows, upto).roll < upto,
        upto == 0 ==> scan_upto(ks, rows, upto).alt == 0,
        upto == 0 ==> scan_upto(ks, rows, upto).roll == 0,
    decreases upto,
{
    if upto > 0 {
        lemma_scan_bounds(ks, rows, (upto - 1) as nat);
    }
}

fn finger_cmp(a: Finger, b: Finger) -> (r: Option<core::cmp::Ordering>)
    ensures
        r == spec_finger_cmp(a, b),
{
    a.partial_cmp(&b)
}

/// Scans hands, fingers and rows of a keystroke sequence for same-finger
/// repeats and for alternation and roll runs of three keystrokes or more.
pub fn streak_runs(ks: &Vec<PhalanxKey>, rows: &Vec<usize>) -> (r: StreakRuns)
    requires
        ks@.len() == rows@.len(),
    ensures
        nat_view(r.alt_inds@) == spec_runs(ks@, rows@).0,
        nat_view(r.roll_inds@) == spec_runs(ks@, rows@).1,
        nat_view(r.same_finger@) == spec_runs(ks@, rows@).2,
{
    let n = ks.len();
    let mut alt: usize = 0;
    let mut roll: usize = 0;
    let mut roll_dir = RollDirection::PlaceholderDirection;
    let mut prev_roll_dir = RollDirection::PlaceholderDirection;
    let mut prev_hand = Hand::PlaceholderHand;
    let mut prev_finger = Finger::PlaceholderFinger;
    let mut row: usize = 0;
    let mut alt_inds: Vec<usize> = Vec::new();
    let mut roll_inds: Vec<usize> = Vec::new();
    let mut same: Vec<usize> = Vec::new();
    let mut l: usize = 0;
    assert(nat_view(alt_inds@) =~= Seq::<nat>::empty());
    assert(nat_view(roll_inds@) =~= Seq::<nat>::empty());
    assert(nat_view(same@) =~= Seq::<nat>::empty());
    while l < n
        invariant
            l <= n,
            n == ks@.len(),
            n == rows@.len(),
            ({
                let s = scan_upto(ks@, rows@, l as nat);
                &&& s.alt == alt as nat
                &&& s.roll == roll as nat
                &&& s.roll_dir == roll_dir
                &&& s.prev_roll_dir == prev_roll_dir
                &&& s.prev_hand == prev_hand
                &&& s.prev_finger == prev_finger
                &&& s.row == row as int
                &&& s.alt_inds == nat_view(alt_inds@)
                &&& s.roll_inds == nat_view(roll_inds@)
                &&& s.same == nat_view(same@)
            }),
        decreases n - l,
    {
        proof {
            lemma_scan_bounds(ks@, rows@, l as nat);
            lemma_scan_bounds(ks@, rows@, (l + 1) as nat);
        }
        let k = ks[l];
        let ghost s0 = scan_upto(ks@, rows@, l as nat);
        let prev_alt = alt;
        let prev_roll = roll;
        let prev_row = row;
        row = rows[l];
        if l > 0 {
            if k.hand != prev_hand {
                alt = alt + 1;
                roll = 0;
            } else {
                alt = 0;
                match finger_cmp(k.finger, prev_finger) {
                    Some(core::cmp::Ordering::Greater) => {
                        roll_dir = RollDirection::Inner;
                        if roll == 0 {
                            prev_roll_dir = RollDirection::Inner;
                        }
                    },
                    Some(core::cmp::Ordering::Less) => {
                        roll_dir = RollDirection::Outer;
                        if roll == 0 {
                            prev_roll_dir = RollDirection::Outer;
                        }
                    },
                    _ => {
                        roll_dir = RollDirection::PlaceholderDirection;
                    },
                }
                let far = (row > prev_row && row - prev_row > 1) || (prev_row > row && prev_row - row > 1);
                if far {
                    roll = 0;
                } else if roll_dir != RollDirection::PlaceholderDirection && prev_roll_dir == roll_dir {
                    roll = roll + 1;
                } else {
                    roll = 0;
                }
            }
            if alt == 0 && prev_alt > 1 {
                alt_inds.push(l);
            } else if prev_alt == 1 && alt > 1 {
                alt_inds.push(l - alt);
            }
            if roll == 0 && prev_roll > 1 {
                roll_inds.push(l);
            } else if prev_roll == 1 && roll > 1 {
                roll_inds.push(l - roll);
            }
        }
        if k.hand == prev_hand && k.finger == prev_finger {
            same.push(l);
        }
        prev_hand = k.hand;
        prev_finger = k.finger;
        prev_roll_dir = roll_dir;
        proof {
            let s1 = scan_upto(ks@, rows@, (l + 1) as nat);
            assert(s1 == scan_step(s0, l as nat, k, row as int));
            assert(nat_view(alt_inds@) =~= s1.alt_inds);
            assert(nat_view(roll_inds@) =~= s1.roll_inds);
            assert(nat_view(same@) =~= s1.same);
        }
        l = l + 1;
    }
    if alt > 1 {
        alt_inds.push(n);
    }
    if roll > 1 {
        roll_inds.push(n);
    }
    assert(nat_view(alt_inds@) =~= spec_runs(ks@, rows@).0);
    assert(nat_view(roll_inds@) =~= spec_runs(ks@, rows@).1);
    StreakRuns { alt_inds, roll_inds, same_finger: same }
}

/// The hands, fingers and rows of the keystrokes of `seq`, then
/// [`streak_runs`] over them.
pub fn sequence_streaks<const R: usize, const C: usize>(
    phalanx_layer: &Layer<R, C, PhalanxKey>,
    seq: &LayoutPositionSequence,
) -> (r: (StreakRuns, Vec<PhalanxKey>))
    requires
        phalanx_layer.wf(),
        forall|i: int| 0 <= i < seq@.len() ==> (#[trigger] seq@[i]).row_index < R && seq@[i].col_index < C,
    ensures
        r.1@.len() == seq@.len(),
        forall|i: int| 0 <= i < seq@.len() ==> #[trigger] r.1@[i] == phalanx_layer.phalanxes()[seq@[i].row_index * C + seq@[i].col_index],
        nat_view(r.0.alt_inds@) == spec_runs(r.1@, seq@.map_values(|p: crate::position::LayoutPosition| p.row_index)).0,
        nat_view(r.0.roll_inds@) == spec_runs(r.1@, seq@.map_values(|p: crate::position::LayoutPosition| p.row_index)).1,
        nat_view(r.0.same_finger@) == spec_runs(r.1@, seq@.map_values(|p: crate::position::LayoutPosition| p.row_index)).2,
{
    let mut ks: Vec<PhalanxKey> = Vec::new();
    let mut rows: Vec<usize> = Vec::new();
    let n = seq.len();
    let mut i: usize = 0;
    while i < n
        invariant
            i <= n,
            n == seq@.len(),
            phalanx_layer.wf(),
            forall|j: int| 0 <= j < seq@.len() ==> (#[trigger] seq@[j]).row_index < R && seq@[j].col_index < C,
            ks@.len() == i,
            rows@ == seq@.map_values(|p: crate::position::LayoutPosition| p.row_index).subrange(0, i as int),
            forall|j: int| 0 <= j < i ==> #[trigger] ks@[j] == phalanx_layer.phalanxes()[seq@[j].row_index * C + seq@[j].col_index],
        decreases n - i,
    {
        let p = seq.get(i);
        ks.push(phalanx_layer.get(p.row_index, p.col_index));
        rows.push(p.row_index);
        assert(seq@.map_values(|p: crate::position::LayoutPosition| p.row_index).subrange(0, i + 1) =~= seq@.map_values(|p: crate::position::LayoutPosition| p.row_index).subrange(0, i as int).push(p.row_index));
        i = i + 1;
    }
    assert(seq@.map_values(|p: crate::position::LayoutPosition| p.row_index).subrange(0, n as int) =~= seq@.map_values(|p: crate::position::LayoutPosition| p.row_index));
    let runs = streak_runs(&ks, &rows);
    (runs, ks)
}

/// Which closed form scores a short sequence.
#[derive(Debug, PartialEq, Eq, Structural, Clone, Copy)]
pub enum SmallCase {
    /// One keystroke: its effort.
    Single,
    /// The second keystroke repeats the first finger: its effort takes the
    /// same-finger penalty.
    PenaltyOnSecond,
    /// The third keystroke repeats the second finger.
    PenaltyOnThird,
    /// Three keystrokes that switch hands twice.
    Alternation,
    /// Three keystrokes on one hand, rows at most one apart, fingers strictly
    /// widening or narrowing; `true` when all three share a row.
    Roll(bool),
    /// Three keystrokes with none of the above: the plain sum.
    Plain,
    /// No closed form: the general scan applies.
    General,
}

pub open spec fn same_finger(a: PhalanxKey, b: PhalanxKey) -> bool {
    a.hand == b.hand && a.finger == b.finger
}

pub open spec fn rows_close(a: usize, b: usize) -> bool {
    a <= b + 1 && b <= a + 1
}

pub open spec fn strictly_monotone(a: Finger, b: Finger, c: Finger) -> bool {
    (spec_finger_cmp(a, b) == Some(core::cmp::Ordering::Less) && spec_finger_cmp(b, c) == Some(core::cmp::Ordering::Less))
        || (spec_finger_cmp(a, b) == Some(core::cmp::Ordering::Greater) && spec_finger_cmp(b, c) == Some(
        core::cmp::Ordering::Greater,
    ))
}

/// The closed form for sequences of one to three keystrokes: a repeated
/// finger first, then two hand switches, then a roll, else the plain sum; a
/// pair without a repeated finger, and longer sequences, take the general
/// scan.
pub open spec fn spec_small_case(ks: Seq<PhalanxKey>, rows: Seq<usize>) -> SmallCase {
    if ks.len() == 1 {
        SmallCase::Single
    } else if ks.len() == 2 {
        if same_finger(ks[0], ks[1]) {
            SmallCase::PenaltyOnSecond
        } else {
            SmallCase::General
        }
    } else if ks.len() == 3 {
        if same_finger(ks[0], ks[1]) {
            SmallCase::PenaltyOnSecond
        } else if same_finger(ks[1], ks[2]) {
            SmallCase::PenaltyOnThird
        } else if ks[0].hand != ks[1].hand && ks[1].hand != ks[2].hand {
            SmallCase::Alternation
        } else if ks[0].hand == ks[1].hand && ks[1].hand == ks[2].hand && rows_close(rows[0], rows[1])
            && rows_close(rows[1], rows[2]) && strictly_monotone(ks[0].finger, ks[1].finger, ks[2].finger) {
            SmallCase::Roll(rows[0] == rows[1] && rows[1] == rows[2])
        } else {
            SmallCase::Plain
        }
    } else {
        SmallCase::General
    }
}

fn close(a: usize, b: usize) -> (r: bool)
    ensures
        r == rows_close(a, b),
{
    (a <= b || a - b <= 1) && (b <= a || b - a <= 1)
}

fn monotone(a: Finger, b: Finger, c: Finger) -> (r: bool)
    ensures
        r == strictly_monotone(a, b, c),
{
    let ab = finger_cmp(a, b);
    let bc = finger_cmp(b, c);
    match (ab, bc) {
        (Some(core::cmp::Ordering::Less), Some(core::cmp::Ordering::Less)) => true,
        (Some(core::cmp::Ordering::Greater), Some(core::cmp::Ordering::Greater)) => true,
        _ => false,
    }
}

/// Decides which closed form scores a sequence of hands, fingers and rows.
pub fn small_case(ks: &Vec<PhalanxKey>, rows: &Vec<usize>) -> (r: SmallCase)
    requires
        ks@.len() == rows@.len(),
    ensures
        r == spec_small_case(ks@, rows@),
{
    let n = ks.len();
    if n == 1 {
        SmallCase::Single
    } else if n == 2 {
        if ks[0].hand == ks[1].hand && ks[0].finger == ks[1].finger {
            SmallCase::PenaltyOnSecond
        } else {
            SmallCase::General
        }
    } else if n == 3 {
        let (k0, k1, k2) = (ks[0], ks[1], ks[2]);
        if k0.hand == k1.hand && k0.finger == k1.finger {
            SmallCase::PenaltyOnSecond
        } else if k1.hand == k2.hand && k1.finger == k2.finger {
            SmallCase::PenaltyOnThird
        } else if k0.hand != k1.hand && k1.hand != k2.hand {
            SmallCase::Alternation
        } else if k0.hand == k1.hand && k1.hand == k2.hand && close(rows[0], rows[1]) && close(rows[1], rows[2])
            && monotone(k0.finger, k1.finger, k2.finger) {
            SmallCase::Roll(rows[0] == rows[1] && rows[1] == rows[2])
        } else {
            SmallCase::Plain
        }
    } else {
        SmallCase::General
    }
}

} // verus!
