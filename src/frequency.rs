use vstd::prelude::*;

use crate::error::AlcError;
use crate::keycode::{spec_decode_string, Keycode, KeycodeOptions};
use crate::ngram::{copy_keycodes, Ngram};

verus! {

/// Value types that a frequency table may count with.
pub trait Frequencies {}

impl Frequencies for u32 {}

/// How many of the most frequent ngrams to keep.
#[derive(Debug, PartialEq, Clone)]
pub enum TopFrequenciesToTake {
    All,
    Num(usize),
}

/// Counts of the ngrams of one fixed length; `total` is the sum of the
/// counts.
#[derive(Debug, PartialEq, Clone)]
pub struct SingleGramFrequencies<T> {
    pub frequencies: Vec<(Ngram, T)>,
    pub n: usize,
    pub total: u64,
}

/// The ngram and count of each entry.
pub open spec fn entries_view(es: Seq<(Ngram, u32)>) -> Seq<(Seq<Keycode>, u32)> {
    es.map_values(|e: (Ngram, u32)| (e.0@, e.1))
}

/// The summed count of the entries for `g`.
pub open spec fn count_in(es: Seq<(Seq<Keycode>, u32)>, g: Seq<Keycode>) -> nat
    decreases es.len(),
{
    if es.len() == 0 {
        0
    } else {
        count_in(es.drop_last(), g) + if es.last().0 == g {
            es.last().1 as nat
        } else {
            0nat
        }
    }
}

/// The sum of all counts.
pub open spec fn sum_counts(es: Seq<(Seq<Keycode>, u32)>) -> nat
    decreases es.len(),
{
    if es.len() == 0 {
        0
    } else {
        sum_counts(es.drop_last()) + es.last().1 as nat
    }
}

pub open spec fn keys_unique(es: Seq<(Seq<Keycode>, u32)>) -> bool {
    forall|i: int, j: int| 0 <= i < j < es.len() ==> (#[trigger] es[i]).0 != (#[trigger] es[j]).0
}

/// How often `g` occurs as a window of `ks` that starts before `upto`.
pub open spec fn window_count(ks: Seq<Keycode>, n: nat, g: Seq<Keycode>, upto: nat) -> nat
    decreases upto,
{
    if upto == 0 {
        0
    } else {
        window_count(ks, n, g, (upto - 1) as nat) + if ks.subrange(upto - 1, upto - 1 + n) == g {
            1nat
        } else {
            0nat
        }
    }
}

pub proof fn lemma_count_update(es: Seq<(Seq<Keycode>, u32)>, i: int, v: u32, g: Seq<Keycode>)
    requires
        0 <= i < es.len(),
    ensures
        count_in(es.update(i, (es[i].0, v)), g) + (if es[i].0 == g { es[i].1 as nat } else { 0nat })
            == count_in(es, g) + (if es[i].0 == g { v as nat } else { 0nat }),
        sum_counts(es.update(i, (es[i].0, v))) + es[i].1 as nat == sum_counts(es) + v as nat,
    decreases es.len(),
{
    if i < es.len() - 1 {
        lemma_count_update(es.drop_last(), i, v, g);
        assert(es.update(i, (es[i].0, v)).drop_last() =~= es.drop_last().update(i, (es[i].0, v)));
    } else {
        assert(es.update(i, (es[i].0, v)).drop_last() =~= es.drop_last());
    }
}

pub proof fn lemma_count_absent(es: Seq<(Seq<Keycode>, u32)>, g: Seq<Keycode>)
    requires
        forall|i: int| 0 <= i < es.len() ==> (#[trigger] es[i]).0 != g,
    ensures
        count_in(es, g) == 0,
    decreases es.len(),
{
    if es.len() > 0 {
        lemma_count_absent(es.drop_last(), g);
    }
}

pub proof fn lemma_count_bound(es: Seq<(Seq<Keycode>, u32)>, g: Seq<Keycode>)
    ensures
        count_in(es, g) <= sum_counts(es),
    decreases es.len(),
{
    if es.len() > 0 {
        lemma_count_bound(es.drop_last(), g);
    }
}

pub proof fn lemma_count_unique(es: Seq<(Seq<Keycode>, u32)>, i: int)
    requires
        keys_unique(es),
        0 <= i < es.len(),
    ensures
        count_in(es, es[i].0) == es[i].1,
    decreases es.len(),
{
    if i < es.len() - 1 {
        lemma_count_unique(es.drop_last(), i);
        assert(es.last().0 != es[i].0);
    } else {
        lemma_count_absent(es.drop_last(), es[i].0);
    }
}

impl SingleGramFrequencies<u32> {
    /// The entries, each an ngram and its count.
    pub closed spec fn entries(&self) -> Seq<(Seq<Keycode>, u32)> {
        entries_view(self.frequencies@)
    }

    pub closed spec fn ngram_len(&self) -> nat {
        self.n as nat
    }

    /// The running total of the counts.
    pub open spec fn spec_total(&self) -> u64 {
        self.total
    }

    /// How often `g` was counted.
    pub open spec fn count(&self, g: Seq<Keycode>) -> nat {
        count_in(self.entries(), g)
    }

    pub closed spec fn wf(&self) -> bool {
        &&& keys_unique(self.entries())
        &&& forall|i: int| 0 <= i < self.entries().len() ==> (#[trigger] self.entries()[i]).0.len() == self.ngram_len()
        &&& self.total == sum_counts(self.entries())
    }

    /// An empty table for ngrams of length `n`.
    pub fn new(n: usize) -> (r: Self)
        ensures
            r.wf(),
            r.ngram_len() == n,
            r.entries() == Seq::<(Seq<Keycode>, u32)>::empty(),
            r.spec_total() == 0,
    {
        let r = SingleGramFrequencies { frequencies: Vec::new(), n, total: 0 };
        assert(r.entries() =~= Seq::<(Seq<Keycode>, u32)>::empty());
        r
    }

    pub fn n(&self) -> (r: usize)
        ensures
            r == self.ngram_len(),
    {
        self.n
    }

    fn find(&self, g: &Ngram) -> (r: Option<usize>)
        requires
            self.wf(),
        ensures
            r is None ==> forall|i: int| 0 <= i < self.entries().len() ==> (#[trigger] self.entries()[i]).0 != g@,
            r matches Some(i) ==> i < self.entries().len() && self.entries()[i as int].0 == g@,
    {
        let mut i: usize = 0;
        while i < self.frequencies.len()
            invariant
                i <= self.frequencies@.len(),
                self.entries().len() == self.frequencies@.len(),
                forall|j: int| 0 <= j < i ==> (#[trigger] self.entries()[j]).0 != g@,
            decreases self.frequencies@.len() - i,
        {
            if self.frequencies[i].0.same_as(g) {
                return Some(i);
            }
            i = i + 1;
        }
        None
    }

    /// The count of `k`, if it was counted.
    pub fn get(&self, k: &Ngram) -> (r: Option<u32>)
        requires
            self.wf(),
        ensures
            r is None ==> self.count(k@) == 0,
            r matches Some(c) ==> c == self.count(k@),
    {
        match self.find(k) {
            Some(i) => {
                proof {
                    lemma_count_unique(self.entries(), i as int);
                }
                Some(self.frequencies[i].1)
            },
            None => {
                proof {
                    lemma_count_absent(self.entries(), k@);
                }
                None
            },
        }
    }

    /// The number of distinct ngrams counted.
    pub fn len(&self) -> (r: usize)
        ensures
            r == self.entries().len(),
    {
        self.frequencies.len()
    }

    pub fn is_empty(&self) -> (r: bool)
        ensures
            r == (self.entries().len() == 0),
    {
        self.frequencies.len() == 0
    }

    /// The sum of the counts.
    pub fn sum(&self) -> (r: u64)
        requires
            self.wf(),
        ensures
            r == sum_counts(self.entries()),
    {
        self.total
    }

    /// The entries, each an ngram and its count.
    pub fn iter(&self) -> (r: &Vec<(Ngram, u32)>)
        ensures
            entries_view(r@) == self.entries(),
    {
        &self.frequencies
    }

    /// Adds `value` to the count of `key`, which must have the table's
    /// length.
    pub fn add_from_key_value(&mut self, key: Ngram, value: u32) -> (r: Result<(), AlcError>)
        requires
            old(self).wf(),
            old(self).count(key@) + value <= u32::MAX,
            old(self).spec_total() + value <= u64::MAX,
        ensures
            final(self).wf(),
            final(self).ngram_len() == old(self).ngram_len(),
            r.is_ok() <==> key@.len() == old(self).ngram_len(),
            r.is_ok() ==> final(self).count(key@) == old(self).count(key@) + value && forall|g: Seq<Keycode>|
                g != key@ ==> #[trigger] final(self).count(g) == old(self).count(g),
            r.is_ok() ==> final(self).spec_total() == old(self).spec_total() + value,
            r.is_err() ==> *final(self) == *old(self) && r == Err::<(), AlcError>(
                AlcError::NgramMatchError(key@.len() as usize, old(self).ngram_len() as usize),
            ),
    {
        if self.n != key.len() {
            return Err(AlcError::NgramMatchError(key.len(), self.n));
        }
        let ghost es = self.entries();
        let ghost kv = key@;
        proof {
            lemma_count_bound(es, key@);
        }
        match self.find(&key) {
            Some(i) => {
                proof {
                    lemma_count_unique(es, i as int);
                }
                let c = self.frequencies[i].1;
                let ghost old_v = self.frequencies@;
                self.frequencies.set(i, (key, c + value));
                assert(self.entries() =~= es.update(i as int, (es[i as int].0, (c + value) as u32)));
                proof {
                    lemma_count_update(es, i as int, (c + value) as u32, kv);
                    assert(count_in(self.entries(), kv) == count_in(es, kv) + value);
                    assert forall|g: Seq<Keycode>| g != kv implies #[trigger] count_in(self.entries(), g) == count_in(es, g) by {
                        lemma_count_update(es, i as int, (c + value) as u32, g);
                    }
                }
            },
            None => {
                proof {
                    lemma_count_absent(es, key@);
                }
                self.frequencies.push((key, value));
                assert(self.entries() =~= es.push((kv, value)));
                assert(self.entries().drop_last() =~= es);
                assert forall|g: Seq<Keycode>| g != kv implies #[trigger] count_in(self.entries(), g) == count_in(es, g) by {
                    assert(self.entries().drop_last() =~= es);
                }
                assert(count_in(self.entries(), kv) == count_in(es, kv) + value);
            },
        }
        self.total = self.total + value as u64;
        assert(count_in(self.entries(), kv) == count_in(es, kv) + value);
        assert(forall|g: Seq<Keycode>| g != kv ==> #[trigger] count_in(self.entries(), g) == count_in(es, g));
        Ok(())
    }

    /// Adds every count of `other` to this table; both must count ngrams of
    /// the same length.
    pub fn combine_with(&mut self, other: Self) -> (r: Result<(), AlcError>)
        requires
            old(self).wf(),
            other.wf(),
            old(self).spec_total() + other.spec_total() <= u64::MAX,
            forall|g: Seq<Keycode>| old(self).count(g) + other.count(g) <= u32::MAX,
        ensures
            final(self).wf(),
            final(self).ngram_len() == old(self).ngram_len(),
            r.is_ok() <==> other.ngram_len() == old(self).ngram_len(),
            r.is_ok() ==> forall|g: Seq<Keycode>| #[trigger] final(self).count(g) == old(self).count(g) + other.count(g),
            r.is_ok() ==> final(self).spec_total() == old(self).spec_total() + other.spec_total(),
            r.is_err() ==> *final(self) == *old(self),
    {
        if other.n != self.n {
            return Err(AlcError::NgramMatchError(other.n, self.n));
        }
        let ghost oes = other.entries();
        let mut i: usize = 0;
        while i < other.frequencies.len()
            invariant
                i <= oes.len(),
                oes == other.entries(),
                oes.len() == other.frequencies@.len(),
                other.wf(),
                other.ngram_len() == old(self).ngram_len(),
                self.wf(),
                self.ngram_len() == old(self).ngram_len(),
                forall|g: Seq<Keycode>| #[trigger] self.count(g) == old(self).count(g) + count_in(oes.subrange(0, i as int), g),
                self.spec_total() == old(self).spec_total() + sum_counts(oes.subrange(0, i as int)),
                old(self).spec_total() + other.spec_total() <= u64::MAX,
                forall|g: Seq<Keycode>| old(self).count(g) + other.count(g) <= u32::MAX,
            decreases oes.len() - i,
        {
            let (g, c) = (other.frequencies[i].0.duplicate(), other.frequencies[i].1);
            let ghost pre = oes.subrange(0, i as int);
            assert(oes.subrange(0, i + 1).drop_last() =~= pre);
            assert(oes.subrange(0, i + 1).last() == oes[i as int]);
            proof {
                lemma_count_prefix(oes, i as int + 1, g@);
                lemma_sum_prefix(oes, i as int + 1);
            }
            assert(oes[i as int] == (g@, c));
            assert(count_in(oes.subrange(0, i + 1), g@) == count_in(pre, g@) + c);
            assert(sum_counts(oes.subrange(0, i + 1)) == sum_counts(pre) + c);
            let ghost gv = g@;
            assert(old(self).count(gv) + other.count(gv) <= u32::MAX);
            assert(self.count(gv) == old(self).count(gv) + count_in(pre, gv));
            let r = self.add_from_key_value(g, c);
            assert forall|h: Seq<Keycode>| #[trigger] self.count(h) == old(self).count(h) + count_in(oes.subrange(0, i + 1), h) by {
                assert(oes.subrange(0, i + 1).drop_last() =~= pre);
            }
            assert(r.is_ok());
            i = i + 1;
        }
        assert(oes.subrange(0, oes.len() as int) =~= oes);
        Ok(())
    }
}

pub proof fn lemma_count_prefix(es: Seq<(Seq<Keycode>, u32)>, k: int, g: Seq<Keycode>)
    requires
        0 <= k <= es.len(),
    ensures
        count_in(es.subrange(0, k), g) <= count_in(es, g),
    decreases es.len(),
{
    if k < es.len() {
        lemma_count_prefix(es.drop_last(), k, g);
        assert(es.drop_last().subrange(0, k) =~= es.subrange(0, k));
    } else {
        assert(es.subrange(0, k) =~= es);
    }
}

pub proof fn lemma_sum_prefix(es: Seq<(Seq<Keycode>, u32)>, k: int)
    requires
        0 <= k <= es.len(),
    ensures
        sum_counts(es.subrange(0, k)) <= sum_counts(es),
    decreases es.len(),
{
    if k < es.len() {
        lemma_sum_prefix(es.drop_last(), k);
        assert(es.drop_last().subrange(0, k) =~= es.subrange(0, k));
    } else {
        assert(es.subrange(0, k) =~= es);
    }
}

pub proof fn lemma_window_count_bound(ks: Seq<Keycode>, n: nat, g: Seq<Keycode>, upto: nat)
    ensures
        window_count(ks, n, g, upto) <= upto,
    decreases upto,
{
    if upto > 0 {
        lemma_window_count_bound(ks, n, g, (upto - 1) as nat);
    }
}

/// The `len` keycodes of `v` from `start`.
fn window(v: &Vec<Keycode>, start: usize, len: usize) -> (r: Vec<Keycode>)
    requires
        start + len <= v@.len(),
    ensures
        r@ == v@.subrange(start as int, start + len),
{
    let mut r: Vec<Keycode> = Vec::new();
    let vl = v.len();
    let mut i: usize = 0;
    while i < len
        invariant
            i <= len,
            vl == v@.len(),
            start + len <= v@.len(),
            r@ == v@.subrange(start as int, start + i),
        decreases len - i,
    {
        r.push(v[start + i]);
        assert(v@.subrange(start as int, start + i + 1) =~= v@.subrange(start as int, start + i).push(v@[start + i]));
        i = i + 1;
    }
    r
}

impl SingleGramFrequencies<u32> {
    /// Counts every window of `n` consecutive keycodes of the decoded `s`;
    /// `None` when `s` decodes to fewer than `n` keycodes. Fails only when
    /// the decoded text is too long for the counts.
    pub fn try_from_string(s: &str, n: usize, options: &KeycodeOptions) -> (r: Result<Option<Self>, AlcError>)
        ensures
            r.is_err() <==> spec_decode_string(s@, *options).len() >= u32::MAX,
            r matches Ok(None) ==> spec_decode_string(s@, *options).len() < n,
            r matches Ok(Some(h)) ==> {
                let ks = spec_decode_string(s@, *options);
                &&& n <= ks.len()
                &&& h.wf()
                &&& h.ngram_len() == n
                &&& h.spec_total() == ks.len() - n + 1
                &&& forall|g: Seq<Keycode>| #[trigger] h.count(g) == window_count(ks, n as nat, g, (ks.len() - n + 1) as nat)
            },
            spec_decode_string(s@, *options).len() < u32::MAX && n <= spec_decode_string(s@, *options).len()
                ==> r matches Ok(Some(_)),
    {
        let keycodes = Keycode::from_string(s, options);
        let ghost ks = keycodes@;
        let kl = keycodes.len();
        if kl >= 4294967295usize {
            return Err(AlcError::GenericError(crate::text::message("text too long to count")));
        }
        assert(ks.len() < u32::MAX);
        if kl < n {
            return Ok(None);
        }
        assert(n <= kl && kl < 4294967295);
        let mut h = Self::new(n);
        let count = kl - n + 1;
        let mut i: usize = 0;
        while i < count
            invariant
                i <= count,
                count == ks.len() - n + 1,
                ks == keycodes@,
                ks.len() < u32::MAX,
                n <= ks.len(),
                h.wf(),
                h.ngram_len() == n,
                h.spec_total() == i,
                forall|g: Seq<Keycode>| #[trigger] h.count(g) == window_count(ks, n as nat, g, i as nat),
            decreases count - i,
        {
            let w = window(&keycodes, i, n);
            let ghost wv = w@;
            proof {
                lemma_window_count_bound(ks, n as nat, wv, i as nat);
            }
            let g = Ngram::new(w);
            let r = h.add_from_key_value(g, 1);
            assert(r.is_ok());
            assert forall|x: Seq<Keycode>| #[trigger] h.count(x) == window_count(ks, n as nat, x, (i + 1) as nat) by {
                assert(ks.subrange(i as int, i + n) == wv);
            }
            i = i + 1;
        }
        Ok(Some(h))
    }

    /// Keeps the `amount` most frequent ngrams (all of them for `All`) and
    /// recomputes the total from what is kept; ties fall either way.
    pub fn take_top_frequencies(&mut self, amount: TopFrequenciesToTake)
        requires
            old(self).wf(),
        ensures
            final(self).wf(),
            final(self).ngram_len() == old(self).ngram_len(),
            final(self).entries().len() == match amount {
                TopFrequenciesToTake::All => old(self).entries().len(),
                TopFrequenciesToTake::Num(k) => if k < old(self).entries().len() {
                    k as nat
                } else {
                    old(self).entries().len()
                },
            },
            forall|i: int| 0 <= i < final(self).entries().len() ==> old(self).entries().contains(#[trigger] final(self).entries()[i]),
            forall|i: int, j: int|
                0 <= i < final(self).entries().len() && 0 <= j < old(self).entries().len()
                    && !final(self).entries().contains(#[trigger] old(self).entries()[j]) ==> (#[trigger] final(self).entries()[i]).1
                    >= old(self).entries()[j].1,
            final(self).spec_total() == sum_counts(final(self).entries()),
    {
        let k = match amount {
            TopFrequenciesToTake::All => self.frequencies.len(),
            TopFrequenciesToTake::Num(k) => if k < self.frequencies.len() {
                k
            } else {
                self.frequencies.len()
            },
        };
        if k == self.frequencies.len() {
            return;
        }
        let ghost ov = self.entries();
        let len = self.frequencies.len();
        let mut taken: Vec<bool> = Vec::new();
        let mut j: usize = 0;
        while j < len
            invariant
                j <= len,
                taken@.len() == j,
                forall|x: int| 0 <= x < j ==> !(#[trigger] taken@[x]),
            decreases len - j,
        {
            taken.push(false);
            j = j + 1;
        }
        proof {
            lemma_count_true_none(taken@);
        }
        let mut t: usize = 0;
        while t < k
            invariant
                t <= k,
                k < len,
                len == ov.len(),
                ov == self.entries(),
                self.wf(),
                taken@.len() == len,
                count_true(taken@) == t,
                forall|y: int, x: int|
                    0 <= y < len && 0 <= x < len && #[trigger] taken@[y] && !#[trigger] taken@[x] ==> ov[y].1 >= ov[x].1,
            decreases k - t,
        {
            let mut best: usize = len;
            let mut x: usize = 0;
            while x < len
                invariant
                    x <= len,
                    len == ov.len(),
                    ov == self.entries(),
                    taken@.len() == len,
                    best == len || (best < x && !taken@[best as int]),
                    best == len ==> forall|y: int| 0 <= y < x ==> #[trigger] taken@[y],
                    best < len ==> forall|y: int| 0 <= y < x && !taken@[y] ==> ov[best as int].1 >= (#[trigger] ov[y]).1,
                decreases len - x,
            {
                assert(ov[x as int].1 == self.frequencies@[x as int].1);
                if best < len {
                    assert(ov[best as int].1 == self.frequencies@[best as int].1);
                }
                if !taken[x] && (best == len || self.frequencies[x].1 > self.frequencies[best].1) {
                    best = x;
                }
                x = x + 1;
            }
            if best == len {
                proof {
                    lemma_count_true_all(taken@);
                }
                assert(false);
            }
            let ghost before = taken@;
            taken.set(best, true);
            proof {
                lemma_count_true_set(before, best as int);
            }
            t = t + 1;
        }
        let mut kept: Vec<(Ngram, u32)> = Vec::new();
        let mut total: u64 = 0;
        let mut x: usize = 0;
        while x < len
            invariant
                x <= len,
                len == ov.len(),
                ov == self.entries(),
                self.wf(),
                taken@.len() == len,
                kept@.len() == count_true(taken@.subrange(0, x as int)),
                total == sum_counts(entries_view(kept@)),
                total <= sum_counts(ov.subrange(0, x as int)),
                forall|a: int|
                    #![trigger entries_view(kept@)[a]]
                    0 <= a < kept@.len() ==> exists|y: int| 0 <= y < x && #[trigger] taken@[y] && entries_view(kept@)[a] == ov[y],
                forall|y: int| 0 <= y < x && #[trigger] taken@[y] ==> entries_view(kept@).contains(ov[y]),
                keys_unique(entries_view(kept@)),
                keys_unique(ov),
            decreases len - x,
        {
            proof {
                lemma_sum_prefix(ov, x as int + 1);
                assert(ov.subrange(0, x + 1).drop_last() =~= ov.subrange(0, x as int));
                assert(taken@.subrange(0, x + 1).drop_last() =~= taken@.subrange(0, x as int));
            }
            if taken[x] {
                let c = self.frequencies[x].1;
                let e = (self.frequencies[x].0.duplicate(), c);
                assert((e.0@, e.1) == ov[x as int]);
                let ghost kv = kept@;
                kept.push(e);
                assert(entries_view(kept@) =~= entries_view(kv).push(ov[x as int]));
                assert(entries_view(kept@).drop_last() =~= entries_view(kv));
                total = total + c as u64;
                assert forall|y: int| 0 <= y < x + 1 && #[trigger] taken@[y] implies entries_view(kept@).contains(ov[y]) by {
                    if y < x {
                        let a = choose|a: int| 0 <= a < kv.len() && entries_view(kv)[a] == ov[y];
                        assert(entries_view(kept@)[a] == ov[y]);
                    } else {
                        assert(entries_view(kept@)[kv.len() as int] == ov[y]);
                    }
                }
                assert forall|a: int, b: int| 0 <= a < b < kept@.len() implies (#[trigger] entries_view(kept@)[a]).0 != (#[trigger] entries_view(kept@)[b]).0 by {
                    if b == kv.len() {
                        let ya = choose|ya: int| 0 <= ya < x && #[trigger] taken@[ya] && entries_view(kv)[a] == ov[ya];
                        assert(entries_view(kept@)[a] == ov[ya]);
                        assert(entries_view(kept@)[b] == ov[x as int]);
                    } else {
                        assert(entries_view(kept@)[a] == entries_view(kv)[a]);
                        assert(entries_view(kept@)[b] == entries_view(kv)[b]);
                    }
                }
            }
            x = x + 1;
        }
        proof {
            let kv = entries_view(kept@);
            assert(taken@.subrange(0, len as int) =~= taken@);
            assert forall|a: int| 0 <= a < kv.len() implies ov.contains(#[trigger] kv[a]) by {
                let y = choose|y: int| 0 <= y < len && #[trigger] taken@[y] && kv[a] == ov[y];
            }
            assert forall|a: int, y: int|
                0 <= a < kv.len() && 0 <= y < len && !kv.contains(#[trigger] ov[y]) implies (#[trigger] kv[a]).1 >= ov[y].1 by {
                let z = choose|z: int| 0 <= z < len && #[trigger] taken@[z] && kv[a] == ov[z];
                if taken@[y] {
                    assert(kv.contains(ov[y]));
                }
            }
            assert forall|a: int| 0 <= a < kv.len() implies (#[trigger] kv[a]).0.len() == self.ngram_len() by {
                let y = choose|y: int| 0 <= y < len && #[trigger] taken@[y] && kv[a] == ov[y];
            }
            assert(ov.subrange(0, len as int) =~= ov);
        }
        self.frequencies = kept;
        self.total = total;
    }
}

/// The number of `true` flags.
pub open spec fn count_true(s: Seq<bool>) -> nat
    decreases s.len(),
{
    if s.len() == 0 {
        0
    } else {
        count_true(s.drop_last()) + if s.last() {
            1nat
        } else {
            0nat
        }
    }
}

pub proof fn lemma_count_true_none(s: Seq<bool>)
    requires
        forall|x: int| 0 <= x < s.len() ==> !(#[trigger] s[x]),
    ensures
        count_true(s) == 0,
    decreases s.len(),
{
    if s.len() > 0 {
        lemma_count_true_none(s.drop_last());
    }
}

pub proof fn lemma_count_true_all(s: Seq<bool>)
    requires
        forall|x: int| 0 <= x < s.len() ==> #[trigger] s[x],
    ensures
        count_true(s) == s.len(),
    decreases s.len(),
{
    if s.len() > 0 {
        lemma_count_true_all(s.drop_last());
    }
}

pub proof fn lemma_count_true_set(s: Seq<bool>, i: int)
    requires
        0 <= i < s.len(),
        !s[i],
    ensures
        count_true(s.update(i, true)) == count_true(s) + 1,
    decreases s.len(),
{
    if i < s.len() - 1 {
        lemma_count_true_set(s.drop_last(), i);
        assert(s.update(i, true).drop_last() =~= s.drop_last().update(i, true));
    } else {
        assert(s.update(i, true).drop_last() =~= s.drop_last());
    }
}

} // verus!
