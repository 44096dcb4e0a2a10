//! Cumulative frequencies over a fixed list of byte symbols, kept in a
//! Fenwick (binary indexed) tree.
use vstd::prelude::*;

use crate::mtf::{lemma_position, position};

verus! {

/// Sum of `v[lo..hi]`.
pub open spec fn range_sum(v: Seq<usize>, lo: int, hi: int) -> nat
    decreases hi - lo,
{
    if hi <= lo {
        0
    } else {
        (range_sum(v, lo, hi - 1) + v[hi - 1]) as nat
    }
}

/// Sum of `s`, first element first.
pub open spec fn front_sum(s: Seq<usize>) -> nat
    decreases s.len(),
{
    if s.len() == 0 {
        0
    } else {
        (s[0] + front_sum(s.drop_first())) as nat
    }
}

/// Index of the first entry whose cumulative range `[low, high)` holds `v`.
pub open spec fn find_index_from(v: Seq<usize>, x: nat, i: nat) -> Option<nat>
    decreases v.len() - i,
{
    if i >= v.len() {
        None
    } else if range_sum(v, 0, i as int) <= x < range_sum(v, 0, (i + 1) as int) {
        Some(i)
    } else {
        find_index_from(v, x, i + 1)
    }
}

proof fn lemma_range_sum_shift(s: Seq<usize>, hi: int)
    requires
        1 <= hi <= s.len(),
    ensures
        range_sum(s, 1, hi) == range_sum(s.drop_first(), 0, hi - 1),
    decreases hi,
{
    if hi > 1 {
        lemma_range_sum_shift(s, hi - 1);
    }
}

/// Summing from the back and from the front agree.
pub proof fn lemma_front_sum(s: Seq<usize>)
    ensures
        range_sum(s, 0, s.len() as int) == front_sum(s),
    decreases s.len(),
{
    if s.len() > 0 {
        lemma_range_sum_split(s, 0, 1, s.len() as int);
        lemma_range_sum_shift(s, s.len() as int);
        lemma_front_sum(s.drop_first());
        assert(range_sum(s, 0, 0) == 0);
    }
}

/// The lowest set bit of `i`, as a number.
pub open spec fn lowbit(i: nat) -> nat
    decreases i,
{
    if i == 0 {
        0
    } else if i % 2 == 1 {
        1
    } else {
        2 * lowbit(i / 2)
    }
}

pub proof fn lemma_range_sum_split(v: Seq<usize>, lo: int, mid: int, hi: int)
    requires
        lo <= mid <= hi,
    ensures
        range_sum(v, lo, hi) == range_sum(v, lo, mid) + range_sum(v, mid, hi),
    decreases hi - mid,
{
    if mid < hi {
        lemma_range_sum_split(v, lo, mid, hi - 1);
    }
}

fn lowest_bit(i: usize) -> (r: usize)
    requires
        i >= 1,
    ensures
        r as nat == lowbit(i as nat),
        1 <= r <= i,
    decreases i,
{
    if i % 2 == 1 {
        1
    } else {
        2 * lowest_bit(i / 2)
    }
}

/// Cumulative frequency table over an ordered list of symbols.
pub struct FenwickTree {
    symbols: Vec<u8>,
    values: Vec<usize>,
    sum: Vec<usize>,
}

impl FenwickTree {
    /// The symbols, in their fixed order.
    pub closed spec fn symbols(&self) -> Seq<u8> {
        self.symbols@
    }

    /// The frequency of each symbol, in the same order.
    pub closed spec fn freqs(&self) -> Seq<usize> {
        self.values@
    }

    /// Sum of the frequencies of the first `i` symbols.
    pub open spec fn prefix(&self, i: int) -> nat {
        range_sum(self.freqs(), 0, i)
    }

    /// Sum of all frequencies.
    pub open spec fn total(&self) -> nat {
        self.prefix(self.freqs().len() as int)
    }

    /// Half-open cumulative range `[low, high)` of the symbol at index `i`.
    pub open spec fn bounds_at(&self, i: int) -> (nat, nat) {
        (self.prefix(i), self.prefix(i + 1))
    }

    spec fn table_ok(&self, n: int) -> bool {
        forall|i: int|
            1 <= i <= n ==> #[trigger] self.sum@[i - 1] as nat == range_sum(
                self.values@,
                i - lowbit(i as nat),
                i,
            )
    }

    pub closed spec fn wf(&self) -> bool {
        &&& self.symbols@.len() == self.values@.len()
        &&& self.sum@.len() == self.values@.len()
        &&& self.table_ok(self.values@.len() as int)
        &&& self.total() <= usize::MAX
    }

    /// A well-formed table has one frequency per symbol, and a total that
    /// fits in a `usize`.
    pub proof fn lemma_wf(&self)
        requires
            self.wf(),
        ensures
            self.symbols().len() == self.freqs().len(),
            self.total() <= usize::MAX,
    {
    }

    /// Builds the table from `(symbol, frequency)` pairs, kept in the given
    /// order.
    pub fn new(freq: Vec<(u8, usize)>) -> (r: Self)
        requires
            range_sum(freq@.map_values(|p: (u8, usize)| p.1), 0, freq@.len() as int) <= usize::MAX,
        ensures
            r.wf(),
            r.symbols() == freq@.map_values(|p: (u8, usize)| p.0),
            r.freqs() == freq@.map_values(|p: (u8, usize)| p.1),
    {
        let mut tree = FenwickTree { symbols: Vec::new(), values: Vec::new(), sum: Vec::new() };
        let mut i: usize = 0;
        while i < freq.len()
            invariant
                i <= freq@.len(),
                tree.symbols@ == freq@.subrange(0, i as int).map_values(|p: (u8, usize)| p.0),
                tree.values@ == freq@.subrange(0, i as int).map_values(|p: (u8, usize)| p.1),
                tree.sum@.len() == i,
            decreases freq@.len() - i,
        {
            let (s, f) = freq[i];
            tree.symbols.push(s);
            tree.values.push(f);
            tree.sum.push(0);
            i += 1;
            assert(tree.symbols@ =~= freq@.subrange(0, i as int).map_values(|p: (u8, usize)| p.0));
            assert(tree.values@ =~= freq@.subrange(0, i as int).map_values(|p: (u8, usize)| p.1));
        }
        assert(freq@.subrange(0, i as int) =~= freq@);
        tree.update();
        tree
    }

    /// Recomputes the partial-sum table from the frequencies.
    fn update(&mut self)
        requires
            old(self).symbols@.len() == old(self).values@.len(),
            old(self).sum@.len() == old(self).values@.len(),
            old(self).total() <= usize::MAX,
        ensures
            final(self).wf(),
            final(self).symbols@ == old(self).symbols@,
            final(self).values@ == old(self).values@,
    {
        let n = self.values.len();
        let mut k: usize = 0;
        while k < n
            invariant
                k <= n,
                n == self.values@.len(),
                self.symbols@ == old(self).symbols@,
                self.values@ == old(self).values@,
                self.sum@.len() == n,
                self.total() <= usize::MAX,
                self.table_ok(k as int),
            decreases n - k,
        {
            let i = k + 1;
            let lsb = lowest_bit(i);
            let parent = i - lsb;
            let mut s: usize = 0;
            let mut j: usize = parent;
            proof {
                lemma_range_sum_split(self.values@, 0, parent as int, n as int);
            }
            while j < i
                invariant
                    parent <= j <= i <= n,
                    n == self.values@.len(),
                    s as nat == range_sum(self.values@, parent as int, j as int),
                    range_sum(self.values@, parent as int, n as int) <= usize::MAX,
                decreases i - j,
            {
                proof {
                    lemma_range_sum_split(self.values@, parent as int, j + 1, n as int);
                }
                s = s + self.values[j];
                j += 1;
            }
            self.sum.set(i - 1, s);
            k += 1;
        }
    }

    /// Sum of the frequencies of the symbols at indices `0..=index`.
    pub fn sum(&self, index: usize) -> (r: usize)
        requires
            self.wf(),
            index < self.freqs().len(),
        ensures
            r as nat == self.prefix(index + 1),
    {
        let n = self.values.len();
        let mut i: usize = index + 1;
        let mut acc: usize = 0;
        proof {
            lemma_range_sum_split(self.values@, 0, i as int, self.values@.len() as int);
        }
        while i > 0
            invariant
                i <= index + 1 <= self.values@.len(),
                self.wf(),
                acc + range_sum(self.values@, 0, i as int) == self.prefix(index + 1),
                self.prefix(index + 1) <= usize::MAX,
            decreases i,
        {
            let lsb = lowest_bit(i);
            let parent = i - lsb;
            proof {
                assert(self.sum@[i - 1] as nat == range_sum(self.values@, parent as int, i as int));
                lemma_range_sum_split(self.values@, 0, parent as int, i as int);
            }
            acc = acc + self.sum[i - 1];
            i = parent;
        }
        acc
    }

    /// Sum of all frequencies.
    pub fn total_sum(&self) -> (r: usize)
        requires
            self.wf(),
        ensures
            r as nat == self.total(),
    {
        if self.values.len() == 0 {
            0
        } else {
            self.sum(self.values.len() - 1)
        }
    }

    /// Sum of all frequencies.
    pub fn get_total_count(&self) -> (r: usize)
        requires
            self.wf(),
        ensures
            r as nat == self.total(),
    {
        self.total_sum()
    }

    /// Number of symbols.
    pub fn len(&self) -> (r: usize)
        ensures
            r as nat == self.freqs().len(),
    {
        self.values.len()
    }

    fn index_of(&self, symbol: u8) -> (r: usize)
        requires
            self.wf(),
            self.symbols().contains(symbol),
        ensures
            r as int == position(self.symbols(), symbol),
            r < self.freqs().len(),
    {
        proof {
            lemma_position(self.symbols@, symbol);
        }
        let n = self.symbols.len();
        let mut i: usize = 0;
        while self.symbols[i] != symbol
            invariant
                n == self.symbols@.len(),
                0 <= i <= position(self.symbols@, symbol),
                0 <= position(self.symbols@, symbol) < self.symbols@.len(),
                self.symbols@[position(self.symbols@, symbol)] == symbol,
            decreases self.symbols@.len() - i,
        {
            i += 1;
        }
        i
    }

    /// Adds one occurrence of `symbol`.
    pub fn add_count(&mut self, symbol: u8)
        requires
            old(self).wf(),
            old(self).symbols().contains(symbol),
            old(self).total() < usize::MAX,
        ensures
            final(self).wf(),
            final(self).symbols() == old(self).symbols(),
            final(self).freqs() == old(self).freqs().update(
                position(old(self).symbols(), symbol),
                (old(self).freqs()[position(old(self).symbols(), symbol)] + 1) as usize,
            ),
    {
        let index = self.index_of(symbol);
        let ghost before = self.values@;
        proof {
            lemma_range_sum_split(before, 0, index as int, before.len() as int);
            lemma_range_sum_split(before, index as int, index + 1, before.len() as int);
        }
        let v = self.values[index];
        self.values.set(index, v + 1);
        proof {
            lemma_update_sum(before, index as int, (v + 1) as usize);
        }
        self.update();
    }

    /// Removes one occurrence of `symbol`.
    pub fn reduce_count(&mut self, symbol: u8)
        requires
            old(self).wf(),
            old(self).symbols().contains(symbol),
            old(self).freqs()[position(old(self).symbols(), symbol)] > 0,
        ensures
            final(self).wf(),
            final(self).symbols() == old(self).symbols(),
            final(self).freqs() == old(self).freqs().update(
                position(old(self).symbols(), symbol),
                (old(self).freqs()[position(old(self).symbols(), symbol)] - 1) as usize,
            ),
    {
        let index = self.index_of(symbol);
        let ghost before = self.values@;
        let v = self.values[index];
        self.values.set(index, v - 1);
        proof {
            lemma_update_sum(before, index as int, (v - 1) as usize);
        }
        self.update();
    }

    /// The half-open cumulative range of `symbol`.
    pub fn get_bounds(&self, symbol: u8) -> (r: (usize, usize))
        requires
            self.wf(),
            self.symbols().contains(symbol),
        ensures
            r.0 as nat == self.bounds_at(position(self.symbols(), symbol)).0,
            r.1 as nat == self.bounds_at(position(self.symbols(), symbol)).1,
    {
        let index = self.index_of(symbol);
        self.bounds_of_index(index)
    }

    fn bounds_of_index(&self, index: usize) -> (r: (usize, usize))
        requires
            self.wf(),
            index < self.freqs().len(),
        ensures
            r.0 as nat == self.bounds_at(index as int).0,
            r.1 as nat == self.bounds_at(index as int).1,
    {
        let low = if index == 0 {
            0
        } else {
            self.sum(index - 1)
        };
        let high = self.sum(index);
        (low, high)
    }

    /// Index of the first symbol whose cumulative range contains `range`.
    pub fn find_index(&self, range: usize) -> (r: Option<usize>)
        requires
            self.wf(),
        ensures
            match r {
                Some(i) => find_index_from(self.freqs(), range as nat, 0) == Some(i as nat),
                None => find_index_from(self.freqs(), range as nat, 0) is None,
            },
    {
        let mut i: usize = 0;
        while i < self.values.len()
            invariant
                self.wf(),
                i <= self.freqs().len(),
                find_index_from(self.freqs(), range as nat, 0) == find_index_from(self.freqs(), range as nat, i as nat),
            decreases self.freqs().len() - i,
        {
            let (low, high) = self.bounds_of_index(i);
            if low <= range && range < high {
                return Some(i);
            }
            i += 1;
        }
        None
    }

    /// The half-open cumulative range of the symbol at `index`.
    pub fn get_bounds_at(&self, index: usize) -> (r: (usize, usize))
        requires
            self.wf(),
            index < self.freqs().len(),
        ensures
            r.0 as nat == self.bounds_at(index as int).0,
            r.1 as nat == self.bounds_at(index as int).1,
    {
        self.bounds_of_index(index)
    }

    /// The symbol at `index`.
    pub fn symbol_at(&self, index: usize) -> (r: u8)
        requires
            self.wf(),
            index < self.freqs().len(),
        ensures
            r == self.symbols()[index as int],
    {
        self.symbols[index]
    }

    /// The symbol whose cumulative range contains `range`, if any.
    pub fn search_range(&self, range: usize) -> (r: Option<u8>)
        requires
            self.wf(),
        ensures
            match r {
                Some(s) => exists|i: int|
                    0 <= i < self.freqs().len() && self.symbols()[i] == s && #[trigger] self.bounds_at(i).0
                        <= range < self.bounds_at(i).1,
                None => forall|i: int|
                    0 <= i < self.freqs().len() ==> !(#[trigger] self.bounds_at(i).0 <= range
                        < self.bounds_at(i).1),
            },
    {
        let mut i: usize = 0;
        while i < self.values.len()
            invariant
                self.wf(),
                i <= self.freqs().len(),
                forall|t: int|
                    0 <= t < i ==> !(#[trigger] self.bounds_at(t).0 <= range < self.bounds_at(t).1),
            decreases self.freqs().len() - i,
        {
            let (low, high) = self.bounds_of_index(i);
            if low <= range && range < high {
                return Some(self.symbols[i]);
            }
            i += 1;
        }
        None
    }
}

proof fn lemma_update_sum(v: Seq<usize>, k: int, x: usize)
    requires
        0 <= k < v.len(),
    ensures
        range_sum(v.update(k, x), 0, v.len() as int) + v[k] == range_sum(v, 0, v.len() as int)
            + x,
{
    let w = v.update(k, x);
    assert(range_sum(v, k, k) == 0);
    assert(range_sum(w, k, k) == 0);
    assert(range_sum(v, k, k + 1) == v[k]);
    assert(range_sum(w, k, k + 1) == x);
    lemma_range_sum_split(v, 0, k, v.len() as int);
    lemma_range_sum_split(w, 0, k, v.len() as int);
    lemma_range_sum_split(v, k, k + 1, v.len() as int);
    lemma_range_sum_split(w, k, k + 1, v.len() as int);
    lemma_range_sum_same(v, w, 0, k);
    lemma_range_sum_same(v, w, k + 1, v.len() as int);
}

proof fn lemma_range_sum_same(v: Seq<usize>, w: Seq<usize>, lo: int, hi: int)
    requires
        0 <= lo,
        hi <= v.len(),
        hi <= w.len(),
        forall|t: int| lo <= t < hi ==> v[t] == w[t],
    ensures
        range_sum(v, lo, hi) == range_sum(w, lo, hi),
    decreases hi - lo,
{
    if lo < hi {
        lemma_range_sum_same(v, w, lo, hi - 1);
    }
}

} // verus!
