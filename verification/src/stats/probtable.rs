//! # Rank table
//!
//! A table that counts the occurrences of symbols and keeps the symbols
//! in the order of their counts, the most frequent first. The position of
//! a symbol in that order is its *rank*.
//!
//! The entries live in an arena and keep their place there for good. A
//! hash index leads from a symbol to its entry, and a vector of handles
//! holds the order, so that both the rank of a symbol and the symbol of a
//! rank are found in one step.
use std::collections::HashMap;
use std::fmt::Debug;
use std::hash::Hash;
use vstd::prelude::*;
use vstd::std_specs::hash::obeys_key_model;

verus! {

/// What can be counted: symbols that can be compared, hashed and copied.
pub trait Countable: Eq + Hash + Clone + Debug {

}

impl<T> Countable for T where T: Eq + Hash + Clone + Debug {

}

/// What the table takes for granted of its symbols: that equal symbols
/// are the same symbol and hash alike, and that the copy of a symbol is
/// the symbol.
pub open spec fn countable<T: Clone>() -> bool {
    &&& obeys_key_model::<T>()
    &&& forall|a: T, b: T| #[trigger] cloned::<T>(a, b) ==> a == b
}

/// Bytes can be counted.
pub proof fn lemma_bytes_countable()
    ensures
        countable::<u8>(),
{
}

/// An entry of the table as the model has it: a symbol and how often it
/// has been inserted.
pub struct Entry<T> {
    pub symbol: T,
    pub count: nat,
}

/// Whether `symbol` has an entry.
pub open spec fn listed<T>(entries: Seq<Entry<T>>, symbol: T) -> bool {
    exists|i: int| 0 <= i < entries.len() && (#[trigger] entries[i]).symbol == symbol
}

/// The rank of `symbol`, where it has an entry.
pub open spec fn rank_of<T>(entries: Seq<Entry<T>>, symbol: T) -> int {
    choose|i: int| 0 <= i < entries.len() && (#[trigger] entries[i]).symbol == symbol
}

/// No symbol has two entries.
pub open spec fn distinct<T>(entries: Seq<Entry<T>>) -> bool {
    forall|i: int, j: int|
        0 <= i < j < entries.len() ==> (#[trigger] entries[i]).symbol != (
        #[trigger] entries[j]).symbol
}

/// From rank to rank the counts do not go up.
pub open spec fn descending<T>(entries: Seq<Entry<T>>) -> bool {
    forall|i: int, j: int|
        0 <= i <= j < entries.len() ==> (#[trigger] entries[i]).count >= (
        #[trigger] entries[j]).count
}

/// Every symbol of the table has been inserted at least once.
pub open spec fn counted<T>(entries: Seq<Entry<T>>) -> bool {
    forall|i: int| 0 <= i < entries.len() ==> (#[trigger] entries[i]).count >= 1
}

/// What holds of the entries of every table.
pub open spec fn ranked<T>(entries: Seq<Entry<T>>) -> bool {
    &&& distinct(entries)
    &&& descending(entries)
    &&& counted(entries)
}

/// A count after one more occurrence. A count stops at the largest
/// number that the machine holds.
pub open spec fn bumped(count: nat) -> nat {
    if count < usize::MAX {
        count + 1
    } else {
        count
    }
}

/// The first rank from `from` on whose count is below `count`, or `to`
/// where there is none before it.
pub open spec fn first_below<T>(entries: Seq<Entry<T>>, count: nat, from: int, to: int) -> int
    decreases to - from,
{
    if from >= to {
        to
    } else if entries[from].count < count {
        from
    } else {
        first_below(entries, count, from + 1, to)
    }
}

/// The entries with those at the ranks `a` and `b` in each other's place.
pub open spec fn swapped<T>(entries: Seq<Entry<T>>, a: int, b: int) -> Seq<Entry<T>> {
    entries.update(a, entries[b]).update(b, entries[a])
}

/// The entries with the one at rank `at` moved up to the first rank
/// whose count is below its own; the entry of that rank takes its place.
pub open spec fn promoted<T>(entries: Seq<Entry<T>>, at: int) -> Seq<Entry<T>> {
    swapped(entries, first_below(entries, entries[at].count, 0, at), at)
}

/// The rank at which `symbol` is counted: its own where it has an
/// entry, else the one behind all others.
pub open spec fn place_of<T>(entries: Seq<Entry<T>>, symbol: T) -> int {
    if listed(entries, symbol) {
        rank_of(entries, symbol)
    } else {
        entries.len() as int
    }
}

/// The entries with one more occurrence of `symbol` counted, before it
/// is moved up.
pub open spec fn counted_in<T>(entries: Seq<Entry<T>>, symbol: T) -> Seq<Entry<T>> {
    if listed(entries, symbol) {
        let at = rank_of(entries, symbol);
        entries.update(at, Entry { symbol, count: bumped(entries[at].count) })
    } else {
        entries.push(Entry { symbol, count: 1 })
    }
}

/// The entries after `symbol` has been inserted.
pub open spec fn inserted<T>(entries: Seq<Entry<T>>, symbol: T) -> Seq<Entry<T>> {
    promoted(counted_in(entries, symbol), place_of(entries, symbol))
}

/// The rank of `symbol` after it has been inserted.
pub open spec fn inserted_rank<T>(entries: Seq<Entry<T>>, symbol: T) -> int {
    let at = place_of(entries, symbol);
    let placed = counted_in(entries, symbol);
    first_below(placed, placed[at].count, 0, at)
}

/// The entries after all of `symbols` have been inserted, the first one
/// first.
pub open spec fn fed<T>(entries: Seq<Entry<T>>, symbols: Seq<T>) -> Seq<Entry<T>>
    decreases symbols.len(),
{
    if symbols.len() == 0 {
        entries
    } else {
        inserted(fed(entries, symbols.drop_last()), symbols.last())
    }
}

/// The counts do not go up from rank to rank but for the entry at `at`,
/// whose count may be one more than its place allows.
pub open spec fn nearly_descending<T>(entries: Seq<Entry<T>>, at: int) -> bool {
    &&& forall|i: int, j: int|
        0 <= i <= j < entries.len() && i != at && j != at ==> (#[trigger] entries[i]).count >= (
        #[trigger] entries[j]).count
    &&& forall|j: int| at < j < entries.len() ==> entries[at].count >= (#[trigger] entries[j]).count
    &&& forall|i: int| 0 <= i < at ==> (#[trigger] entries[i]).count + 1 >= entries[at].count
}

/// Where the search for a lower count ends.
pub proof fn lemma_first_below<T>(entries: Seq<Entry<T>>, count: nat, from: int, to: int)
    requires
        0 <= from <= to <= entries.len(),
    ensures
        from <= first_below(entries, count, from, to) <= to,
        forall|j: int|
            from <= j < first_below(entries, count, from, to) ==> (#[trigger] entries[j]).count
                >= count,
        first_below(entries, count, from, to) < to ==> entries[first_below(
            entries,
            count,
            from,
            to,
        )].count < count,
    decreases to - from,
{
    if from < to && entries[from].count >= count {
        lemma_first_below(entries, count, from + 1, to);
    }
}

/// Moving up the one entry that may be out of place puts the counts in
/// order.
pub proof fn lemma_promoted_descending<T>(entries: Seq<Entry<T>>, at: int)
    requires
        0 <= at < entries.len(),
        nearly_descending(entries, at),
    ensures
        descending(promoted(entries, at)),
{
    let count = entries[at].count;
    let to = first_below(entries, count, 0, at);
    lemma_first_below(entries, count, 0, at);
    let after = promoted(entries, at);
    if to < at {
        assert(entries[to].count + 1 == count);
        assert forall|j: int| to <= j < at implies (#[trigger] entries[j]).count + 1 == count by {
            assert(entries[to].count >= entries[j].count);
        }
    }
    assert forall|i: int, j: int| 0 <= i <= j < after.len() implies (#[trigger] after[i]).count >= (
    #[trigger] after[j]).count by {
        let a = if i == to {
            at
        } else if i == at {
            to
        } else {
            i
        };
        let b = if j == to {
            at
        } else if j == at {
            to
        } else {
            j
        };
        assert(after[i] == entries[a]);
        assert(after[j] == entries[b]);
    }
}

/// An entry of the arena.
#[derive(Debug)]
struct Count<T> {
    val: T,
    count: usize,
    rank: usize,
}

impl<T: Countable> Count<T> {
    fn new(val: T, rank: usize) -> (r: Self)
        ensures
            r.val == val,
            r.count == 1,
            r.rank == rank,
    {
        Count { val, count: 1, rank }
    }

    fn inc(&mut self)
        ensures
            final(self).val == old(self).val,
            final(self).rank == old(self).rank,
            final(self).count == bumped(old(self).count as nat),
    {
        if self.count < usize::MAX {
            self.count += 1;
        }
    }
}

/// A sorted probability table implemented using a `HashMap` and and a `Vector`.
///
/// this table counts the occurrences of an element and saves it in a sorted
/// manner.
#[derive(Debug)]
pub struct ProbTable<T> {
    hm: HashMap<T, usize>,
    nodes: Vec<Count<T>>,
    sorted_vec: Vec<usize>,
}

impl<T: Countable> View for ProbTable<T> {
    type V = Seq<Entry<T>>;

    /// The entries in the order of their ranks.
    closed spec fn view(&self) -> Seq<Entry<T>> {
        Seq::new(
            self.sorted_vec@.len(),
            |r: int|
                Entry {
                    symbol: self.nodes@[self.sorted_vec@[r] as int].val,
                    count: self.nodes@[self.sorted_vec@[r] as int].count as nat,
                },
        )
    }
}

impl<T: Countable> Default for ProbTable<T> {
    /// An empty table.
    fn default() -> (r: Self)
        ensures
            countable::<T>() ==> r.wf(),
            r@ == Seq::<Entry<T>>::empty(),
    {
        Self::new()
    }
}

impl<T: Countable> ProbTable<T> {
    /// The index, the arena and the order speak of the same entries:
    /// each rank has its entry, each entry its rank and its place in the
    /// index.
    pub closed spec fn linked(&self) -> bool {
        let n = self.nodes@.len();
        &&& countable::<T>()
        &&& self.sorted_vec@.len() == n
        &&& forall|r: int|
            0 <= r < n ==> 0 <= #[trigger] self.sorted_vec@[r] < n
                && self.nodes@[self.sorted_vec@[r] as int].rank == r
        &&& forall|h: int|
            0 <= h < n ==> 0 <= (#[trigger] self.nodes@[h]).rank < n
                && self.sorted_vec@[self.nodes@[h].rank as int] == h
        &&& forall|h: int|
            0 <= h < n ==> self.hm@.contains_key((#[trigger] self.nodes@[h]).val)
                && self.hm@[self.nodes@[h].val] == h
        &&& forall|k: T| #[trigger]
            self.hm@.contains_key(k) ==> 0 <= self.hm@[k] < n
                && self.nodes@[self.hm@[k] as int].val == k
    }

    /// The invariant of the table.
    pub closed spec fn wf(&self) -> bool {
        &&& self.linked()
        &&& descending(self@)
        &&& counted(self@)
    }

    /// What the invariant says of the entries.
    pub proof fn lemma_wf_ranked(&self)
        requires
            self.wf(),
        ensures
            ranked(self@),
    {
        self.lemma_linked_distinct();
    }

    proof fn lemma_linked_distinct(&self)
        requires
            self.linked(),
        ensures
            distinct(self@),
            forall|k: T| listed(self@, k) <==> self.hm@.contains_key(k),
            forall|k: T| #[trigger]
                self.hm@.contains_key(k) ==> rank_of(self@, k) == self.nodes@[self.hm@[k] as int].rank,
    {
        let entries = self@;
        assert forall|i: int, j: int| 0 <= i < j < entries.len() implies (
        #[trigger] entries[i]).symbol != (#[trigger] entries[j]).symbol by {
            let hi = self.sorted_vec@[i];
            let hj = self.sorted_vec@[j];
            assert(self.nodes@[hi as int].rank == i);
            assert(self.nodes@[hj as int].rank == j);
        }
        assert forall|k: T| listed(self@, k) <==> self.hm@.contains_key(k) by {
            if listed(self@, k) {
                let i = rank_of(self@, k);
                let h = self.sorted_vec@[i];
                assert(self.nodes@[h as int].val == k);
            }
            if self.hm@.contains_key(k) {
                let h = self.hm@[k];
                let r = self.nodes@[h as int].rank;
                assert(entries[r as int].symbol == k);
            }
        }
        assert forall|k: T| #[trigger] self.hm@.contains_key(k) implies rank_of(self@, k)
            == self.nodes@[self.hm@[k] as int].rank by {
            let h = self.hm@[k];
            let r = self.nodes@[h as int].rank;
            assert(entries[r as int].symbol == k);
            let i = rank_of(self@, k);
            if i < r {
                assert(entries[i].symbol != entries[r as int].symbol);
            } else if r < i {
                assert(entries[r as int].symbol != entries[i].symbol);
            }
        }
    }

    /// Create a new `ProbTable`
    ///
    /// The table is well-formed where its symbols can be counted.
    pub fn new() -> (r: Self)
        ensures
            countable::<T>() ==> r.wf(),
            r@ == Seq::<Entry<T>>::empty(),
    {
        ProbTable { hm: HashMap::<T, usize>::new(), nodes: Vec::new(), sorted_vec: Vec::new() }
    }

    /// Create a new `ProbTable` with certain symbol capacity
    ///
    /// The table is well-formed where its symbols can be counted.
    pub fn with_capacity(capacity: usize) -> (r: Self)
        ensures
            countable::<T>() ==> r.wf(),
            r@ == Seq::<Entry<T>>::empty(),
    {
        ProbTable {
            hm: HashMap::<T, usize>::with_capacity(capacity),
            nodes: Vec::with_capacity(capacity),
            sorted_vec: Vec::with_capacity(capacity),
        }
    }

    /// Return number of unique elements in table
    pub fn members(&self) -> (r: usize)
        ensures
            r == self@.len(),
    {
        self.sorted_vec.len()
    }
    /// The symbols of the first `n` entries of the arena.
    closed spec fn symbols_upto(&self, n: int) -> Set<T> {
        Set::new(|k: T| exists|h: int| 0 <= h < n && (#[trigger] self.nodes@[h]).val == k)
    }

    proof fn lemma_symbols_len(&self, n: int)
        requires
            self.linked(),
            0 <= n <= self.nodes@.len(),
        ensures
            self.symbols_upto(n).finite(),
            self.symbols_upto(n).len() == n,
        decreases n,
    {
        if n == 0 {
            assert(self.symbols_upto(0) =~= Set::<T>::empty());
        } else {
            self.lemma_symbols_len(n - 1);
            let k = self.nodes@[n - 1].val;
            assert(!self.symbols_upto(n - 1).contains(k)) by {
                if self.symbols_upto(n - 1).contains(k) {
                    let h = choose|h: int| 0 <= h < n - 1 && (#[trigger] self.nodes@[h]).val == k;
                    assert(self.hm@[self.nodes@[h].val] == h);
                }
            }
            assert(self.symbols_upto(n) =~= self.symbols_upto(n - 1).insert(k));
        }
    }

    /// Return number of elements in the index of the table: as many as
    /// the table has members.
    pub fn indexed(&self) -> (r: usize)
        requires
            self.wf(),
        ensures
            r == self@.len(),
    {
        proof {
            let n = self.nodes@.len() as int;
            self.lemma_symbols_len(n);
            assert(self.symbols_upto(n) =~= self.hm@.dom()) by {
                assert forall|k: T| self.hm@.contains_key(k) implies self.symbols_upto(n).contains(
                    k,
                ) by {
                    let h = self.hm@[k] as int;
                    assert(self.nodes@[h].val == k);
                }
            }
        }
        self.hm.len()
    }

    /// Get rank of single element in table
    pub fn rank(&self, val: &T) -> (r: Option<usize>)
        requires
            self.wf(),
        ensures
            match r {
                Some(rank) => listed(self@, *val) && rank == rank_of(self@, *val),
                None => !listed(self@, *val),
            },
    {
        proof {
            self.lemma_linked_distinct();
        }
        match self.hm.get(val) {
            Some(handle) => Some(self.nodes[*handle].rank),
            None => None,
        }
    }

    /// Get count of single element in table
    pub fn count(&self, val: &T) -> (r: Option<usize>)
        requires
            self.wf(),
        ensures
            match r {
                Some(count) => listed(self@, *val) && count == self@[rank_of(self@, *val)].count,
                None => !listed(self@, *val),
            },
    {
        proof {
            self.lemma_linked_distinct();
        }
        match self.hm.get(val) {
            Some(handle) => Some(self.nodes[*handle].count),
            None => None,
        }
    }

    /// Get element at position of table
    pub fn position(&self, pos: usize) -> (r: Option<T>)
        requires
            self.wf(),
        ensures
            pos < self@.len() ==> r == Some(self@[pos as int].symbol),
            pos >= self@.len() ==> r is None,
    {
        if pos < self.sorted_vec.len() {
            let handle: usize = self.sorted_vec[pos];
            let n = self.nodes[handle].val.clone();
            proof {
                assert(cloned::<T>(self.nodes@[handle as int].val, n));
            }
            Some(n)
        } else {
            None
        }
    }

    /// Swap elements
    fn swap(&mut self, a: usize, b: usize)
        requires
            old(self).linked(),
            a < old(self)@.len(),
            b < old(self)@.len(),
        ensures
            final(self).linked(),
            final(self)@ == swapped(old(self)@, a as int, b as int),
    {
        let first: usize = self.sorted_vec[a];
        let second: usize = self.sorted_vec[b];
        self.nodes[first].rank = b;
        self.nodes[second].rank = a;
        self.sorted_vec[a] = second;
        self.sorted_vec[b] = first;
        proof {
            assert(self@ =~= swapped(old(self)@, a as int, b as int));
        }
    }

    /// Renormalize sorted vector
    fn renormalize(&mut self, ix: usize) -> (r: usize)
        requires
            old(self).linked(),
            ix < old(self)@.len(),
            nearly_descending(old(self)@, ix as int),
            counted(old(self)@),
        ensures
            final(self).wf(),
            final(self)@ == promoted(old(self)@, ix as int),
            r == first_below(old(self)@, old(self)@[ix as int].count, 0, ix as int),
    {
        let ghost entries = self@;
        let ref_count: usize = self.nodes[self.sorted_vec[ix]].count;
        let mut r: usize = ix;
        let mut i: usize = 0;
        while i < ix
            invariant_except_break
                r == ix,
                first_below(entries, ref_count as nat, 0, ix as int) == first_below(
                    entries,
                    ref_count as nat,
                    i as int,
                    ix as int,
                ),
            invariant
                i <= ix < entries.len(),
                self.linked(),
                self@ == entries,
                ref_count == entries[ix as int].count,
            ensures
                r <= ix,
                r == first_below(entries, ref_count as nat, 0, ix as int),
            decreases ix - i,
        {
            if self.nodes[self.sorted_vec[i]].count < ref_count {
                r = i;
                break ;
            }
            i += 1;
        }
        proof {
            lemma_promoted_descending(entries, ix as int);
        }
        self.swap(r, ix);
        r
    }

    /// Insert a single new data point to table
    ///
    /// The result is the rank of `val` after the insert.
    pub fn insert(&mut self, val: T) -> (r: usize)
        requires
            old(self).wf(),
        ensures
            final(self).wf(),
            final(self)@ == inserted(old(self)@, val),
            r == inserted_rank(old(self)@, val),
            listed(final(self)@, val),
            r == rank_of(final(self)@, val),
            r < final(self)@.len(),
            final(self)@[r as int].symbol == val,
    {
        proof {
            self.lemma_linked_distinct();
            self.lemma_wf_ranked();
            lemma_inserted_ranked(self@, val);
            lemma_position_of_rank(inserted(self@, val), val);
        }
        let ghost entries = self@;
        let found: Option<usize> = match self.hm.get(&val) {
            Some(handle) => Some(*handle),
            None => None,
        };
        match found {
            Some(handle) => {
                let ix: usize = self.nodes[handle].rank;
                self.nodes[handle].inc();
                proof {
                    assert(self@ =~= counted_in(entries, val));
                }
                self.renormalize(ix)
            },
            None => {
                let rank: usize = self.sorted_vec.len();
                let handle: usize = self.nodes.len();
                let copy = val.clone();
                proof {
                    assert(cloned::<T>(val, copy));
                }
                self.nodes.push(Count::new(copy, rank));
                self.hm.insert(val, handle);
                self.sorted_vec.push(handle);
                proof {
                    assert(self@ =~= counted_in(entries, val));
                }
                self.renormalize(rank)
            },
        }
    }
    /// Feed table with several values from a slice
    pub fn feed(&mut self, vals: &[T])
        requires
            old(self).wf(),
        ensures
            final(self).wf(),
            final(self)@ == fed(old(self)@, vals@),
    {
        let mut i: usize = 0;
        while i < vals.len()
            invariant
                i <= vals@.len(),
                self.wf(),
                self@ == fed(old(self)@, vals@.take(i as int)),
            decreases vals.len() - i,
        {
            let val = vals[i].clone();
            proof {
                self.lemma_linked_distinct();
                assert(cloned::<T>(vals@[i as int], val));
                assert(vals@.take(i + 1).drop_last() == vals@.take(i as int));
            }
            self.insert(val);
            i += 1;
        }
        proof {
            assert(vals@.take(i as int) == vals@);
        }
    }

    /// Get iterator over all elements sorted by number of occurrence (descending)
    pub fn iter(&self) -> (r: TableIterator<'_, T>)
        requires
            self.wf(),
        ensures
            r.wf(),
            r.entries() == self@,
            r.position() == 0,
    {
        TableIterator { table: self, count: 0 }
    }

    /// Return capacity of table
    pub fn capacity(&self) -> (r: usize)
        ensures
            r >= self@.len(),
    {
        vec_capacity(&self.sorted_vec)
    }

    /// What [`ProbTable::is_coherent`] looks at: each entry but the last
    /// keeps its own rank, and its count is not below that of the next.
    pub closed spec fn coherent(&self) -> bool {
        forall|ix: int|
            0 <= ix < self.sorted_vec@.len() - 1 ==> {
                let pred = #[trigger] self.sorted_vec@[ix];
                let node = self.sorted_vec@[ix + 1];
                &&& pred < self.nodes@.len()
                &&& node < self.nodes@.len()
                &&& self.nodes@[pred as int].rank == ix
                &&& self.nodes@[pred as int].count >= self.nodes@[node as int].count
            }
    }

    /// Check integrity of data structure
    pub fn is_coherent(&self) -> (r: bool)
        ensures
            r == self.coherent(),
            self.wf() ==> r,
    {
        proof {
            if self.wf() {
                assert forall|ix: int| 0 <= ix < self.sorted_vec@.len() - 1 implies {
                    let pred = #[trigger] self.sorted_vec@[ix];
                    let node = self.sorted_vec@[ix + 1];
                    &&& pred < self.nodes@.len()
                    &&& node < self.nodes@.len()
                    &&& self.nodes@[pred as int].rank == ix
                    &&& self.nodes@[pred as int].count >= self.nodes@[node as int].count
                } by {
                    assert(self@[ix].count >= self@[ix + 1].count);
                }
            }
        }
        if self.sorted_vec.len() == 0 {
            return true;
        }
        let last: usize = self.sorted_vec.len() - 1;
        let mut ix: usize = 0;
        while ix < last
            invariant
                ix <= last,
                last + 1 == self.sorted_vec@.len(),
                self.wf() ==> self.coherent(),
                forall|k: int|
                    0 <= k < ix ==> {
                        let pred = #[trigger] self.sorted_vec@[k];
                        let node = self.sorted_vec@[k + 1];
                        &&& pred < self.nodes@.len()
                        &&& node < self.nodes@.len()
                        &&& self.nodes@[pred as int].rank == k
                        &&& self.nodes@[pred as int].count >= self.nodes@[node as int].count
                    },
            decreases last - ix,
        {
            let pred: usize = self.sorted_vec[ix];
            let node: usize = self.sorted_vec[ix + 1];
            if pred >= self.nodes.len() || node >= self.nodes.len() {
                return false;
            }
            if ix != self.nodes[pred].rank || self.nodes[pred].count < self.nodes[node].count {
                return false;
            }
            ix += 1;
        }
        true
    }
}

/// Calls `Vec::capacity`: the number of elements that the vector has
/// room for, of which the standard library says that it is never below
/// the length.
#[verifier::external_body]
pub(crate) fn vec_capacity<T>(v: &Vec<T>) -> (r: usize)
    ensures
        r >= v@.len(),
{
    v.capacity()
}

/// Walks through the symbols of a table in the order of their ranks.
pub struct TableIterator<'a, T> where T: Countable + 'a {
    table: &'a ProbTable<T>,
    count: usize,
}

impl<'a, T> TableIterator<'a, T> where T: Countable + 'a {
    /// The table that is walked through is well-formed.
    pub closed spec fn wf(&self) -> bool {
        self.table.wf()
    }

    /// The entries that are walked through.
    pub closed spec fn entries(&self) -> Seq<Entry<T>> {
        self.table@
    }

    /// The number of symbols that were handed out.
    pub closed spec fn position(&self) -> nat {
        self.count as nat
    }

    /// Hands out the symbol of the next rank, as long as there is one.
    pub fn next(&mut self) -> (r: Option<T>)
        requires
            old(self).wf(),
        ensures
            final(self).wf(),
            final(self).entries() == old(self).entries(),
            old(self).position() < old(self).entries().len() ==> r == Some(
                old(self).entries()[old(self).position() as int].symbol,
            ) && final(self).position() == old(self).position() + 1,
            old(self).position() >= old(self).entries().len() ==> r is None
                && final(self).position() == old(self).position(),
    {
        if self.count < self.table.members() {
            let result = self.table.position(self.count);
            self.count += 1;
            result
        } else {
            None
        }
    }
}

/// In a table without doubles a symbol is found at its rank, and the
/// rank of the symbol at a rank is that rank.
pub proof fn lemma_position_of_rank<T>(entries: Seq<Entry<T>>, symbol: T)
    requires
        distinct(entries),
        listed(entries, symbol),
    ensures
        0 <= rank_of(entries, symbol) < entries.len(),
        entries[rank_of(entries, symbol)].symbol == symbol,
        forall|r: int|
            0 <= r < entries.len() && (#[trigger] entries[r]).symbol == symbol ==> r == rank_of(
                entries,
                symbol,
            ),
{
    let at = rank_of(entries, symbol);
    assert forall|r: int|
        0 <= r < entries.len() && (#[trigger] entries[r]).symbol == symbol implies r == at by {
        if r < at {
            assert(entries[r].symbol != entries[at].symbol);
        } else if at < r {
            assert(entries[at].symbol != entries[r].symbol);
        }
    }
}

/// Two entries in each other's place leave no doubles and no entry
/// without a count.
pub proof fn lemma_swapped_distinct<T>(entries: Seq<Entry<T>>, a: int, b: int)
    requires
        0 <= a < entries.len(),
        0 <= b < entries.len(),
        distinct(entries),
        counted(entries),
    ensures
        distinct(swapped(entries, a, b)),
        counted(swapped(entries, a, b)),
{
    let after = swapped(entries, a, b);
    let back = |i: int|
        if i == a {
            b
        } else if i == b {
            a
        } else {
            i
        };
    assert forall|i: int, j: int| 0 <= i < j < after.len() implies (#[trigger] after[i]).symbol != (
    #[trigger] after[j]).symbol by {
        assert(after[i] == entries[back(i)]);
        assert(after[j] == entries[back(j)]);
        if back(i) < back(j) {
            assert(entries[back(i)].symbol != entries[back(j)].symbol);
        } else {
            assert(entries[back(j)].symbol != entries[back(i)].symbol);
        }
    }
    assert forall|i: int| 0 <= i < after.len() implies (#[trigger] after[i]).count >= 1 by {
        assert(after[i] == entries[back(i)]);
    }
}

/// An insert keeps the table in order: no symbol has two entries, the
/// counts do not go up from rank to rank, and the inserted symbol is
/// found at the rank that the insert reports, with its count one up.
pub proof fn lemma_inserted_ranked<T>(entries: Seq<Entry<T>>, symbol: T)
    requires
        ranked(entries),
    ensures
        ranked(inserted(entries, symbol)),
        listed(inserted(entries, symbol), symbol),
        rank_of(inserted(entries, symbol), symbol) == inserted_rank(entries, symbol),
        inserted(entries, symbol).len() == if listed(entries, symbol) {
            entries.len()
        } else {
            entries.len() + 1
        },
        inserted(entries, symbol)[inserted_rank(entries, symbol)].count == if listed(
            entries,
            symbol,
        ) {
            bumped(entries[rank_of(entries, symbol)].count)
        } else {
            1
        },
{
    let at = place_of(entries, symbol);
    let placed = counted_in(entries, symbol);
    if listed(entries, symbol) {
        lemma_position_of_rank(entries, symbol);
    }
    assert(placed[at].symbol == symbol);
    assert forall|i: int, j: int| 0 <= i < j < placed.len() implies (#[trigger] placed[i]).symbol
        != (#[trigger] placed[j]).symbol by {
        if listed(entries, symbol) {
            assert(placed[i].symbol == entries[i].symbol);
            assert(placed[j].symbol == entries[j].symbol);
        } else if j == at {
            assert(placed[i] == entries[i]);
        } else {
            assert(placed[i] == entries[i]);
            assert(placed[j] == entries[j]);
        }
    }
    assert(nearly_descending(placed, at)) by {
        assert forall|i: int, j: int|
            0 <= i <= j < placed.len() && i != at && j != at implies (#[trigger] placed[i]).count
            >= (#[trigger] placed[j]).count by {
            assert(placed[i] == entries[i]);
            assert(placed[j] == entries[j]);
        }
        assert forall|j: int| at < j < placed.len() implies placed[at].count >= (
        #[trigger] placed[j]).count by {
            assert(placed[j] == entries[j]);
            assert(entries[at].count >= entries[j].count);
        }
        assert forall|i: int| 0 <= i < at implies (#[trigger] placed[i]).count + 1
            >= placed[at].count by {
            assert(placed[i] == entries[i]);
            if listed(entries, symbol) {
                assert(entries[i].count >= entries[at].count);
            }
        }
    }
    assert forall|i: int| 0 <= i < placed.len() implies (#[trigger] placed[i]).count >= 1 by {
        if i != at {
            assert(placed[i] == entries[i]);
        }
    }
    let to = first_below(placed, placed[at].count, 0, at);
    lemma_first_below(placed, placed[at].count, 0, at);
    lemma_promoted_descending(placed, at);
    lemma_swapped_distinct(placed, to, at);
    let after = inserted(entries, symbol);
    assert(after[to].symbol == symbol);
    lemma_position_of_rank(after, symbol);
}

/// After any sequence of inserts the table is in order.
pub proof fn lemma_fed_ranked<T>(entries: Seq<Entry<T>>, symbols: Seq<T>)
    requires
        ranked(entries),
    ensures
        ranked(fed(entries, symbols)),
        forall|i: int| 0 <= i < symbols.len() ==> listed(fed(entries, symbols), #[trigger] symbols[i]),
    decreases symbols.len(),
{
    if symbols.len() > 0 {
        let front = symbols.drop_last();
        let before = fed(entries, front);
        let after = fed(entries, symbols);
        lemma_fed_ranked(entries, front);
        lemma_inserted_ranked(before, symbols.last());
        assert forall|i: int| 0 <= i < symbols.len() implies listed(
            after,
            #[trigger] symbols[i],
        ) by {
            if i < symbols.len() - 1 {
                assert(symbols[i] == front[i]);
                lemma_inserted_keeps(before, symbols.last(), symbols[i]);
            }
        }
    }
}

/// The table after any sequence of inserts: from rank to rank the counts
/// do not go up, and every inserted symbol is found at its rank.
pub proof fn lemma_any_inserts<T>(symbols: Seq<T>)
    ensures
        descending(fed(Seq::<Entry<T>>::empty(), symbols)),
        forall|i: int|
            0 <= i < symbols.len() ==> {
                let table = fed(Seq::<Entry<T>>::empty(), symbols);
                let rank = rank_of(table, #[trigger] symbols[i]);
                &&& listed(table, symbols[i])
                &&& 0 <= rank < table.len()
                &&& table[rank].symbol == symbols[i]
            },
{
    let table = fed(Seq::<Entry<T>>::empty(), symbols);
    lemma_fed_ranked(Seq::<Entry<T>>::empty(), symbols);
    assert forall|i: int| 0 <= i < symbols.len() implies {
        let rank = rank_of(table, #[trigger] symbols[i]);
        &&& listed(table, symbols[i])
        &&& 0 <= rank < table.len()
        &&& table[rank].symbol == symbols[i]
    } by {
        lemma_position_of_rank(table, symbols[i]);
    }
}

/// A symbol that has an entry keeps it when another symbol is inserted.
pub proof fn lemma_inserted_keeps<T>(entries: Seq<Entry<T>>, symbol: T, other: T)
    requires
        ranked(entries),
        listed(entries, other),
    ensures
        listed(inserted(entries, symbol), other),
{
    let at = place_of(entries, symbol);
    let placed = counted_in(entries, symbol);
    if listed(entries, symbol) {
        lemma_position_of_rank(entries, symbol);
    }
    lemma_position_of_rank(entries, other);
    let was = rank_of(entries, other);
    assert(placed[was].symbol == other);
    let to = first_below(placed, placed[at].count, 0, at);
    lemma_first_below(placed, placed[at].count, 0, at);
    let after = inserted(entries, symbol);
    let now = if was == to {
        at
    } else if was == at {
        to
    } else {
        was
    };
    assert(after[now].symbol == other);
}

/// An insert gives an entry to the inserted symbol and to no other.
pub proof fn lemma_inserted_only<T>(entries: Seq<Entry<T>>, symbol: T, other: T)
    requires
        ranked(entries),
        listed(inserted(entries, symbol), other),
    ensures
        listed(entries, other) || other == symbol,
{
    let at = place_of(entries, symbol);
    let placed = counted_in(entries, symbol);
    if listed(entries, symbol) {
        lemma_position_of_rank(entries, symbol);
    }
    let to = first_below(placed, placed[at].count, 0, at);
    lemma_first_below(placed, placed[at].count, 0, at);
    let after = inserted(entries, symbol);
    let now = choose|i: int| 0 <= i < after.len() && (#[trigger] after[i]).symbol == other;
    let was = if now == to {
        at
    } else if now == at {
        to
    } else {
        now
    };
    assert(after[now] == placed[was]);
    if was != at {
        assert(placed[was] == entries[was]);
    }
}

} // verus!
