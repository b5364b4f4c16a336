//! # Context tables
//!
//! One rank table for each context that has been seen. A table is made
//! when its context is seen for the first time, and starts with one
//! occurrence of every byte, in the order of the byte values.
use crate::stats::probtable::{
    fed, inserted, lemma_bytes_countable, lemma_inserted_keeps, lemma_inserted_only,
    lemma_inserted_ranked, listed, ranked, vec_capacity, Entry, ProbTable,
};
use vstd::prelude::*;
use vstd::slice::{slice_subrange, slice_to_vec};

verus! {

/// The rank tables of the contexts as the model has them.
pub type Tables = Map<Seq<u8>, Seq<Entry<u8>>>;

/// All byte values, the lowest first.
pub open spec fn all_bytes() -> Seq<u8> {
    Seq::new(256, |i: int| i as u8)
}

/// The table of a context that is seen for the first time, before the
/// symbol that was seen in it is counted.
pub open spec fn seeded() -> Seq<Entry<u8>> {
    fed(Seq::empty(), all_bytes())
}

/// The tables after `val` has been seen in the context `cx`.
pub open spec fn updated(tables: Tables, cx: Seq<u8>, val: u8) -> Tables {
    if tables.contains_key(cx) {
        tables.insert(cx, inserted(tables[cx], val))
    } else {
        tables.insert(cx, inserted(seeded(), val))
    }
}

/// The context of position `p` of `symbols`: the `order` symbols before
/// it, or all symbols before it where these are fewer.
pub open spec fn context_at(symbols: Seq<u8>, p: int, order: nat) -> Seq<u8> {
    symbols.subrange(
        if p > order {
            p - order
        } else {
            0
        },
        p,
    )
}

/// The tables after each of the first `upto` symbols has been seen in
/// its context, the first symbol first.
pub open spec fn all_updated(tables: Tables, symbols: Seq<u8>, order: nat, upto: nat) -> Tables
    decreases upto,
{
    if upto == 0 {
        tables
    } else {
        updated(
            all_updated(tables, symbols, order, (upto - 1) as nat),
            context_at(symbols, upto - 1, order),
            symbols[upto - 1],
        )
    }
}

/// Whether two byte slices hold the same bytes.
pub fn same_bytes(a: &[u8], b: &[u8]) -> (r: bool)
    ensures
        r == (a@ == b@),
{
    if a.len() != b.len() {
        return false;
    }
    let mut i: usize = 0;
    while i < a.len()
        invariant
            i <= a@.len() == b@.len(),
            a@.take(i as int) == b@.take(i as int),
        decreases a.len() - i,
    {
        if a[i] != b[i] {
            return false;
        }
        proof {
            assert(a@.take(i + 1) == a@.take(i as int).push(a@[i as int]));
            assert(b@.take(i + 1) == b@.take(i as int).push(b@[i as int]));
        }
        i += 1;
    }
    proof {
        assert(a@.take(i as int) == a@);
        assert(b@.take(i as int) == b@);
    }
    true
}

/// The rank tables of the contexts that have been seen, in the order in
/// which the contexts were first seen.
#[derive(Debug)]
pub struct ContextTables {
    contexts: Vec<Vec<u8>>,
    tables: Vec<ProbTable<u8>>,
}

impl View for ContextTables {
    type V = Tables;

    closed spec fn view(&self) -> Tables {
        Map::new(
            |cx: Seq<u8>| self.slot_of(cx) is Some,
            |cx: Seq<u8>| self.tables@[self.slot_of(cx)->Some_0]@,
        )
    }
}

impl ContextTables {
    /// Where the table of `cx` is kept.
    pub closed spec fn slot_of(&self, cx: Seq<u8>) -> Option<int> {
        if exists|i: int| 0 <= i < self.contexts@.len() && (#[trigger] self.contexts@[i])@ == cx {
            Some(
                choose|i: int| 0 <= i < self.contexts@.len() && (#[trigger] self.contexts@[i])@ == cx,
            )
        } else {
            None
        }
    }

    /// Every context has one table, and every table is well-formed.
    pub closed spec fn wf(&self) -> bool {
        &&& self.contexts@.len() == self.tables@.len()
        &&& forall|i: int| 0 <= i < self.tables@.len() ==> (#[trigger] self.tables@[i]).wf()
        &&& forall|i: int, j: int|
            0 <= i < j < self.contexts@.len() ==> (#[trigger] self.contexts@[i])@ != (
            #[trigger] self.contexts@[j])@
    }

    proof fn lemma_slot(&self, i: int)
        requires
            self.wf(),
            0 <= i < self.contexts@.len(),
        ensures
            self.slot_of(self.contexts@[i]@) == Some(i),
            self@.contains_key(self.contexts@[i]@),
            self@[self.contexts@[i]@] == self.tables@[i]@,
    {
        let cx = self.contexts@[i]@;
        let j = self.slot_of(cx)->Some_0;
        if j < i {
            assert(self.contexts@[j]@ != self.contexts@[i]@);
        } else if i < j {
            assert(self.contexts@[i]@ != self.contexts@[j]@);
        }
    }

    /// No tables.
    pub fn new() -> (r: Self)
        ensures
            r.wf(),
            r@ == Tables::empty(),
    {
        let r = ContextTables { contexts: Vec::new(), tables: Vec::new() };
        proof {
            assert(r@ =~= Tables::empty());
        }
        r
    }

    /// Whether no context has been seen.
    pub fn is_empty(&self) -> (r: bool)
        requires
            self.wf(),
        ensures
            r == (self@ == Tables::empty()),
    {
        proof {
            if self.contexts@.len() > 0 {
                self.lemma_slot(0);
            } else {
                assert(self@ =~= Tables::empty());
            }
        }
        self.contexts.len() == 0
    }

    /// The number of contexts that have been seen.
    pub fn len(&self) -> (r: usize)
        requires
            self.wf(),
        ensures
            r == self@.dom().len(),
    {
        proof {
            self.lemma_dom_len(self.contexts@.len() as int);
            assert(self.dom_upto(self.contexts@.len() as int) =~= self@.dom());
        }
        self.contexts.len()
    }

    /// The contexts of the first `n` slots.
    closed spec fn dom_upto(&self, n: int) -> Set<Seq<u8>> {
        Set::new(|cx: Seq<u8>| exists|i: int| 0 <= i < n && (#[trigger] self.contexts@[i])@ == cx)
    }

    proof fn lemma_dom_len(&self, n: int)
        requires
            self.wf(),
            0 <= n <= self.contexts@.len(),
        ensures
            self.dom_upto(n).finite(),
            self.dom_upto(n).len() == n,
        decreases n,
    {
        if n == 0 {
            assert(self.dom_upto(0) =~= Set::<Seq<u8>>::empty());
        } else {
            self.lemma_dom_len(n - 1);
            let cx = self.contexts@[n - 1]@;
            assert(!self.dom_upto(n - 1).contains(cx)) by {
                if self.dom_upto(n - 1).contains(cx) {
                    let i = choose|i: int| 0 <= i < n - 1 && (#[trigger] self.contexts@[i])@ == cx;
                    assert(self.contexts@[i]@ != self.contexts@[n - 1]@);
                }
            }
            assert(self.dom_upto(n) =~= self.dom_upto(n - 1).insert(cx));
        }
    }

    /// The slot of the table of `cx`, where it has one.
    fn find(&self, cx: &[u8]) -> (r: Option<usize>)
        requires
            self.wf(),
        ensures
            match r {
                Some(i) => self.slot_of(cx@) == Some(i as int) && i < self.tables@.len(),
                None => self.slot_of(cx@) is None,
            },
    {
        let mut i: usize = 0;
        while i < self.contexts.len()
            invariant
                i <= self.contexts@.len(),
                self.wf(),
                forall|j: int| 0 <= j < i ==> (#[trigger] self.contexts@[j])@ != cx@,
            decreases self.contexts.len() - i,
        {
            if same_bytes(self.contexts[i].as_slice(), cx) {
                proof {
                    self.lemma_slot(i as int);
                }
                return Some(i);
            }
            i += 1;
        }
        None
    }

    /// The table of `cx`, where it has one.
    pub fn get(&self, cx: &[u8]) -> (r: Option<&ProbTable<u8>>)
        requires
            self.wf(),
        ensures
            match r {
                Some(table) => self@.contains_key(cx@) && table@ == self@[cx@] && table.wf(),
                None => !self@.contains_key(cx@),
            },
    {
        match self.find(cx) {
            Some(i) => Some(&self.tables[i]),
            None => None,
        }
    }

    /// Counts `val` in the table of `cx`. Where `cx` has no table yet, it
    /// gets one that holds every byte once, and `val` is counted in it.
    pub fn single_update(&mut self, cx: &[u8], val: u8)
        requires
            old(self).wf(),
        ensures
            final(self).wf(),
            final(self)@ == updated(old(self)@, cx@, val),
    {
        let ghost before = *self;
        match self.find(cx) {
            Some(i) => {
                self.tables[i].insert(val);
                proof {
                    assert forall|k: Seq<u8>| self.slot_of(k) == before.slot_of(k) by {}
                    assert(self@ =~= updated(before@, cx@, val));
                }
            },
            None => {
                proof {
                    lemma_bytes_countable();
                }
                let mut t = ProbTable::<u8>::new();
                let mut v: Vec<u8> = Vec::new();
                let mut b: usize = 0;
                while b < 256
                    invariant
                        b <= 256,
                        v@ == all_bytes().take(b as int),
                    decreases 256 - b,
                {
                    v.push(b as u8);
                    b += 1;
                    proof {
                        assert(all_bytes().take(b as int) == all_bytes().take(b - 1).push(
                            (b - 1) as u8,
                        ));
                    }
                }
                proof {
                    assert(all_bytes().take(256) == all_bytes());
                }
                t.feed(v.as_slice());
                t.insert(val);
                self.contexts.push(slice_to_vec(cx));
                self.tables.push(t);
                proof {
                    let n = before.contexts@.len() as int;
                    assert forall|i: int, j: int| 0 <= i < j < self.contexts@.len() implies (
                    #[trigger] self.contexts@[i])@ != (#[trigger] self.contexts@[j])@ by {
                        assert(self.contexts@[i] == before.contexts@[i]);
                        if j < n {
                            assert(self.contexts@[j] == before.contexts@[j]);
                        }
                    }
                    assert forall|i: int| 0 <= i < self.tables@.len() implies (
                    #[trigger] self.tables@[i]).wf() by {
                        if i < n {
                            assert(self.tables@[i] == before.tables@[i]);
                        }
                    }
                    self.lemma_slot(n);
                    assert forall|k: Seq<u8>| k != cx@ implies self.slot_of(k) == before.slot_of(
                        k,
                    ) by {
                        if before.slot_of(k) is Some {
                            let i = before.slot_of(k)->Some_0;
                            assert(self.contexts@[i] == before.contexts@[i]);
                            self.lemma_slot(i);
                        } else if self.slot_of(k) is Some {
                            let i = self.slot_of(k)->Some_0;
                            assert(self.contexts@[i] == before.contexts@[i]);
                        }
                    }
                    assert forall|k: Seq<u8>| k != cx@ && self@.contains_key(k) implies self@[k]
                        == before@[k] by {
                        let i = self.slot_of(k)->Some_0;
                        assert(self.tables@[i] == before.tables@[i]);
                    }
                    assert(self@ =~= updated(before@, cx@, val));
                }
            },
        }
    }
    /// Counts each symbol of `bytes` in the table of its context, which is
    /// made of the `order` symbols before it.
    pub fn full_update(&mut self, bytes: &[u8], order: usize)
        requires
            old(self).wf(),
        ensures
            final(self).wf(),
            final(self)@ == all_updated(old(self)@, bytes@, order as nat, bytes@.len()),
    {
        let mut p: usize = 0;
        while p < bytes.len()
            invariant
                p <= bytes@.len(),
                self.wf(),
                self@ == all_updated(old(self)@, bytes@, order as nat, p as nat),
            decreases bytes.len() - p,
        {
            let start: usize = if p > order {
                p - order
            } else {
                0
            };
            let cx = slice_subrange(bytes, start, p);
            self.single_update(cx, bytes[p]);
            p += 1;
        }
    }

    /// The number of contexts that there is room for.
    pub fn capacity(&self) -> (r: usize)
        requires
            self.wf(),
        ensures
            r >= self@.dom().len(),
    {
        proof {
            self.lemma_dom_len(self.contexts@.len() as int);
            assert(self.dom_upto(self.contexts@.len() as int) =~= self@.dom());
        }
        vec_capacity(&self.contexts)
    }
}

/// A table that holds every byte: it is in order, and each of the 256
/// bytes has an entry in it.
pub open spec fn holds_all(table: Seq<Entry<u8>>) -> bool {
    &&& ranked(table)
    &&& table.len() == 256
    &&& forall|b: u8| listed(table, b)
}

/// Every table holds every byte.
pub open spec fn all_complete(tables: Tables) -> bool {
    forall|cx: Seq<u8>| #[trigger] tables.contains_key(cx) ==> holds_all(tables[cx])
}

/// The table that the first `upto` bytes make holds just these.
pub proof fn lemma_fed_bytes(upto: nat)
    requires
        upto <= 256,
    ensures
        ranked(fed(Seq::<Entry<u8>>::empty(), all_bytes().take(upto as int))),
        fed(Seq::<Entry<u8>>::empty(), all_bytes().take(upto as int)).len() == upto,
        forall|b: u8|
            listed(fed(Seq::<Entry<u8>>::empty(), all_bytes().take(upto as int)), b) <==> b < upto,
    decreases upto,
{
    let nothing = Seq::<Entry<u8>>::empty();
    let bytes = all_bytes().take(upto as int);
    if upto > 0 {
        let front = all_bytes().take(upto - 1);
        let byte = (upto - 1) as u8;
        assert(bytes.drop_last() == front);
        assert(bytes.last() == byte);
        lemma_fed_bytes((upto - 1) as nat);
        let before = fed(nothing, front);
        let after = fed(nothing, bytes);
        lemma_inserted_ranked(before, byte);
        assert forall|b: u8| listed(after, b) <==> b < upto by {
            if listed(after, b) {
                lemma_inserted_only(before, byte, b);
            }
            if b < upto - 1 {
                lemma_inserted_keeps(before, byte, b);
            }
        }
    }
}

/// A table that was just made holds every byte.
pub proof fn lemma_seeded_holds_all()
    ensures
        holds_all(seeded()),
{
    lemma_fed_bytes(256);
    assert(all_bytes().take(256) == all_bytes());
}

/// A table that holds every byte does so after an insert.
pub proof fn lemma_inserted_holds_all(table: Seq<Entry<u8>>, val: u8)
    requires
        holds_all(table),
    ensures
        holds_all(inserted(table, val)),
{
    lemma_inserted_ranked(table, val);
    assert forall|b: u8| listed(inserted(table, val), b) by {
        lemma_inserted_keeps(table, val, b);
    }
}

/// Tables that all hold every byte do so after any update.
pub proof fn lemma_updated_complete(tables: Tables, cx: Seq<u8>, val: u8)
    requires
        all_complete(tables),
    ensures
        all_complete(updated(tables, cx, val)),
{
    lemma_seeded_holds_all();
    if tables.contains_key(cx) {
        lemma_inserted_holds_all(tables[cx], val);
    } else {
        lemma_inserted_holds_all(seeded(), val);
    }
}

/// Tables that all hold every byte do so after any number of updates.
pub proof fn lemma_all_updated_complete(tables: Tables, symbols: Seq<u8>, order: nat, upto: nat)
    requires
        all_complete(tables),
    ensures
        all_complete(all_updated(tables, symbols, order, upto)),
    decreases upto,
{
    if upto > 0 {
        lemma_all_updated_complete(tables, symbols, order, (upto - 1) as nat);
        lemma_updated_complete(
            all_updated(tables, symbols, order, (upto - 1) as nat),
            context_at(symbols, upto - 1, order),
            symbols[upto - 1],
        );
    }
}

} // verus!
