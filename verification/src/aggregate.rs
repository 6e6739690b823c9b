//! Running totals per consolidation key.
//!
//! The aggregator keeps one entry per key, in the order of keys, so that what
//! it holds depends only on the totals and never on the order in which the
//! transactions arrived.

use vstd::prelude::*;
use crate::error::ReportError;
use crate::text::{lex_lt, Rank};
use crate::trx::{key_lt, lemma_key_order, sale_fits, sale_of, Key, Sale, SaleView, Trx};

verus! {

/// One key with its accumulated value.
#[derive(Debug)]
pub struct Entry {
    pub key: Trx,
    pub total: i64,
}

/// The keyed running totals of one run.
#[derive(Debug)]
pub struct Aggregator {
    entries: Vec<Entry>,
}

/// The keys of `s` ascend strictly.
pub open spec fn sorted(s: Seq<(Key, int)>) -> bool {
    forall|i: int, j: int| 0 <= i < j < s.len() ==> key_lt(#[trigger] s[i].0, #[trigger] s[j].0)
}

/// Some entry of `s` has key `k`.
pub open spec fn has_key(s: Seq<(Key, int)>, k: Key) -> bool {
    exists|i: int| 0 <= i < s.len() && (#[trigger] s[i]).0 == k
}

/// The place of key `k` in `s`.
pub open spec fn place_of(s: Seq<(Key, int)>, k: Key) -> int {
    choose|i: int| 0 <= i < s.len() && (#[trigger] s[i]).0 == k
}

/// The totals that the entries `s` stand for, as a map from keys.
pub open spec fn totals_of(s: Seq<(Key, int)>) -> Map<Key, int> {
    Map::new(|k: Key| has_key(s, k), |k: Key| s[place_of(s, k)].1)
}

/// The value accumulated under `k` so far: zero for a key not seen yet.
pub open spec fn current(m: Map<Key, int>, k: Key) -> int {
    if m.dom().contains(k) {
        m[k]
    } else {
        0
    }
}

/// The totals after `amount` was folded in under `k`.
pub open spec fn step(m: Map<Key, int>, k: Key, amount: int) -> Map<Key, int> {
    m.insert(k, current(m, k) + amount)
}

/// The totals after every transaction of `txs` was folded in, first to last.
pub open spec fn fold_all(txs: Seq<(Key, int)>) -> Map<Key, int>
    decreases txs.len(),
{
    if txs.len() == 0 {
        Map::empty()
    } else {
        step(fold_all(txs.drop_last()), txs.last().0, txs.last().1)
    }
}

/// The output rows of the entries `s`, in their order.
pub open spec fn rows_of(s: Seq<(Key, int)>) -> Seq<SaleView> {
    Seq::new(s.len(), |i: int| sale_of(s[i].0, s[i].1))
}

/// The cents of every row of the entries `s` fit in an `i64`.
pub open spec fn all_fit(s: Seq<(Key, int)>) -> bool {
    forall|i: int| 0 <= i < s.len() ==> sale_fits(#[trigger] s[i].0, s[i].1)
}

/// The sorted entries that stand for the totals `m`.
pub open spec fn entries_of(m: Map<Key, int>) -> Seq<(Key, int)> {
    choose|s: Seq<(Key, int)>| sorted(s) && totals_of(s) == m
}

/// Row `a` may stand before row `b`: its kind is smaller, or the kinds are
/// equal and its description is not greater.
pub open spec fn row_le(a: SaleView, b: SaleView) -> bool {
    if a.kind != b.kind {
        lex_lt(a.kind, b.kind)
    } else {
        a.description == b.description || lex_lt(a.description, b.description)
    }
}

/// The mathematical values of a list of rows.
pub open spec fn sales_view(rows: Seq<Sale>) -> Seq<SaleView> {
    Seq::new(rows.len(), |i: int| rows[i]@)
}

/// In sorted entries each key stands at one place only, and the totals hold
/// its value.
pub proof fn lemma_lookup(s: Seq<(Key, int)>, i: int)
    requires
        sorted(s),
        0 <= i < s.len(),
    ensures
        has_key(s, s[i].0),
        place_of(s, s[i].0) == i,
        totals_of(s).dom().contains(s[i].0),
        totals_of(s)[s[i].0] == s[i].1,
{
    let c = place_of(s, s[i].0);
    lemma_key_order(s[i].0, s[i].0, s[i].0);
    if c < i {
        assert(key_lt(s[c].0, s[i].0));
    } else if i < c {
        assert(key_lt(s[i].0, s[c].0));
    }
}

/// A new key put at its place keeps the entries sorted and adds one total.
pub proof fn lemma_insert(s: Seq<(Key, int)>, pos: int, k: Key, v: int)
    requires
        sorted(s),
        0 <= pos <= s.len(),
        forall|j: int| 0 <= j < pos ==> key_lt(#[trigger] s[j].0, k),
        pos < s.len() ==> key_lt(k, s[pos].0),
    ensures
        !has_key(s, k),
        sorted(s.insert(pos, (k, v))),
        totals_of(s.insert(pos, (k, v))) == totals_of(s).insert(k, v),
{
    let t = s.insert(pos, (k, v));
    assert forall|j: int| pos <= j < s.len() implies key_lt(k, #[trigger] s[j].0) by {
        if j > pos {
            assert(key_lt(s[pos].0, s[j].0));
            lemma_key_order(k, s[pos].0, s[j].0);
        }
    }
    assert forall|j: int| 0 <= j < s.len() implies (#[trigger] s[j]).0 != k by {
        lemma_key_order(k, s[j].0, k);
    }
    assert forall|i: int, j: int| 0 <= i < j < t.len() implies key_lt(
        #[trigger] t[i].0,
        #[trigger] t[j].0,
    ) by {
        if i < pos && j > pos {
            assert(key_lt(s[i].0, s[j - 1].0));
        } else if i < pos && j < pos {
            assert(key_lt(s[i].0, s[j].0));
        } else if i > pos {
            assert(key_lt(s[i - 1].0, s[j - 1].0));
        }
    }
    assert forall|q: Key| #[trigger]
        totals_of(t).dom().contains(q) == totals_of(s).insert(k, v).dom().contains(q) by {
        if has_key(s, q) {
            let i = place_of(s, q);
            if i < pos {
                assert(t[i].0 == q);
            } else {
                assert(t[i + 1].0 == q);
            }
        }
        if has_key(t, q) {
            let i = place_of(t, q);
            if i < pos {
                assert(s[i].0 == q);
            } else if i > pos {
                assert(s[i - 1].0 == q);
            }
        }
        assert(t[pos].0 == k);
    }
    assert forall|q: Key| #[trigger] totals_of(t).dom().contains(q) implies totals_of(t)[q]
        == totals_of(s).insert(k, v)[q] by {
        let i = place_of(t, q);
        lemma_lookup(t, i);
        if i < pos {
            lemma_lookup(s, i);
        } else if i > pos {
            lemma_lookup(s, i - 1);
        }
    }
    assert(totals_of(t) =~= totals_of(s).insert(k, v));
}

/// A new value for the key at one place keeps the entries sorted and changes
/// that total only.
pub proof fn lemma_update(s: Seq<(Key, int)>, pos: int, v: int)
    requires
        sorted(s),
        0 <= pos < s.len(),
    ensures
        sorted(s.update(pos, (s[pos].0, v))),
        totals_of(s.update(pos, (s[pos].0, v))) == totals_of(s).insert(s[pos].0, v),
{
    let k = s[pos].0;
    let t = s.update(pos, (k, v));
    assert forall|i: int, j: int| 0 <= i < j < t.len() implies key_lt(
        #[trigger] t[i].0,
        #[trigger] t[j].0,
    ) by {
        assert(key_lt(s[i].0, s[j].0));
    }
    assert forall|q: Key| #[trigger]
        totals_of(t).dom().contains(q) == totals_of(s).insert(k, v).dom().contains(q) by {
        if has_key(s, q) {
            let i = place_of(s, q);
            assert(t[i].0 == q);
        }
        if has_key(t, q) {
            let i = place_of(t, q);
            assert(s[i].0 == q);
        }
        assert(t[pos].0 == k);
    }
    assert forall|q: Key| #[trigger] totals_of(t).dom().contains(q) implies totals_of(t)[q]
        == totals_of(s).insert(k, v)[q] by {
        let i = place_of(t, q);
        lemma_lookup(t, i);
        lemma_lookup(s, i);
    }
    assert(totals_of(t) =~= totals_of(s).insert(k, v));
}

/// Without their last entry, sorted entries stand for the same totals
/// without the last key.
pub proof fn lemma_drop_last(s: Seq<(Key, int)>)
    requires
        sorted(s),
        s.len() > 0,
    ensures
        sorted(s.drop_last()),
        totals_of(s.drop_last()) == totals_of(s).remove(s.last().0),
{
    let t = s.drop_last();
    let k = s.last().0;
    assert forall|i: int, j: int| 0 <= i < j < t.len() implies key_lt(
        #[trigger] t[i].0,
        #[trigger] t[j].0,
    ) by {
        assert(key_lt(s[i].0, s[j].0));
    }
    assert forall|q: Key| #[trigger]
        totals_of(t).dom().contains(q) == totals_of(s).remove(k).dom().contains(q) by {
        if has_key(t, q) {
            let i = place_of(t, q);
            assert(s[i].0 == q);
            assert(key_lt(s[i].0, s[s.len() - 1].0));
            lemma_key_order(q, q, q);
        }
        if has_key(s, q) && q != k {
            let i = place_of(s, q);
            assert(t[i].0 == q);
        }
    }
    assert forall|q: Key| #[trigger] totals_of(t).dom().contains(q) implies totals_of(t)[q]
        == totals_of(s).remove(k)[q] by {
        let i = place_of(t, q);
        lemma_lookup(t, i);
        lemma_lookup(s, i);
    }
    assert(totals_of(t) =~= totals_of(s).remove(k));
}

/// Sorted entries are determined by the totals they stand for.
pub proof fn lemma_sorted_unique(a: Seq<(Key, int)>, b: Seq<(Key, int)>)
    requires
        sorted(a),
        sorted(b),
        totals_of(a) == totals_of(b),
    ensures
        a == b,
    decreases a.len(),
{
    if a.len() == 0 {
        if b.len() > 0 {
            lemma_lookup(b, 0);
            assert(totals_of(a).dom().contains(b[0].0));
        }
        assert(a =~= b);
    } else {
        let la = a.len() - 1;
        lemma_lookup(a, la);
        assert(totals_of(b).dom().contains(a[la].0));
        let j = place_of(b, a[la].0);
        lemma_lookup(b, j);
        let lb = b.len() - 1;
        lemma_lookup(b, lb);
        assert(totals_of(a).dom().contains(b[lb].0));
        let i = place_of(a, b[lb].0);
        if j < lb {
            assert(key_lt(b[j].0, b[lb].0));
            if i < la {
                assert(key_lt(a[i].0, a[la].0));
            }
            lemma_key_order(a[la].0, b[lb].0, a[la].0);
        }
        assert(a[la] == b[lb]);
        lemma_drop_last(a);
        lemma_drop_last(b);
        lemma_sorted_unique(a.drop_last(), b.drop_last());
        assert(a =~= a.drop_last().push(a[la]));
        assert(b =~= b.drop_last().push(b[lb]));
    }
}

/// Sorted entries are the entries of their totals.
pub proof fn lemma_entries_of(s: Seq<(Key, int)>)
    requires
        sorted(s),
    ensures
        entries_of(totals_of(s)) == s,
{
    lemma_sorted_unique(entries_of(totals_of(s)), s);
}

/// No totals have no entries.
pub proof fn lemma_entries_of_empty()
    ensures
        entries_of(Map::<Key, int>::empty()) == Seq::<(Key, int)>::empty(),
{
    let s = Seq::<(Key, int)>::empty();
    assert(totals_of(s) =~= Map::<Key, int>::empty());
    lemma_entries_of(s);
}

/// Folding in one more transaction commutes with folding in another.
pub proof fn lemma_step_commutes(m: Map<Key, int>, a: (Key, int), b: (Key, int))
    ensures
        step(step(m, a.0, a.1), b.0, b.1) == step(step(m, b.0, b.1), a.0, a.1),
{
    assert(step(step(m, a.0, a.1), b.0, b.1) =~= step(step(m, b.0, b.1), a.0, a.1));
}

/// The totals of a sequence are those of the sequence without one of its
/// transactions, with that transaction folded in last.
pub proof fn lemma_fold_remove(txs: Seq<(Key, int)>, i: int)
    requires
        0 <= i < txs.len(),
    ensures
        fold_all(txs) == step(fold_all(txs.remove(i)), txs[i].0, txs[i].1),
    decreases txs.len(),
{
    if i == txs.len() - 1 {
        assert(txs.remove(i) =~= txs.drop_last());
    } else {
        let rest = txs.drop_last();
        lemma_fold_remove(rest, i);
        assert(rest.remove(i) =~= txs.remove(i).drop_last());
        assert(txs.remove(i).last() == txs.last());
        lemma_step_commutes(fold_all(rest.remove(i)), txs[i], txs.last());
    }
}

/// Law: the totals do not depend on the order in which the transactions are
/// folded in. Two sequences that hold the same transactions, each as often
/// as the other, give the same totals.
pub proof fn lemma_fold_order_independent(a: Seq<(Key, int)>, b: Seq<(Key, int)>)
    requires
        a.to_multiset() == b.to_multiset(),
    ensures
        fold_all(a) == fold_all(b),
    decreases a.len(),
{
    a.to_multiset_ensures();
    b.to_multiset_ensures();
    if a.len() == 0 {
        assert(b.len() == 0);
    } else {
        let x = a.last();
        assert(a.contains(x)) by {
            assert(a[a.len() - 1] == x);
        }
        assert(b.to_multiset().count(x) > 0);
        assert(b.contains(x));
        let i = choose|i: int| 0 <= i < b.len() && b[i] == x;
        assert(a.drop_last() =~= a.remove(a.len() - 1));
        assert(a.drop_last().to_multiset() =~= b.remove(i).to_multiset());
        lemma_fold_order_independent(a.drop_last(), b.remove(i));
        lemma_fold_remove(b, i);
    }
}

/// Law: the output is deterministic. Two sorted lists of entries that stand
/// for the totals of the same transactions, folded in any order, give the
/// same rows in the same order.
pub proof fn lemma_output_deterministic(
    txs_a: Seq<(Key, int)>,
    txs_b: Seq<(Key, int)>,
    a: Seq<(Key, int)>,
    b: Seq<(Key, int)>,
)
    requires
        txs_a.to_multiset() == txs_b.to_multiset(),
        sorted(a),
        sorted(b),
        totals_of(a) == fold_all(txs_a),
        totals_of(b) == fold_all(txs_b),
    ensures
        a == b,
        rows_of(a) == rows_of(b),
{
    lemma_fold_order_independent(txs_a, txs_b);
    lemma_sorted_unique(a, b);
}

impl View for Aggregator {
    type V = Seq<(Key, int)>;

    closed spec fn view(&self) -> Seq<(Key, int)> {
        Seq::new(self.entries@.len(), |i: int| (self.entries@[i].key@, self.entries@[i].total as int))
    }
}

impl Aggregator {
    /// The entries are sorted by key, so no key occurs twice.
    pub open spec fn wf(&self) -> bool {
        sorted(self@)
    }

    /// The totals held, as a map from keys.
    pub open spec fn totals(&self) -> Map<Key, int> {
        totals_of(self@)
    }

    /// An aggregator that has seen no transaction.
    pub fn new() -> (r: Aggregator)
        ensures
            r.wf(),
            r@ == Seq::<(Key, int)>::empty(),
            r.totals() == Map::<Key, int>::empty(),
    {
        let r = Aggregator { entries: Vec::new() };
        proof {
            assert(r@ =~= Seq::<(Key, int)>::empty());
            assert(r.totals() =~= Map::<Key, int>::empty());
        }
        r
    }

    /// The number of keys held.
    pub fn len(&self) -> (n: usize)
        ensures
            n == self@.len(),
    {
        self.entries.len()
    }

    /// The place at which `key` stands or would be put, and whether it
    /// stands there.
    fn locate(&self, key: &Trx) -> (r: (usize, bool))
        requires
            self.wf(),
        ensures
            r.0 <= self@.len(),
            forall|j: int| 0 <= j < r.0 ==> key_lt(#[trigger] self@[j].0, key@),
            r.1 ==> r.0 < self@.len() && self@[r.0 as int].0 == key@,
            !r.1 && r.0 < self@.len() ==> key_lt(key@, self@[r.0 as int].0),
    {
        let mut i: usize = 0;
        while i < self.entries.len()
            invariant
                i <= self.entries.len(),
                self.entries.len() == self@.len(),
                forall|j: int| 0 <= j < i ==> key_lt(#[trigger] self@[j].0, key@),
            decreases self.entries.len() - i,
        {
            proof {
                assert(self@[i as int].0 == self.entries@[i as int].key@);
            }
            match self.entries[i].key.rank(key) {
                Rank::Before => {},
                Rank::Same => {
                    return (i, true);
                },
                Rank::After => {
                    proof {
                        lemma_key_order(self@[i as int].0, key@, key@);
                    }
                    return (i, false);
                },
            }
            i += 1;
        }
        (i, false)
    }

    /// Folds `amount` into the total of `key`: the key is added with that
    /// amount where it is new, else the amount is added to its total. Where
    /// the sum leaves the range of `i64` nothing changes and the call fails.
    pub fn fold(&mut self, key: Trx, amount: i64) -> (r: Result<(), ReportError>)
        requires
            old(self).wf(),
        ensures
            final(self).wf(),
            match r {
                Ok(_) => {
                    &&& i64::MIN <= current(old(self).totals(), key@) + amount <= i64::MAX
                    &&& final(self).totals() == step(old(self).totals(), key@, amount as int)
                },
                Err(e) => {
                    &&& e == ReportError::TotalOverflow
                    &&& !(i64::MIN <= current(old(self).totals(), key@) + amount <= i64::MAX)
                    &&& final(self)@ == old(self)@
                },
            },
    {
        let (pos, found) = self.locate(&key);
        let ghost before = self@;
        if found {
            proof {
                lemma_lookup(before, pos as int);
                assert(before[pos as int].1 == self.entries@[pos as int].total);
            }
            match self.entries[pos].total.checked_add(amount) {
                None => Err(ReportError::TotalOverflow),
                Some(total) => {
                    self.entries.set(pos, Entry { key, total });
                    proof {
                        lemma_update(before, pos as int, total as int);
                        assert(self@ =~= before.update(pos as int, (before[pos as int].0, total as int)));
                    }
                    Ok(())
                },
            }
        } else {
            self.entries.insert(pos, Entry { key, total: amount });
            proof {
                lemma_insert(before, pos as int, key@, amount as int);
                assert(self@ =~= before.insert(pos as int, (key@, amount as int)));
            }
            Ok(())
        }
    }

    /// Whether every row fits: the cents of each identified key's row are its
    /// unit price times its quantity, which has to stay within an `i64`.
    pub open spec fn rows_fit(&self) -> bool {
        all_fit(self@)
    }

    /// Ends the aggregation: turns the totals into output rows, one per key,
    /// sorted by kind and then by description, with ties in the order of
    /// keys. Fails where the cents of a row do not fit in an `i64`.
    pub fn finalize(self) -> (r: Result<Vec<Sale>, ReportError>)
        requires
            self.wf(),
        ensures
            match r {
                Ok(rows) => {
                    &&& self.rows_fit()
                    &&& sales_view(rows@) == rows_of(self@)
                    &&& forall|i: int, j: int|
                        0 <= i < j < rows@.len() ==> row_le(#[trigger] rows@[i]@, #[trigger] rows@[j]@)
                },
                Err(e) => e == ReportError::TotalOverflow && !self.rows_fit(),
            },
    {
        let mut rows: Vec<Sale> = Vec::new();
        let mut i: usize = 0;
        while i < self.entries.len()
            invariant
                i <= self.entries.len(),
                self.entries.len() == self@.len(),
                rows@.len() == i,
                forall|j: int| 0 <= j < i ==> sale_fits(#[trigger] self@[j].0, self@[j].1),
                forall|j: int| 0 <= j < i ==> (#[trigger] rows@[j])@ == sale_of(self@[j].0, self@[j].1),
            decreases self.entries.len() - i,
        {
            proof {
                assert(self@[i as int] == (self.entries@[i as int].key@, self.entries@[i as int].total as int));
            }
            let key = self.entries[i].key.duplicate();
            match Sale::checked_new(key, self.entries[i].total) {
                None => {
                    proof {
                        assert(!sale_fits(self@[i as int].0, self@[i as int].1));
                    }
                    return Err(ReportError::TotalOverflow);
                },
                Some(sale) => {
                    rows.push(sale);
                },
            }
            i += 1;
        }
        proof {
            assert(sales_view(rows@) =~= rows_of(self@));
            assert forall|i: int, j: int| 0 <= i < j < rows@.len() implies row_le(
                #[trigger] rows@[i]@,
                #[trigger] rows@[j]@,
            ) by {
                assert(key_lt(self@[i].0, self@[j].0));
            }
        }
        Ok(rows)
    }
}

} // verus!
