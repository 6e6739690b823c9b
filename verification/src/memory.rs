//! The record of rows that earlier runs have processed.
//!
//! A row is known by its fingerprint, a 64-bit hash of its bytes. The memory
//! of a run starts from the fingerprints of the store, grows by the rows that
//! the run folds in, and is handed back for writing only once the output has
//! been written.

use std::collections::HashSet;
use vstd::prelude::*;
use vstd::std_specs::hash::*;
use crate::error::ReportError;

verus! {

/// The SeaHash of `bytes` with the hash's default seed.
pub uninterp spec fn seahash_of(bytes: Seq<u8>) -> u64;

/// Hashes `bytes` with `seahash::hash`. The result is that function's value
/// on these bytes; nothing more is claimed of it.
#[verifier::external_body]
pub(crate) fn hash_bytes(bytes: &[u8]) -> (h: u64)
    ensures
        h == seahash_of(bytes@),
{
    ::seahash::hash(bytes)
}

/// The integers that the `csv` reader yields on the store `input`, one per
/// record, when it reads without a header row and takes each record as one
/// `u64`; none where the reader reports an error.
pub uninterp spec fn csv_store(input: Seq<u8>) -> Option<Seq<u64>>;

/// Reads a store with `csv::Reader::deserialize::<u64>`, from a reader built
/// with `has_headers(false)`. The integers are handed back in the order of
/// their records, or the reader's first error.
#[verifier::external_body]
pub(crate) fn read_store(input: &[u8]) -> (r: Result<Vec<u64>, csv::Error>)
    ensures
        match r {
            Ok(stored) => csv_store(input@) == Some(stored@),
            Err(_) => csv_store(input@) is None,
        },
{
    let mut reader = csv::ReaderBuilder::new().has_headers(false).from_reader(input);
    reader.deserialize::<u64>().collect()
}

/// The fingerprint of a row's bytes.
pub fn fingerprint(bytes: &[u8]) -> (h: u64)
    ensures
        h == seahash_of(bytes@),
{
    hash_bytes(bytes)
}

/// The items of `s` in the order of their first occurrence, each once.
pub open spec fn first_seen(s: Seq<u64>) -> Seq<u64>
    decreases s.len(),
{
    if s.len() == 0 {
        Seq::empty()
    } else if first_seen(s.drop_last()).contains(s.last()) {
        first_seen(s.drop_last())
    } else {
        first_seen(s.drop_last()).push(s.last())
    }
}

/// A set of fingerprints, with the order in which they were first seen.
#[derive(Debug)]
pub struct Memory {
    set: HashSet<u64>,
    order: Vec<u64>,
}

impl View for Memory {
    type V = Set<u64>;

    closed spec fn view(&self) -> Set<u64> {
        self.set@
    }
}

impl Memory {
    /// The list holds each fingerprint of the set once.
    pub closed spec fn wf(&self) -> bool {
        &&& self.set@ == self.order@.to_set()
        &&& self.order@.no_duplicates()
    }

    /// The fingerprints in the order in which they were first seen.
    pub closed spec fn listed(&self) -> Seq<u64> {
        self.order@
    }

    /// The list and the set hold the same fingerprints.
    pub proof fn lemma_listed(&self)
        requires
            self.wf(),
        ensures
            self.listed().to_set() == self@,
            self.listed().no_duplicates(),
    {
    }

    /// The memory that holds the fingerprints of `stored`, each once, in the
    /// order in which `stored` first names them.
    pub fn new(stored: &Vec<u64>) -> (r: Memory)
        ensures
            r.wf(),
            r@ == stored@.to_set(),
            r.listed() == first_seen(stored@),
    {
        broadcast use group_hash_axioms;

        let mut r = Memory { set: HashSet::new(), order: Vec::new() };
        proof {
            assert(r.order@.to_set() =~= Set::<u64>::empty());
        }
        let mut i: usize = 0;
        while i < stored.len()
            invariant
                i <= stored.len(),
                r.wf(),
                r@ == stored@.take(i as int).to_set(),
                r.listed() == first_seen(stored@.take(i as int)),
            decreases stored.len() - i,
        {
            proof {
                r.lemma_listed();
                assert(stored@.take(i + 1).drop_last() =~= stored@.take(i as int));
            }
            r.remember(stored[i]);
            proof {
                assert(stored@.take(i + 1) =~= stored@.take(i as int).push(stored@[i as int]));
                lemma_push_to_set(stored@.take(i as int), stored@[i as int]);
            }
            i += 1;
        }
        proof {
            assert(stored@.take(i as int) =~= stored@);
        }
        r
    }

    /// The memory of a store: empty where there is no store yet, else the
    /// fingerprints that the store lists. A store that cannot be read is an
    /// error, never an empty memory.
    pub fn load(store: Option<&[u8]>) -> (r: Result<Memory, ReportError>)
        ensures
            match store {
                None => r is Ok && r->Ok_0.wf() && r->Ok_0.listed() == Seq::<u64>::empty(),
                Some(bytes) => match csv_store(bytes@) {
                    Some(stored) => {
                        &&& r is Ok
                        &&& r->Ok_0.wf()
                        &&& r->Ok_0@ == stored.to_set()
                        &&& r->Ok_0.listed() == first_seen(stored)
                    },
                    None => r is Err && r->Err_0 == ReportError::StoreUnreadable,
                },
            },
    {
        match store {
            None => Ok(Memory::new(&Vec::new())),
            Some(bytes) => match read_store(bytes) {
                Ok(stored) => Ok(Memory::new(&stored)),
                Err(_) => Err(ReportError::StoreUnreadable),
            },
        }
    }

    /// Whether `fp` is known.
    pub fn contains(&self, fp: u64) -> (r: bool)
        ensures
            r == self@.contains(fp),
    {
        broadcast use group_hash_axioms;

        self.set.contains(&fp)
    }

    /// Adds `fp` to the memory. Returns whether it was new.
    pub fn remember(&mut self, fp: u64) -> (fresh: bool)
        requires
            old(self).wf(),
        ensures
            final(self).wf(),
            final(self)@ == old(self)@.insert(fp),
            fresh == !old(self)@.contains(fp),
            final(self).listed() == if fresh {
                old(self).listed().push(fp)
            } else {
                old(self).listed()
            },
    {
        broadcast use group_hash_axioms;

        let fresh = self.set.insert(fp);
        if fresh {
            proof {
                lemma_push_to_set(self.order@, fp);
                assert(!self.order@.contains(fp));
            }
            self.order.push(fp);
        } else {
            proof {
                assert(old(self)@.insert(fp) =~= old(self)@);
            }
        }
        fresh
    }

    /// Adds the fingerprint of `row` to the memory. Returns whether the row
    /// was new.
    pub fn memorize(&mut self, row: &[u8]) -> (fresh: bool)
        requires
            old(self).wf(),
        ensures
            final(self).wf(),
            final(self)@ == old(self)@.insert(seahash_of(row@)),
            fresh == !old(self)@.contains(seahash_of(row@)),
            final(self).listed() == if fresh {
                old(self).listed().push(seahash_of(row@))
            } else {
                old(self).listed()
            },
    {
        let fp = fingerprint(row);
        self.remember(fp)
    }

    /// The number of fingerprints held.
    pub fn len(&self) -> (n: usize)
        requires
            self.wf(),
        ensures
            n == self.listed().len(),
    {
        self.order.len()
    }

    /// The fingerprints held, each once, in the order in which they were
    /// first seen.
    pub fn fingerprints(&self) -> (r: Vec<u64>)
        requires
            self.wf(),
        ensures
            r@ == self.listed(),
            r@.to_set() == self@,
            r@.no_duplicates(),
    {
        let mut r: Vec<u64> = Vec::new();
        let mut i: usize = 0;
        while i < self.order.len()
            invariant
                i <= self.order.len(),
                r@ == self.order@.take(i as int),
            decreases self.order.len() - i,
        {
            r.push(self.order[i]);
            proof {
                assert(self.order@.take(i as int).push(self.order@[i as int]) =~= self.order@.take(
                    i + 1,
                ));
            }
            i += 1;
        }
        proof {
            assert(self.order@.take(i as int) =~= self.order@);
        }
        r
    }

    /// What to write to the store once the sink has answered: the full list
    /// of fingerprints where the output was written. Where it was not, the
    /// run has failed and nothing is to be written, so that the store stays
    /// as it was.
    pub fn persist(self, sink_ok: bool) -> (r: Result<Vec<u64>, ReportError>)
        requires
            self.wf(),
        ensures
            match r {
                Ok(list) => sink_ok && list@ == self.listed() && list@.to_set() == self@,
                Err(e) => !sink_ok && e == ReportError::SinkWriteFailure,
            },
    {
        if sink_ok {
            Ok(self.fingerprints())
        } else {
            Err(ReportError::SinkWriteFailure)
        }
    }
}

/// The set of a list with one more item is the list's set with that item.
pub proof fn lemma_push_to_set(s: Seq<u64>, x: u64)
    ensures
        s.push(x).to_set() == s.to_set().insert(x),
{
    assert forall|y: u64| #[trigger] s.push(x).to_set().contains(y) == s.to_set().insert(x).contains(y) by {
        if s.contains(y) {
            let i = choose|i: int| 0 <= i < s.len() && s[i] == y;
            assert(s.push(x)[i] == y);
        }
        if s.push(x).contains(y) {
            let i = choose|i: int| 0 <= i < s.push(x).len() && s.push(x)[i] == y;
            if i < s.len() {
                assert(s[i] == y);
            }
        }
        assert(s.push(x)[s.len() as int] == x);
    }
    assert(s.push(x).to_set() =~= s.to_set().insert(x));
}

} // verus!
