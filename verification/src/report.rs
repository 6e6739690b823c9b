//! One run over a report: from the bytes of the input to the output rows.
//!
//! The input is a delimited text. Its first rows are a preamble, the row
//! after them is the header, the rest is data. Each data row is
//! fingerprinted; a row whose fingerprint is known is skipped, any other is
//! decoded, classified and folded into the totals. A row that cannot be
//! decoded fails the whole run.

use vstd::prelude::*;
use crate::aggregate::{
    all_fit, current, entries_of, lemma_entries_of, lemma_entries_of_empty, lemma_step_commutes,
    rows_of, sales_view, step, Aggregator,
};
use crate::error::ReportError;
use crate::memory::{fingerprint, seahash_of, Memory};
use crate::record::{columns_of, fields_of, transaction_of, Columns, ColumnsView, RefSale};
use crate::trx::{Key, Sale, SaleView};

verus! {

/// The number of rows before the header row.
pub const PREAMBLE: usize = 7;

/// The rows that the `csv` reader yields on `input`, each row as its fields,
/// when it reads without a header row and accepts rows of any length; none
/// where the reader reports an error.
pub uninterp spec fn csv_rows(input: Seq<u8>) -> Option<Seq<Seq<Seq<u8>>>>;

/// The error of the `csv` reader.
#[verifier::external_type_specification]
#[verifier::external_body]
pub struct ExCsvError(csv::Error);

/// Reads `input` with `csv::Reader::byte_records`, from a reader built with
/// `has_headers(false)` and `flexible(true)`. The rows are handed back as
/// the reader yields them, field by field, or its first error.
#[verifier::external_body]
pub(crate) fn read_rows(input: &[u8]) -> (r: Result<Vec<Vec<Vec<u8>>>, csv::Error>)
    ensures
        match r {
            Ok(rows) => csv_rows(input@) == Some(table_of(rows@)),
            Err(_) => csv_rows(input@) is None,
        },
{
    let mut reader = csv::ReaderBuilder::new().has_headers(false).flexible(true).from_reader(input);
    let mut rows = Vec::new();
    for record in reader.byte_records() {
        rows.push(record?.iter().map(<[u8]>::to_vec).collect());
    }
    Ok(rows)
}

/// The bytes of the text that `input` decodes to as UTF-8 when every invalid
/// sequence is replaced by U+FFFD.
pub uninterp spec fn lossy_of(input: Seq<u8>) -> Seq<u8>;

/// Decodes `input` with `String::from_utf8_lossy` and hands back the bytes
/// of the text. Nothing is claimed beyond that this is that function's
/// value on `input`.
#[verifier::external_body]
pub(crate) fn decode_lossy(input: &[u8]) -> (text: Vec<u8>)
    ensures
        text@ == lossy_of(input@),
{
    String::from_utf8_lossy(input).into_owned().into_bytes()
}

/// The rows of a table, each as its fields.
pub open spec fn table_of(rows: Seq<Vec<Vec<u8>>>) -> Seq<Seq<Seq<u8>>> {
    Seq::new(rows.len(), |i: int| fields_of(rows[i]@))
}

/// The fields of a row, one after the other without anything between them.
pub open spec fn joined(row: Seq<Seq<u8>>) -> Seq<u8>
    decreases row.len(),
{
    if row.len() == 0 {
        Seq::empty()
    } else {
        joined(row.drop_last()) + row.last()
    }
}

/// The fingerprint of a row: the hash of its joined fields.
pub open spec fn fingerprint_of(row: Seq<Seq<u8>>) -> u64 {
    seahash_of(joined(row))
}

/// What a run holds between two rows: the fingerprints known and the totals.
pub struct RunState {
    pub seen: Set<u64>,
    pub totals: Map<Key, int>,
}

/// The state after one more row, whose fingerprint is `fp`. A known row
/// changes nothing. Any other row is decoded and classified; its amount is
/// added under its key and its fingerprint becomes known.
pub open spec fn step_with(cols: ColumnsView, row: Seq<Seq<u8>>, fp: u64, st: RunState) -> Result<
    RunState,
    ReportError,
> {
    if st.seen.contains(fp) {
        Ok(st)
    } else {
        match transaction_of(cols, row) {
            Err(e) => Err(e),
            Ok((k, amount)) => if i64::MIN <= current(st.totals, k) + amount <= i64::MAX {
                Ok(RunState { seen: st.seen.insert(fp), totals: step(st.totals, k, amount) })
            } else {
                Err(ReportError::TotalOverflow)
            },
        }
    }
}

/// The state after one more row, known by the hash of its joined fields.
pub open spec fn step_row(cols: ColumnsView, row: Seq<Seq<u8>>, st: RunState) -> Result<
    RunState,
    ReportError,
> {
    step_with(cols, row, fingerprint_of(row), st)
}

/// The state after the rows `rows`, taken first to last from `start`. The
/// first row that fails ends the run with its error.
pub open spec fn run_rows(cols: ColumnsView, rows: Seq<Seq<Seq<u8>>>, start: RunState) -> Result<
    RunState,
    ReportError,
>
    decreases rows.len(),
{
    if rows.len() == 0 {
        Ok(start)
    } else {
        match run_rows(cols, rows.drop_last(), start) {
            Ok(st) => step_row(cols, rows.last(), st),
            Err(e) => Err(e),
        }
    }
}

/// The state after a whole table, for a memory that knows `seen`.
pub open spec fn run_table(table: Seq<Seq<Seq<u8>>>, seen: Set<u64>) -> Result<
    RunState,
    ReportError,
> {
    if table.len() <= PREAMBLE {
        Err(ReportError::MissingHeader)
    } else {
        run_rows(
            columns_of(table[PREAMBLE as int]),
            table.skip(PREAMBLE + 1),
            RunState { seen, totals: Map::empty() },
        )
    }
}

/// The result of a run over a table: the output rows and the fingerprints
/// known afterwards, or the error that ended it.
pub open spec fn outcome_of(table: Seq<Seq<Seq<u8>>>, seen: Set<u64>) -> Result<
    (Seq<SaleView>, Set<u64>),
    ReportError,
> {
    match run_table(table, seen) {
        Err(e) => Err(e),
        Ok(st) => if all_fit(entries_of(st.totals)) {
            Ok((rows_of(entries_of(st.totals)), st.seen))
        } else {
            Err(ReportError::TotalOverflow)
        },
    }
}

/// The list of fingerprints after the rows `rows`: the fingerprint of each
/// row, first to last, is put at the end unless the list holds it already.
pub open spec fn listed_after(list: Seq<u64>, rows: Seq<Seq<Seq<u8>>>) -> Seq<u64>
    decreases rows.len(),
{
    if rows.len() == 0 {
        list
    } else {
        let before = listed_after(list, rows.drop_last());
        let fp = fingerprint_of(rows.last());
        if before.contains(fp) {
            before
        } else {
            before.push(fp)
        }
    }
}

/// What a run hands back: the rows for the sink, in their final order, and
/// the memory to persist once the sink has written them.
#[derive(Debug)]
pub struct Outcome {
    pub sales: Vec<Sale>,
    pub memory: Memory,
}

/// Joins the fields of a row.
pub fn join_fields(row: &Vec<Vec<u8>>) -> (out: Vec<u8>)
    ensures
        out@ == joined(fields_of(row@)),
{
    let ghost f = fields_of(row@);
    let mut out: Vec<u8> = Vec::new();
    let mut i: usize = 0;
    while i < row.len()
        invariant
            i <= row.len(),
            f == fields_of(row@),
            out@ == joined(f.take(i as int)),
        decreases row.len() - i,
    {
        let field = &row[i];
        let ghost before = out@;
        let mut j: usize = 0;
        while j < field.len()
            invariant
                j <= field.len(),
                out@ == before + field@.take(j as int),
            decreases field.len() - j,
        {
            out.push(field[j]);
            proof {
                assert(field@.take(j + 1) =~= field@.take(j as int).push(field@[j as int]));
            }
            j += 1;
        }
        proof {
            assert(field@.take(j as int) =~= field@);
            assert(f.take(i + 1).drop_last() =~= f.take(i as int));
            assert(f.take(i + 1).last() == field@);
        }
        i += 1;
    }
    proof {
        assert(f.take(i as int) =~= f);
    }
    out
}

/// Entry point of the library.
pub struct Report;

impl Report {
    /// Takes one data row whose fingerprint is `fp`. A row whose fingerprint
    /// is known is skipped. Any other row is decoded, classified and folded
    /// into the totals, and its fingerprint is remembered. Where that fails,
    /// neither the memory nor the totals change.
    pub fn take_row(
        cols: &Columns,
        row: &Vec<Vec<u8>>,
        fp: u64,
        memory: &mut Memory,
        totals: &mut Aggregator,
    ) -> (r: Result<(), ReportError>)
        requires
            old(memory).wf(),
            old(totals).wf(),
        ensures
            final(memory).wf(),
            final(totals).wf(),
            match step_with(
                cols@,
                fields_of(row@),
                fp,
                RunState { seen: old(memory)@, totals: old(totals).totals() },
            ) {
                Ok(st) => {
                    &&& r is Ok
                    &&& final(memory)@ == st.seen
                    &&& final(totals).totals() == st.totals
                    &&& final(memory).listed() == if old(memory)@.contains(fp) {
                        old(memory).listed()
                    } else {
                        old(memory).listed().push(fp)
                    }
                },
                Err(e) => {
                    &&& r is Err
                    &&& r->Err_0 == e
                    &&& final(memory)@ == old(memory)@
                    &&& final(memory).listed() == old(memory).listed()
                    &&& final(totals)@ == old(totals)@
                },
            },
    {
        if memory.contains(fp) {
            return Ok(());
        }
        let sale = match RefSale::decode(cols, row) {
            Ok(sale) => sale,
            Err(e) => {
                return Err(e);
            },
        };
        let (key, amount) = match sale.classify() {
            Ok(pair) => pair,
            Err(e) => {
                return Err(e);
            },
        };
        match totals.fold(key, amount) {
            Ok(_) => {},
            Err(e) => {
                return Err(e);
            },
        }
        memory.remember(fp);
        Ok(())
    }

    /// Runs over the rows of a table that has been read already.
    ///
    /// Fails with `MissingHeader` where the table ends before the header
    /// row, with the error of the first data row that cannot be decoded or
    /// classified, and with `TotalOverflow` where a total or a row's cents
    /// leave the range of an `i64`. Otherwise the rows come back sorted and
    /// the memory holds, besides what it held, the fingerprint of every data
    /// row.
    #[verifier::loop_isolation(false)]
    pub fn consolidate(table: &Vec<Vec<Vec<u8>>>, memory: Memory) -> (r: Result<Outcome, ReportError>)
        requires
            memory.wf(),
        ensures
            match r {
                Ok(out) => {
                    &&& out.memory.wf()
                    &&& outcome_of(table_of(table@), memory@) == Ok::<
                        (Seq<SaleView>, Set<u64>),
                        ReportError,
                    >((sales_view(out.sales@), out.memory@))
                    &&& out.memory.listed() == listed_after(
                        memory.listed(),
                        table_of(table@).skip(PREAMBLE + 1),
                    )
                },
                Err(e) => outcome_of(table_of(table@), memory@) == Err::<
                    (Seq<SaleView>, Set<u64>),
                    ReportError,
                >(e),
            },
    {
        if table.len() <= PREAMBLE {
            return Err(ReportError::MissingHeader);
        }
        let ghost whole = table_of(table@);
        let ghost data = whole.skip(PREAMBLE + 1);
        let ghost start = RunState { seen: memory@, totals: Map::empty() };
        let cols = Columns::from_header(&table[PREAMBLE]);
        let mut known = memory;
        let mut totals = Aggregator::new();
        let mut i: usize = PREAMBLE + 1;
        while i < table.len()
            invariant
                PREAMBLE + 1 <= i <= table.len(),
                whole == table_of(table@),
                data == whole.skip(PREAMBLE + 1),
                cols@ == columns_of(whole[PREAMBLE as int]),
                known.wf(),
                totals.wf(),
                run_rows(cols@, data.take(i - (PREAMBLE + 1)), start) == Ok::<RunState, ReportError>(
                    RunState { seen: known@, totals: totals.totals() },
                ),
                known.listed() == listed_after(memory.listed(), data.take(i - (PREAMBLE + 1))),
            decreases table.len() - i,
        {
            let ghost k = i - (PREAMBLE + 1);
            proof {
                assert(data.take(k + 1).drop_last() =~= data.take(k));
                assert(data.take(k + 1).last() == fields_of(table@[i as int]@));
                known.lemma_listed();
            }
            let row = &table[i];
            let bytes = join_fields(row);
            let fp = fingerprint(bytes.as_slice());
            match Report::take_row(&cols, row, fp, &mut known, &mut totals) {
                Ok(_) => {},
                Err(e) => {
                    proof {
                        lemma_run_fails(cols@, data, k + 1, start);
                    }
                    return Err(e);
                },
            }
            i += 1;
        }
        proof {
            assert(data.take(i - (PREAMBLE + 1)) =~= data);
            lemma_entries_of(totals@);
        }
        match totals.finalize() {
            Ok(sales) => Ok(Outcome { sales, memory: known }),
            Err(e) => Err(e),
        }
    }

    /// Reads the report `input` and runs over its rows; see
    /// [`Report::consolidate`]. The input need not be UTF-8: it is decoded
    /// leniently before it is split into rows. An input that the reader
    /// rejects fails with `DecodeFailure`.
    pub fn parse(input: &[u8], memory: Memory) -> (r: Result<Outcome, ReportError>)
        requires
            memory.wf(),
        ensures
            match csv_rows(lossy_of(input@)) {
                None => r is Err && r->Err_0 == ReportError::DecodeFailure,
                Some(table) => match r {
                    Ok(out) => {
                        &&& out.memory.wf()
                        &&& outcome_of(table, memory@) == Ok::<(Seq<SaleView>, Set<u64>), ReportError>(
                            (sales_view(out.sales@), out.memory@),
                        )
                        &&& out.memory.listed() == listed_after(
                            memory.listed(),
                            table.skip(PREAMBLE + 1),
                        )
                    },
                    Err(e) => outcome_of(table, memory@) == Err::<
                        (Seq<SaleView>, Set<u64>),
                        ReportError,
                    >(e),
                },
            },
    {
        let text = decode_lossy(input);
        match read_rows(text.as_slice()) {
            Ok(table) => Report::consolidate(&table, memory),
            Err(_) => Err(ReportError::DecodeFailure),
        }
    }
}

/// A run that has failed after some rows has failed after all of them, with
/// the same error.
pub proof fn lemma_run_fails(cols: ColumnsView, rows: Seq<Seq<Seq<u8>>>, n: int, start: RunState)
    requires
        0 <= n <= rows.len(),
        run_rows(cols, rows.take(n), start) is Err,
    ensures
        run_rows(cols, rows, start) == run_rows(cols, rows.take(n), start),
    decreases rows.len() - n,
{
    if n == rows.len() {
        assert(rows.take(n) =~= rows);
    } else {
        assert(rows.take(n + 1).drop_last() =~= rows.take(n));
        lemma_run_fails(cols, rows, n + 1, start);
    }
}

/// A run never forgets: what was known stays known, and every row of a run
/// that succeeds is known afterwards.
pub proof fn lemma_run_remembers(cols: ColumnsView, rows: Seq<Seq<Seq<u8>>>, start: RunState)
    requires
        run_rows(cols, rows, start) is Ok,
    ensures
        start.seen.subset_of(run_rows(cols, rows, start)->Ok_0.seen),
        forall|i: int|
            0 <= i < rows.len() ==> run_rows(cols, rows, start)->Ok_0.seen.contains(
                fingerprint_of(#[trigger] rows[i]),
            ),
    decreases rows.len(),
{
    if rows.len() > 0 {
        lemma_run_remembers(cols, rows.drop_last(), start);
        let mid = run_rows(cols, rows.drop_last(), start)->Ok_0;
        let end = run_rows(cols, rows, start)->Ok_0;
        assert(mid.seen.subset_of(end.seen));
        assert forall|i: int| 0 <= i < rows.len() implies end.seen.contains(
            fingerprint_of(#[trigger] rows[i]),
        ) by {
            if i < rows.len() - 1 {
                assert(rows.drop_last()[i] == rows[i]);
            }
        }
    }
}

/// A run over rows that are all known changes nothing.
pub proof fn lemma_run_known(cols: ColumnsView, rows: Seq<Seq<Seq<u8>>>, start: RunState)
    requires
        forall|i: int| 0 <= i < rows.len() ==> start.seen.contains(fingerprint_of(#[trigger] rows[i])),
    ensures
        run_rows(cols, rows, start) == Ok::<RunState, ReportError>(start),
    decreases rows.len(),
{
    if rows.len() > 0 {
        assert forall|i: int| 0 <= i < rows.drop_last().len() implies start.seen.contains(
            fingerprint_of(#[trigger] rows.drop_last()[i]),
        ) by {
            assert(rows.drop_last()[i] == rows[i]);
        }
        lemma_run_known(cols, rows.drop_last(), start);
        assert(start.seen.contains(fingerprint_of(rows[rows.len() - 1])));
    }
}

/// Law: a run is idempotent. After a run that succeeded, a second run over
/// the same table, with the memory that the first one left, skips every row:
/// it has no totals, hands out no rows and leaves the memory as it is.
pub proof fn lemma_second_run_is_empty(table: Seq<Seq<Seq<u8>>>, seen: Set<u64>)
    requires
        run_table(table, seen) is Ok,
    ensures
        run_table(table, run_table(table, seen)->Ok_0.seen) == Ok::<RunState, ReportError>(
            RunState { seen: run_table(table, seen)->Ok_0.seen, totals: Map::empty() },
        ),
        outcome_of(table, run_table(table, seen)->Ok_0.seen) == Ok::<
            (Seq<SaleView>, Set<u64>),
            ReportError,
        >((Seq::empty(), run_table(table, seen)->Ok_0.seen)),
{
    let cols = columns_of(table[PREAMBLE as int]);
    let data = table.skip(PREAMBLE + 1);
    let first = RunState { seen, totals: Map::empty() };
    lemma_run_remembers(cols, data, first);
    let known = run_table(table, seen)->Ok_0.seen;
    lemma_run_known(cols, data, RunState { seen: known, totals: Map::empty() });
    lemma_entries_of_empty();
    assert(rows_of(Seq::<(Key, int)>::empty()) =~= Seq::<SaleView>::empty());
}

/// No two different rows of `rows` have the same fingerprint.
pub open spec fn collision_free(rows: Seq<Seq<Seq<u8>>>) -> bool {
    forall|i: int, j: int|
        0 <= i < rows.len() && 0 <= j < rows.len() && fingerprint_of(#[trigger] rows[i])
            == fingerprint_of(#[trigger] rows[j]) ==> rows[i] == rows[j]
}

/// The state after one more row where nothing stops the run: a row that
/// cannot be read adds nothing, and totals are not held to any range.
pub open spec fn step_free(cols: ColumnsView, row: Seq<Seq<u8>>, st: RunState) -> RunState {
    let fp = fingerprint_of(row);
    if st.seen.contains(fp) {
        st
    } else {
        match transaction_of(cols, row) {
            Err(_) => RunState { seen: st.seen.insert(fp), totals: st.totals },
            Ok((k, amount)) => RunState {
                seen: st.seen.insert(fp),
                totals: step(st.totals, k, amount),
            },
        }
    }
}

/// The state after the rows `rows` where nothing stops the run.
pub open spec fn run_free(cols: ColumnsView, rows: Seq<Seq<Seq<u8>>>, start: RunState) -> RunState
    decreases rows.len(),
{
    if rows.len() == 0 {
        start
    } else {
        step_free(cols, rows.last(), run_free(cols, rows.drop_last(), start))
    }
}

/// A run that succeeds ends where the run that nothing stops ends.
pub proof fn lemma_run_is_free(cols: ColumnsView, rows: Seq<Seq<Seq<u8>>>, start: RunState)
    requires
        run_rows(cols, rows, start) is Ok,
    ensures
        run_rows(cols, rows, start)->Ok_0 == run_free(cols, rows, start),
    decreases rows.len(),
{
    if rows.len() > 0 {
        lemma_run_is_free(cols, rows.drop_last(), start);
    }
}

/// Two rows that do not collide can be taken in either order.
pub proof fn lemma_step_free_commutes(
    cols: ColumnsView,
    x: Seq<Seq<u8>>,
    y: Seq<Seq<u8>>,
    st: RunState,
)
    requires
        fingerprint_of(x) == fingerprint_of(y) ==> x == y,
    ensures
        step_free(cols, x, step_free(cols, y, st)) == step_free(cols, y, step_free(cols, x, st)),
{
    let a = step_free(cols, x, step_free(cols, y, st));
    let b = step_free(cols, y, step_free(cols, x, st));
    if x != y {
        assert(a.seen =~= b.seen);
        match (transaction_of(cols, x), transaction_of(cols, y)) {
            (Ok(tx), Ok(ty)) => {
                lemma_step_commutes(st.totals, tx, ty);
            },
            _ => {},
        }
        assert(a.totals == b.totals);
    }
}

/// The run over all rows is the run over the rows without one of them,
/// followed by that row.
pub proof fn lemma_run_free_remove(
    cols: ColumnsView,
    rows: Seq<Seq<Seq<u8>>>,
    i: int,
    start: RunState,
)
    requires
        0 <= i < rows.len(),
        collision_free(rows),
    ensures
        run_free(cols, rows, start) == step_free(
            cols,
            rows[i],
            run_free(cols, rows.remove(i), start),
        ),
    decreases rows.len(),
{
    if i == rows.len() - 1 {
        assert(rows.remove(i) =~= rows.drop_last());
    } else {
        let rest = rows.drop_last();
        assert(collision_free(rest)) by {
            assert forall|p: int, q: int|
                0 <= p < rest.len() && 0 <= q < rest.len() && fingerprint_of(#[trigger] rest[p])
                    == fingerprint_of(#[trigger] rest[q]) implies rest[p] == rest[q] by {
                assert(rest[p] == rows[p] && rest[q] == rows[q]);
            }
        }
        lemma_run_free_remove(cols, rest, i, start);
        assert(rest.remove(i) =~= rows.remove(i).drop_last());
        assert(rows.remove(i).last() == rows.last());
        assert(rows[rows.len() - 1] == rows.last());
        lemma_step_free_commutes(cols, rows.last(), rows[i], run_free(cols, rest.remove(i), start));
    }
}

/// The same rows in another order do not collide either.
pub proof fn lemma_collision_free_reordered(a: Seq<Seq<Seq<u8>>>, b: Seq<Seq<Seq<u8>>>)
    requires
        a.to_multiset() == b.to_multiset(),
        collision_free(a),
    ensures
        collision_free(b),
{
    a.to_multiset_ensures();
    b.to_multiset_ensures();
    assert forall|p: int, q: int|
        0 <= p < b.len() && 0 <= q < b.len() && fingerprint_of(#[trigger] b[p]) == fingerprint_of(
            #[trigger] b[q],
        ) implies b[p] == b[q] by {
        assert(b.contains(b[p]) && b.contains(b[q]));
        assert(a.to_multiset().count(b[p]) > 0 && a.to_multiset().count(b[q]) > 0);
        assert(a.contains(b[p]) && a.contains(b[q]));
        let i = choose|i: int| 0 <= i < a.len() && a[i] == b[p];
        let j = choose|j: int| 0 <= j < a.len() && a[j] == b[q];
        assert(fingerprint_of(a[i]) == fingerprint_of(a[j]));
    }
}

/// Where nothing stops the run, the order of the rows does not matter.
pub proof fn lemma_run_free_reordered(
    cols: ColumnsView,
    a: Seq<Seq<Seq<u8>>>,
    b: Seq<Seq<Seq<u8>>>,
    start: RunState,
)
    requires
        a.to_multiset() == b.to_multiset(),
        collision_free(a),
    ensures
        run_free(cols, a, start) == run_free(cols, b, start),
    decreases a.len(),
{
    a.to_multiset_ensures();
    b.to_multiset_ensures();
    if a.len() == 0 {
        assert(b.len() == 0);
    } else {
        let x = a.last();
        assert(a.contains(x)) by {
            assert(a[a.len() - 1] == x);
        }
        assert(b.to_multiset().count(x) > 0);
        assert(b.contains(x));
        let i = choose|i: int| 0 <= i < b.len() && b[i] == x;
        let rest = a.drop_last();
        assert(rest =~= a.remove(a.len() - 1));
        assert(rest.to_multiset() =~= b.remove(i).to_multiset());
        assert(collision_free(rest)) by {
            assert forall|p: int, q: int|
                0 <= p < rest.len() && 0 <= q < rest.len() && fingerprint_of(#[trigger] rest[p])
                    == fingerprint_of(#[trigger] rest[q]) implies rest[p] == rest[q] by {
                assert(rest[p] == a[p] && rest[q] == a[q]);
            }
        }
        lemma_run_free_reordered(cols, rest, b.remove(i), start);
        lemma_collision_free_reordered(a, b);
        lemma_run_free_remove(cols, b, i, start);
    }
}

/// Law: the output does not depend on the order of the rows. Two runs that
/// succeed from the same memory, over the same data rows in any two orders
/// and under the same header, end with the same totals and the same
/// fingerprints, and so hand out the same rows in the same order. The law is
/// stated for rows of which no two different ones share a fingerprint.
pub proof fn lemma_order_of_rows_is_irrelevant(
    cols: ColumnsView,
    a: Seq<Seq<Seq<u8>>>,
    b: Seq<Seq<Seq<u8>>>,
    start: RunState,
)
    requires
        a.to_multiset() == b.to_multiset(),
        collision_free(a),
        run_rows(cols, a, start) is Ok,
        run_rows(cols, b, start) is Ok,
    ensures
        run_rows(cols, a, start) == run_rows(cols, b, start),
        rows_of(entries_of(run_rows(cols, a, start)->Ok_0.totals)) == rows_of(
            entries_of(run_rows(cols, b, start)->Ok_0.totals),
        ),
{
    lemma_run_is_free(cols, a, start);
    lemma_run_is_free(cols, b, start);
    lemma_run_free_reordered(cols, a, b, start);
}

} // verus!
