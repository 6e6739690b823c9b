//! Decoding of data rows.
//!
//! The header row names the columns. A data row is read through those names
//! into a transaction, which is then classified: with a product identifier
//! it stands under an identified key and counts by quantity, without one it
//! is an adjustment and counts by its signed cents.

use vstd::prelude::*;
use crate::error::ReportError;
use crate::money::{cents_of, integer_value, parse_cents, parse_integer, per_unit, unit_cents};
use crate::text::{copy_bytes, same_bytes};
use crate::trx::{Adjustment, Key, Trx, WithSku};

verus! {

/// One data row as read: a loosely typed transaction.
#[derive(Clone, Debug, PartialEq, Eq)]
pub struct RefSale {
    pub kind: Vec<u8>,
    pub sku: Option<Vec<u8>>,
    pub total: Vec<u8>,
    pub quantity: i64,
    pub description: Vec<u8>,
}

/// The mathematical value of a [`RefSale`].
pub struct RefSaleView {
    pub kind: Seq<u8>,
    pub sku: Option<Seq<u8>>,
    pub total: Seq<u8>,
    pub quantity: int,
    pub description: Seq<u8>,
}

impl View for RefSale {
    type V = RefSaleView;

    open spec fn view(&self) -> RefSaleView {
        RefSaleView {
            kind: self.kind@,
            sku: match self.sku {
                Some(s) => Some(s@),
                None => None,
            },
            total: self.total@,
            quantity: self.quantity as int,
            description: self.description@,
        }
    }
}

/// Where each field stands in a row, as far as the header names it.
#[derive(Clone, Copy, Debug)]
pub struct Columns {
    pub kind: Option<usize>,
    pub sku: Option<usize>,
    pub total: Option<usize>,
    pub quantity: Option<usize>,
    pub description: Option<usize>,
}

/// The mathematical value of [`Columns`].
pub struct ColumnsView {
    pub kind: Option<int>,
    pub sku: Option<int>,
    pub total: Option<int>,
    pub quantity: Option<int>,
    pub description: Option<int>,
}

/// An optional index as an optional integer.
pub open spec fn index_view(i: Option<usize>) -> Option<int> {
    match i {
        Some(i) => Some(i as int),
        None => None,
    }
}

impl View for Columns {
    type V = ColumnsView;

    open spec fn view(&self) -> ColumnsView {
        ColumnsView {
            kind: index_view(self.kind),
            sku: index_view(self.sku),
            total: index_view(self.total),
            quantity: index_view(self.quantity),
            description: index_view(self.description),
        }
    }
}

/// The fields of a row as byte strings.
pub open spec fn fields_of(row: Seq<Vec<u8>>) -> Seq<Seq<u8>> {
    Seq::new(row.len(), |j: int| row[j]@)
}

/// The header name `kind`.
pub open spec fn name_kind() -> Seq<u8> {
    seq![107u8, 105u8, 110u8, 100u8]
}

/// The header name `type`, under which the kind may stand as well.
pub open spec fn name_type() -> Seq<u8> {
    seq![116u8, 121u8, 112u8, 101u8]
}

/// The header name `sku`.
pub open spec fn name_sku() -> Seq<u8> {
    seq![115u8, 107u8, 117u8]
}

/// The header name `total`.
pub open spec fn name_total() -> Seq<u8> {
    seq![116u8, 111u8, 116u8, 97u8, 108u8]
}

/// The header name `quantity`.
pub open spec fn name_quantity() -> Seq<u8> {
    seq![113u8, 117u8, 97u8, 110u8, 116u8, 105u8, 116u8, 121u8]
}

/// The header name `description`.
pub open spec fn name_description() -> Seq<u8> {
    seq![100u8, 101u8, 115u8, 99u8, 114u8, 105u8, 112u8, 116u8, 105u8, 111u8, 110u8]
}

/// The first place of `header` that holds `name` or `alias`.
pub open spec fn column_of(header: Seq<Seq<u8>>, name: Seq<u8>, alias: Seq<u8>) -> Option<int>
    decreases header.len(),
{
    if header.len() == 0 {
        None
    } else {
        match column_of(header.drop_last(), name, alias) {
            Some(i) => Some(i),
            None => if header.last() == name || header.last() == alias {
                Some(header.len() - 1)
            } else {
                None
            },
        }
    }
}

/// The columns that `header` names.
pub open spec fn columns_of(header: Seq<Seq<u8>>) -> ColumnsView {
    ColumnsView {
        kind: column_of(header, name_kind(), name_type()),
        sku: column_of(header, name_sku(), name_sku()),
        total: column_of(header, name_total(), name_total()),
        quantity: column_of(header, name_quantity(), name_quantity()),
        description: column_of(header, name_description(), name_description()),
    }
}

/// The field of `row` in column `col`, where the header names the column and
/// the row reaches it.
pub open spec fn field(row: Seq<Seq<u8>>, col: Option<int>) -> Option<Seq<u8>> {
    match col {
        Some(i) => if 0 <= i < row.len() {
            Some(row[i])
        } else {
            None
        },
        None => None,
    }
}

/// The quantity that a field stands for: zero where the field is missing or
/// empty, else the integer it writes, if it writes one that fits.
pub open spec fn quantity_of(f: Option<Seq<u8>>) -> Option<int> {
    match f {
        None => Some(0),
        Some(s) => if s.len() == 0 {
            Some(0)
        } else {
            match integer_value(s) {
                Some(v) => if i64::MIN <= v <= i64::MAX {
                    Some(v)
                } else {
                    None
                },
                None => None,
            }
        },
    }
}

/// The product identifier that a field stands for: none where the field is
/// missing or empty.
pub open spec fn sku_of(f: Option<Seq<u8>>) -> Option<Seq<u8>> {
    match f {
        Some(s) => if s.len() > 0 {
            Some(s)
        } else {
            None
        },
        None => None,
    }
}

/// The kind that a field stands for: empty where the field is missing.
pub open spec fn kind_of(f: Option<Seq<u8>>) -> Seq<u8> {
    match f {
        Some(s) => s,
        None => Seq::empty(),
    }
}

/// The transaction that `row` holds under the columns `cols`. The total and
/// the description must be there, and the quantity must be a number.
pub open spec fn decoded(cols: ColumnsView, row: Seq<Seq<u8>>) -> Result<RefSaleView, ReportError> {
    match (field(row, cols.total), field(row, cols.description), quantity_of(field(row, cols.quantity))) {
        (Some(total), Some(description), Some(quantity)) => Ok(
            RefSaleView {
                kind: kind_of(field(row, cols.kind)),
                sku: sku_of(field(row, cols.sku)),
                total,
                quantity,
                description,
            },
        ),
        _ => Err(ReportError::DecodeFailure),
    }
}

/// The key of a transaction and the amount that it adds under that key.
///
/// With a non-empty product identifier the key is identified, its unit price
/// is the total divided by the quantity (the total itself for quantity
/// zero), and the amount is the quantity. Otherwise the key is an adjustment
/// and the amount is the total in cents.
pub open spec fn classified(s: RefSaleView) -> Result<(Key, int), ReportError> {
    match cents_of(s.total) {
        None => Err(ReportError::MalformedAmount),
        Some(c) => if s.sku is Some && s.sku.unwrap().len() > 0 {
            Ok(
                (
                    Key {
                        kind: s.kind,
                        description: s.description,
                        identified: true,
                        sku: s.sku.unwrap(),
                        unit: unit_cents(c as i64, s.quantity as i64) as int,
                    },
                    s.quantity,
                ),
            )
        } else {
            Ok(
                (
                    Key {
                        kind: s.kind,
                        description: s.description,
                        identified: false,
                        sku: Seq::empty(),
                        unit: 0,
                    },
                    c,
                ),
            )
        },
    }
}

/// The key and amount of a data row under the columns `cols`.
pub open spec fn transaction_of(cols: ColumnsView, row: Seq<Seq<u8>>) -> Result<(Key, int), ReportError> {
    match decoded(cols, row) {
        Ok(s) => classified(s),
        Err(e) => Err(e),
    }
}

/// A column found in a prefix of the header is the column of the header.
pub proof fn lemma_column_prefix(header: Seq<Seq<u8>>, name: Seq<u8>, alias: Seq<u8>, n: int)
    requires
        0 <= n <= header.len(),
        column_of(header.take(n), name, alias) is Some,
    ensures
        column_of(header, name, alias) == column_of(header.take(n), name, alias),
    decreases header.len() - n,
{
    if n == header.len() {
        assert(header.take(n) =~= header);
    } else {
        assert(header.take(n + 1).drop_last() =~= header.take(n));
        lemma_column_prefix(header, name, alias, n + 1);
    }
}

/// Finds the first field of `header` that is `name` or `alias`.
pub fn find_column(header: &Vec<Vec<u8>>, name: &[u8], alias: &[u8]) -> (r: Option<usize>)
    ensures
        index_view(r) == column_of(fields_of(header@), name@, alias@),
{
    let ghost h = fields_of(header@);
    let mut i: usize = 0;
    while i < header.len()
        invariant
            i <= header.len(),
            h == fields_of(header@),
            column_of(h.take(i as int), name@, alias@) is None,
        decreases header.len() - i,
    {
        proof {
            assert(h.take(i + 1).drop_last() =~= h.take(i as int));
            assert(h.take(i + 1).last() == header@[i as int]@);
        }
        if same_bytes(&header[i], name) || same_bytes(&header[i], alias) {
            proof {
                lemma_column_prefix(h, name@, alias@, i + 1);
            }
            return Some(i);
        }
        i += 1;
    }
    proof {
        assert(h.take(i as int) =~= h);
    }
    None
}

impl Columns {
    /// Reads the places of the fields from the header row. The kind may
    /// stand under `kind` or `type`; the other fields stand under `sku`,
    /// `total`, `quantity` and `description`.
    pub fn from_header(header: &Vec<Vec<u8>>) -> (cols: Columns)
        ensures
            cols@ == columns_of(fields_of(header@)),
    {
        let kind = vec![107u8, 105u8, 110u8, 100u8];
        let alias = vec![116u8, 121u8, 112u8, 101u8];
        let sku = vec![115u8, 107u8, 117u8];
        let total = vec![116u8, 111u8, 116u8, 97u8, 108u8];
        let quantity = vec![113u8, 117u8, 97u8, 110u8, 116u8, 105u8, 116u8, 121u8];
        let description = vec![
            100u8,
            101u8,
            115u8,
            99u8,
            114u8,
            105u8,
            112u8,
            116u8,
            105u8,
            111u8,
            110u8,
        ];
        proof {
            assert(kind@ =~= name_kind());
            assert(alias@ =~= name_type());
            assert(sku@ =~= name_sku());
            assert(total@ =~= name_total());
            assert(quantity@ =~= name_quantity());
            assert(description@ =~= name_description());
        }
        Columns {
            kind: find_column(header, kind.as_slice(), alias.as_slice()),
            sku: find_column(header, sku.as_slice(), sku.as_slice()),
            total: find_column(header, total.as_slice(), total.as_slice()),
            quantity: find_column(header, quantity.as_slice(), quantity.as_slice()),
            description: find_column(header, description.as_slice(), description.as_slice()),
        }
    }
}

/// A copy of the field of `row` in column `col`, if there is one.
pub fn get_field(row: &Vec<Vec<u8>>, col: Option<usize>) -> (r: Option<Vec<u8>>)
    ensures
        match r {
            Some(f) => field(fields_of(row@), index_view(col)) == Some(f@),
            None => field(fields_of(row@), index_view(col)) is None,
        },
{
    match col {
        Some(i) => if i < row.len() {
            Some(copy_bytes(&row[i]))
        } else {
            None
        },
        None => None,
    }
}

/// Reads a quantity: an empty field counts as zero.
pub fn deserialize_quantity(text: &Vec<u8>) -> (r: Result<i64, ReportError>)
    ensures
        match r {
            Ok(q) => quantity_of(Some(text@)) == Some(q as int),
            Err(e) => e == ReportError::DecodeFailure && quantity_of(Some(text@)) is None,
        },
{
    if text.len() == 0 {
        Ok(0)
    } else {
        match parse_integer(text.as_slice()) {
            Some(q) => Ok(q),
            None => Err(ReportError::DecodeFailure),
        }
    }
}

impl RefSale {
    /// Decodes one data row under the columns `cols`.
    pub fn decode(cols: &Columns, row: &Vec<Vec<u8>>) -> (r: Result<RefSale, ReportError>)
        ensures
            match r {
                Ok(sale) => decoded(cols@, fields_of(row@)) == Ok::<RefSaleView, ReportError>(sale@),
                Err(e) => decoded(cols@, fields_of(row@)) == Err::<RefSaleView, ReportError>(e),
            },
    {
        let total = match get_field(row, cols.total) {
            Some(t) => t,
            None => {
                return Err(ReportError::DecodeFailure);
            },
        };
        let description = match get_field(row, cols.description) {
            Some(d) => d,
            None => {
                return Err(ReportError::DecodeFailure);
            },
        };
        let quantity: i64 = match get_field(row, cols.quantity) {
            Some(q) => match deserialize_quantity(&q) {
                Ok(q) => q,
                Err(e) => {
                    return Err(e);
                },
            },
            None => 0,
        };
        let kind = match get_field(row, cols.kind) {
            Some(k) => k,
            None => Vec::new(),
        };
        let sku = match get_field(row, cols.sku) {
            Some(s) => if s.len() > 0 {
                Some(s)
            } else {
                None
            },
            None => None,
        };
        Ok(RefSale { kind, sku, total, quantity, description })
    }

    /// Classifies the transaction: returns its key and the amount that it
    /// adds under that key.
    pub fn classify(self) -> (r: Result<(Trx, i64), ReportError>)
        ensures
            match r {
                Ok((trx, amount)) => classified(self@) == Ok::<(Key, int), ReportError>(
                    (trx@, amount as int),
                ),
                Err(e) => classified(self@) == Err::<(Key, int), ReportError>(e),
            },
    {
        let cents = match parse_cents(self.total.as_slice()) {
            Ok(c) => c,
            Err(e) => {
                return Err(e);
            },
        };
        let RefSale { kind, sku, total: _, quantity, description } = self;
        match sku {
            Some(sku) => {
                if sku.len() > 0 {
                    let unit = per_unit(cents, quantity);
                    Ok((Trx::WithSku(WithSku { kind, sku, cents: unit, description }), quantity))
                } else {
                    Ok((Trx::Adjustment(Adjustment { kind, description }), cents))
                }
            },
            None => Ok((Trx::Adjustment(Adjustment { kind, description }), cents)),
        }
    }
}

} // verus!
