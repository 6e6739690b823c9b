//! Consolidation keys and the output rows made from them.
//!
//! A transaction with a product identifier is consolidated under its kind,
//! identifier, description and unit price, and its quantities are summed. One
//! without is an adjustment: it is consolidated under kind and description,
//! and its signed cents are summed.

use vstd::prelude::*;
use crate::money::Cents;
use crate::text::{
    compare_bytes, copy_bytes, lemma_lex_asymmetric, lemma_lex_irreflexive, lemma_lex_total,
    lemma_lex_transitive, lex_lt, Rank,
};

verus! {

/// The product identifier given to every adjustment row: `FBATF`.
pub open spec fn sentinel() -> Seq<u8> {
    seq![70u8, 66u8, 65u8, 84u8, 70u8]
}

/// The key of an adjustment.
#[derive(Clone, Debug, PartialEq, Eq)]
pub struct Adjustment {
    pub kind: Vec<u8>,
    pub description: Vec<u8>,
}

/// The key of a transaction that bears a product identifier.
#[derive(Clone, Debug, PartialEq, Eq)]
pub struct WithSku {
    pub kind: Vec<u8>,
    pub sku: Vec<u8>,
    pub cents: Cents,
    pub description: Vec<u8>,
}

/// A consolidation key of either shape.
#[derive(Clone, Debug, PartialEq, Eq)]
pub enum Trx {
    Adjustment(Adjustment),
    WithSku(WithSku),
}

/// The mathematical value of a consolidation key. An adjustment has no
/// identifier and no unit price: both fields are then empty and zero.
pub struct Key {
    pub kind: Seq<u8>,
    pub description: Seq<u8>,
    pub identified: bool,
    pub sku: Seq<u8>,
    pub unit: int,
}

/// A consolidated output row.
#[derive(Clone, Debug, PartialEq, Eq)]
pub struct Sale {
    pub kind: Vec<u8>,
    pub sku: Vec<u8>,
    pub description: Vec<u8>,
    pub quantity: i64,
    pub cents: Cents,
}

/// The mathematical value of an output row.
pub struct SaleView {
    pub kind: Seq<u8>,
    pub sku: Seq<u8>,
    pub description: Seq<u8>,
    pub quantity: int,
    pub cents: int,
}

impl View for Trx {
    type V = Key;

    open spec fn view(&self) -> Key {
        match self {
            Trx::Adjustment(a) => Key {
                kind: a.kind@,
                description: a.description@,
                identified: false,
                sku: Seq::empty(),
                unit: 0,
            },
            Trx::WithSku(s) => Key {
                kind: s.kind@,
                description: s.description@,
                identified: true,
                sku: s.sku@,
                unit: s.cents as int,
            },
        }
    }
}

impl View for Sale {
    type V = SaleView;

    open spec fn view(&self) -> SaleView {
        SaleView {
            kind: self.kind@,
            sku: self.sku@,
            description: self.description@,
            quantity: self.quantity as int,
            cents: self.cents as int,
        }
    }
}

/// `a` comes strictly before `b`: by kind, then by description, then
/// adjustments before identified keys, then by identifier, then by unit
/// price.
pub open spec fn key_lt(a: Key, b: Key) -> bool {
    if a.kind != b.kind {
        lex_lt(a.kind, b.kind)
    } else if a.description != b.description {
        lex_lt(a.description, b.description)
    } else if a.identified != b.identified {
        b.identified
    } else if a.sku != b.sku {
        lex_lt(a.sku, b.sku)
    } else {
        a.unit < b.unit
    }
}

/// The rank of `a` against `b` in the order of keys.
pub open spec fn key_rank(a: Key, b: Key) -> Rank {
    if a == b {
        Rank::Same
    } else if key_lt(a, b) {
        Rank::Before
    } else {
        Rank::After
    }
}

/// The output row of key `k` with accumulated value `total`.
///
/// For an identified key the value is a quantity, and the row's cents are
/// the unit price times that quantity. For an adjustment the value is the
/// signed cents; the quantity is -1 for a negative total and 1 otherwise,
/// and the identifier is the sentinel.
pub open spec fn sale_of(k: Key, total: int) -> SaleView {
    if k.identified {
        SaleView {
            kind: k.kind,
            sku: k.sku,
            description: k.description,
            quantity: total,
            cents: k.unit * total,
        }
    } else {
        SaleView {
            kind: k.kind,
            sku: sentinel(),
            description: k.description,
            quantity: if total < 0 {
                -1
            } else {
                1
            },
            cents: total,
        }
    }
}

/// The cents of the row of `k` with value `total` fit in an `i64`.
pub open spec fn sale_fits(k: Key, total: int) -> bool {
    i64::MIN <= sale_of(k, total).cents <= i64::MAX
}

/// The order of keys is a strict total order.
pub proof fn lemma_key_order(a: Key, b: Key, c: Key)
    ensures
        !key_lt(a, a),
        a == b || key_lt(a, b) || key_lt(b, a),
        key_lt(a, b) ==> !key_lt(b, a),
        key_lt(a, b) && key_lt(b, c) ==> key_lt(a, c),
{
    lemma_lex_irreflexive(a.kind);
    lemma_lex_irreflexive(a.description);
    lemma_lex_irreflexive(a.sku);
    lemma_lex_total(a.kind, b.kind);
    lemma_lex_total(a.description, b.description);
    lemma_lex_total(a.sku, b.sku);
    if lex_lt(a.kind, b.kind) {
        lemma_lex_asymmetric(a.kind, b.kind);
        if lex_lt(b.kind, c.kind) {
            lemma_lex_transitive(a.kind, b.kind, c.kind);
        }
    }
    if lex_lt(a.description, b.description) {
        lemma_lex_asymmetric(a.description, b.description);
        if lex_lt(b.description, c.description) {
            lemma_lex_transitive(a.description, b.description, c.description);
        }
    }
    if lex_lt(a.sku, b.sku) {
        lemma_lex_asymmetric(a.sku, b.sku);
        if lex_lt(b.sku, c.sku) {
            lemma_lex_transitive(a.sku, b.sku, c.sku);
        }
    }
}

impl Trx {
    /// The transaction kind of the key.
    pub fn kind(&self) -> (r: &Vec<u8>)
        ensures
            r@ == self@.kind,
    {
        match self {
            Trx::Adjustment(a) => &a.kind,
            Trx::WithSku(s) => &s.kind,
        }
    }

    /// The description of the key.
    pub fn description(&self) -> (r: &Vec<u8>)
        ensures
            r@ == self@.description,
    {
        match self {
            Trx::Adjustment(a) => &a.description,
            Trx::WithSku(s) => &s.description,
        }
    }

    /// Compares two keys in the order of [`key_lt`].
    pub fn rank(&self, other: &Trx) -> (r: Rank)
        ensures
            r == key_rank(self@, other@),
    {
        proof {
            lemma_key_order(self@, other@, self@);
            lemma_key_order(other@, self@, other@);
        }
        match compare_bytes(self.kind(), other.kind()) {
            Rank::Same => {},
            r => {
                return r;
            },
        }
        match compare_bytes(self.description(), other.description()) {
            Rank::Same => {},
            r => {
                return r;
            },
        }
        match (self, other) {
            (Trx::Adjustment(_), Trx::Adjustment(_)) => Rank::Same,
            (Trx::Adjustment(_), Trx::WithSku(_)) => Rank::Before,
            (Trx::WithSku(_), Trx::Adjustment(_)) => Rank::After,
            (Trx::WithSku(a), Trx::WithSku(b)) => {
                match compare_bytes(&a.sku, &b.sku) {
                    Rank::Same => {},
                    r => {
                        return r;
                    },
                }
                if a.cents < b.cents {
                    Rank::Before
                } else if a.cents > b.cents {
                    Rank::After
                } else {
                    Rank::Same
                }
            },
        }
    }

    /// A copy of the key.
    pub fn duplicate(&self) -> (r: Trx)
        ensures
            r@ == self@,
    {
        match self {
            Trx::Adjustment(a) => Trx::Adjustment(
                Adjustment { kind: copy_bytes(&a.kind), description: copy_bytes(&a.description) },
            ),
            Trx::WithSku(s) => Trx::WithSku(
                WithSku {
                    kind: copy_bytes(&s.kind),
                    sku: copy_bytes(&s.sku),
                    cents: s.cents,
                    description: copy_bytes(&s.description),
                },
            ),
        }
    }
}

impl Sale {
    /// Makes the output row of key `t` with accumulated value `i`.
    pub fn new(t: Trx, i: i64) -> (sale: Sale)
        requires
            sale_fits(t@, i as int),
        ensures
            sale@ == sale_of(t@, i as int),
    {
        match t {
            Trx::Adjustment(a) => {
                let mut sku: Vec<u8> = Vec::new();
                sku.push(70u8);
                sku.push(66u8);
                sku.push(65u8);
                sku.push(84u8);
                sku.push(70u8);
                proof {
                    assert(sku@ =~= sentinel());
                }
                Sale {
                    kind: a.kind,
                    sku,
                    description: a.description,
                    quantity: if i < 0 {
                        -1
                    } else {
                        1
                    },
                    cents: i,
                }
            },
            Trx::WithSku(WithSku { kind, sku, cents, description }) => Sale {
                kind,
                sku,
                description,
                quantity: i,
                cents: cents * i,
            },
        }
    }

    /// Makes the output row of key `t` with accumulated value `i`, or nothing
    /// where the row's cents do not fit in an `i64`.
    pub fn checked_new(t: Trx, i: i64) -> (r: Option<Sale>)
        ensures
            sale_fits(t@, i as int) <==> r is Some,
            r is Some ==> r.unwrap()@ == sale_of(t@, i as int),
    {
        let fits: bool = match &t {
            Trx::Adjustment(_) => true,
            Trx::WithSku(s) => s.cents.checked_mul(i).is_some(),
        };
        if fits {
            Some(Sale::new(t, i))
        } else {
            None
        }
    }
}

} // verus!
