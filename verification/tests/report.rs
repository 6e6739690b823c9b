use dedupy::aggregate::Aggregator;
use dedupy::error::ReportError;
use dedupy::memory::{fingerprint, Memory};
use dedupy::record::{deserialize_quantity, find_column, get_field, Columns, RefSale};
use dedupy::report::{join_fields, Report, PREAMBLE};
use dedupy::trx::{Adjustment, Trx, WithSku};

fn report(header: &str, rows: &[&str]) -> Vec<u8> {
    let mut text = String::new();
    for i in 0..PREAMBLE {
        text.push_str(&format!("preamble line {}\n", i));
    }
    text.push_str(header);
    text.push('\n');
    for row in rows {
        text.push_str(row);
        text.push('\n');
    }
    text.into_bytes()
}

fn fields(row: &[&str]) -> Vec<Vec<u8>> {
    row.iter().map(|f| f.as_bytes().to_vec()).collect()
}

const HEADER: &str = "date/time,type,sku,description,quantity,total";

#[test]
fn a_report_is_consolidated_and_sorted() {
    let input = report(
        HEADER,
        &[
            "Jan 1,Order,SKU-1,Widget,3,30.00",
            "Jan 2,Order,SKU-1,Widget,5,50.0",
            "Jan 3,Service Fee,,Storage,,1.50",
            "Jan 4,Service Fee,,Storage,,-5",
            "Jan 5,Order,SKU-0,\"Gadget, large\",1,\"1,345.3\"",
        ],
    );
    let out = Report::parse(&input, Memory::new(&Vec::new())).unwrap();
    let rows: Vec<(String, String, String, i64, i64)> = out
        .sales
        .iter()
        .map(|s| {
            (
                String::from_utf8(s.kind.clone()).unwrap(),
                String::from_utf8(s.sku.clone()).unwrap(),
                String::from_utf8(s.description.clone()).unwrap(),
                s.quantity,
                s.cents,
            )
        })
        .collect();
    assert_eq!(
        rows,
        vec![
            ("Order".to_string(), "SKU-0".to_string(), "Gadget, large".to_string(), 1, 134_530),
            ("Order".to_string(), "SKU-1".to_string(), "Widget".to_string(), 8, 8000),
            ("Service Fee".to_string(), "FBATF".to_string(), "Storage".to_string(), -1, -350),
        ]
    );
    assert_eq!(out.memory.len(), 5);
}

#[test]
fn a_second_run_skips_every_row() {
    let input = report(
        HEADER,
        &["Jan 1,Order,SKU-1,Widget,3,30.00", "Jan 3,Service Fee,,Storage,,1.50"],
    );
    let first = Report::parse(&input, Memory::new(&Vec::new())).unwrap();
    assert_eq!(first.sales.len(), 2);
    let stored = first.memory.persist(true).unwrap();
    assert_eq!(stored.len(), 2);
    let second = Report::parse(&input, Memory::new(&stored)).unwrap();
    assert_eq!(second.memory.len(), 2);
    assert!(second.sales.is_empty());
    assert_eq!(second.memory.fingerprints(), stored);
}

#[test]
fn only_new_rows_are_folded() {
    let first = report(HEADER, &["Jan 1,Order,SKU-1,Widget,3,30.00"]);
    let both = report(
        HEADER,
        &["Jan 1,Order,SKU-1,Widget,3,30.00", "Jan 2,Order,SKU-1,Widget,5,50.00"],
    );
    let stored = Report::parse(&first, Memory::new(&Vec::new())).unwrap().memory.fingerprints();
    let out = Report::parse(&both, Memory::new(&stored)).unwrap();
    assert_eq!(out.sales.len(), 1);
    assert_eq!(out.sales[0].quantity, 5);
    assert_eq!(out.sales[0].cents, 5000);
    assert_eq!(out.memory.len(), 2);
}

#[test]
fn a_row_repeated_in_one_report_counts_once() {
    let input = report(
        HEADER,
        &["Jan 1,Order,SKU-1,Widget,3,30.00", "Jan 1,Order,SKU-1,Widget,3,30.00"],
    );
    let out = Report::parse(&input, Memory::new(&Vec::new())).unwrap();
    assert_eq!(out.sales.len(), 1);
    assert_eq!(out.sales[0].quantity, 3);
    assert_eq!(out.memory.len(), 1);
}

#[test]
fn rows_in_another_order_give_the_same_output() {
    let rows = [
        "Jan 1,Order,SKU-1,Widget,3,30.00",
        "Jan 2,Refund,SKU-1,Widget,-1,-10.00",
        "Jan 3,Service Fee,,Storage,,1.50",
        "Jan 4,Order,SKU-1,Widget,5,50.00",
        "Jan 5,Service Fee,,Storage,,-5.00",
    ];
    let mut reversed = rows;
    reversed.reverse();
    let a = Report::parse(&report(HEADER, &rows), Memory::new(&Vec::new())).unwrap();
    let b = Report::parse(&report(HEADER, &reversed), Memory::new(&Vec::new())).unwrap();
    assert_eq!(a.sales, b.sales);
    assert_eq!(a.sales.len(), 3);
}

#[test]
fn a_failed_sink_leaves_nothing_to_persist() {
    let input = report(HEADER, &["Jan 1,Order,SKU-1,Widget,3,30.00"]);
    let out = Report::parse(&input, Memory::new(&vec![7, 8])).unwrap();
    assert_eq!(out.memory.persist(false), Err(ReportError::SinkWriteFailure));
    let out = Report::parse(&input, Memory::new(&vec![7, 8])).unwrap();
    let written = out.memory.persist(true).unwrap();
    assert_eq!(written.len(), 3);
    assert_eq!(&written[..2], &[7, 8]);
}

#[test]
fn a_report_without_header_is_refused() {
    let mut text = String::new();
    for _ in 0..PREAMBLE {
        text.push_str("x\n");
    }
    let r = Report::parse(text.as_bytes(), Memory::new(&Vec::new()));
    assert_eq!(r.err(), Some(ReportError::MissingHeader));
    let r = Report::parse(b"", Memory::new(&Vec::new()));
    assert_eq!(r.err(), Some(ReportError::MissingHeader));
}

#[test]
fn a_header_alone_gives_no_rows() {
    let out = Report::parse(&report(HEADER, &[]), Memory::new(&vec![1])).unwrap();
    assert!(out.sales.is_empty());
    assert_eq!(out.memory.fingerprints(), vec![1]);
}

#[test]
fn a_malformed_amount_fails_the_run() {
    let input = report(
        HEADER,
        &["Jan 1,Order,SKU-1,Widget,3,30.00", "Jan 2,Order,SKU-1,Widget,5,50.000"],
    );
    let r = Report::parse(&input, Memory::new(&Vec::new()));
    assert_eq!(r.err(), Some(ReportError::MalformedAmount));
}

#[test]
fn a_quantity_that_is_no_number_fails_the_run() {
    let input = report(HEADER, &["Jan 1,Order,SKU-1,Widget,three,30.00"]);
    let r = Report::parse(&input, Memory::new(&Vec::new()));
    assert_eq!(r.err(), Some(ReportError::DecodeFailure));
}

#[test]
fn a_row_without_total_fails_the_run() {
    let input = report(HEADER, &["Jan 1,Order,SKU-1,Widget,3"]);
    let r = Report::parse(&input, Memory::new(&Vec::new()));
    assert_eq!(r.err(), Some(ReportError::DecodeFailure));
    let input = report("type,sku,quantity,total", &["Order,SKU-1,3,1.00"]);
    let r = Report::parse(&input, Memory::new(&Vec::new()));
    assert_eq!(r.err(), Some(ReportError::DecodeFailure));
}

#[test]
fn totals_out_of_range_fail_the_run() {
    let input = report(
        HEADER,
        &[
            "Jan 1,Fee,,x,,92233720368547758.07",
            "Jan 2,Fee,,x,,0.01",
        ],
    );
    let r = Report::parse(&input, Memory::new(&Vec::new()));
    assert_eq!(r.err(), Some(ReportError::TotalOverflow));
}

#[test]
fn kind_may_stand_under_either_name() {
    let a = report("kind,sku,description,quantity,total", &["Order,A,d,2,5.00"]);
    let b = report("type,sku,description,quantity,total", &["Order,A,d,2,5.00"]);
    let ra = Report::parse(&a, Memory::new(&Vec::new())).unwrap();
    let rb = Report::parse(&b, Memory::new(&Vec::new())).unwrap();
    assert_eq!(ra.sales, rb.sales);
    assert_eq!(ra.sales[0].kind, b"Order".to_vec());
    assert_eq!(ra.sales[0].quantity, 2);
    assert_eq!(ra.sales[0].cents, 500);
}

#[test]
fn columns_are_found_by_name() {
    let header = fields(&["date/time", "type", "sku", "description", "quantity", "total", "sku"]);
    let cols = Columns::from_header(&header);
    assert_eq!(cols.kind, Some(1));
    assert_eq!(cols.sku, Some(2));
    assert_eq!(cols.description, Some(3));
    assert_eq!(cols.quantity, Some(4));
    assert_eq!(cols.total, Some(5));
    let cols = Columns::from_header(&fields(&["Total", "kind"]));
    assert_eq!(cols.total, None);
    assert_eq!(cols.kind, Some(1));
    assert_eq!(find_column(&header, b"sku", b"type"), Some(1));
    assert_eq!(find_column(&header, b"none", b"none"), None);
    assert_eq!(get_field(&header, Some(2)), Some(b"sku".to_vec()));
    assert_eq!(get_field(&header, Some(7)), None);
    assert_eq!(get_field(&header, None), None);
}

#[test]
fn rows_are_decoded_through_the_columns() {
    let cols = Columns::from_header(&fields(&["type", "sku", "description", "total", "quantity"]));
    let sale = RefSale::decode(&cols, &fields(&["Order", "A", "Widget", "10.00", "4"])).unwrap();
    assert_eq!(sale.kind, b"Order".to_vec());
    assert_eq!(sale.sku, Some(b"A".to_vec()));
    assert_eq!(sale.total, b"10.00".to_vec());
    assert_eq!(sale.quantity, 4);
    assert_eq!(sale.description, b"Widget".to_vec());
    let short = RefSale::decode(&cols, &fields(&["Fee", "", "Storage", "-1.5"])).unwrap();
    assert_eq!(short.sku, None);
    assert_eq!(short.quantity, 0);
    let r = RefSale::decode(&cols, &fields(&["Fee", "", "Storage"]));
    assert_eq!(r, Err(ReportError::DecodeFailure));
    let r = RefSale::decode(&cols, &fields(&["Fee", "", "Storage", "1", "1.5"]));
    assert_eq!(r, Err(ReportError::DecodeFailure));
}

#[test]
fn quantities_are_read() {
    assert_eq!(deserialize_quantity(&Vec::new()), Ok(0));
    assert_eq!(deserialize_quantity(&b"12".to_vec()), Ok(12));
    assert_eq!(deserialize_quantity(&b"-3".to_vec()), Ok(-3));
    assert_eq!(deserialize_quantity(&b"1.5".to_vec()), Err(ReportError::DecodeFailure));
    assert_eq!(deserialize_quantity(&b" ".to_vec()), Err(ReportError::DecodeFailure));
}

#[test]
fn transactions_are_classified_by_their_identifier() {
    let sale = RefSale {
        kind: b"Order".to_vec(),
        sku: Some(b"A".to_vec()),
        total: b"10.00".to_vec(),
        quantity: 4,
        description: b"Widget".to_vec(),
    };
    assert_eq!(
        sale.classify(),
        Ok((
            Trx::WithSku(WithSku {
                kind: b"Order".to_vec(),
                sku: b"A".to_vec(),
                cents: 250,
                description: b"Widget".to_vec(),
            }),
            4
        ))
    );
    let zero = RefSale {
        kind: b"Order".to_vec(),
        sku: Some(b"A".to_vec()),
        total: b"2.50".to_vec(),
        quantity: 0,
        description: b"Widget".to_vec(),
    };
    match zero.classify().unwrap() {
        (Trx::WithSku(key), amount) => {
            assert_eq!(key.cents, 250);
            assert_eq!(amount, 0);
        }
        (Trx::Adjustment(_), _) => panic!("an identified transaction"),
    }
    for sku in [None, Some(Vec::new())] {
        let fee = RefSale {
            kind: b"Fee".to_vec(),
            sku,
            total: b"-1.5".to_vec(),
            quantity: 9,
            description: b"Storage".to_vec(),
        };
        assert_eq!(
            fee.classify(),
            Ok((
                Trx::Adjustment(Adjustment {
                    kind: b"Fee".to_vec(),
                    description: b"Storage".to_vec()
                }),
                -150
            ))
        );
    }
    let bad = RefSale {
        kind: b"Fee".to_vec(),
        sku: None,
        total: b"1.2.345".to_vec(),
        quantity: 0,
        description: Vec::new(),
    };
    assert_eq!(bad.classify(), Err(ReportError::MalformedAmount));
}

#[test]
fn fingerprints_are_seahashes() {
    assert_eq!(fingerprint(b"to be or not to be"), 1988685042348123509);
    assert_eq!(fingerprint(b"to be or not to be"), seahash::hash(b"to be or not to be"));
    assert_ne!(fingerprint(b"to be or not to be "), fingerprint(b"to be or not to be"));
}

#[test]
fn a_row_is_known_by_its_joined_fields() {
    let row = fields(&["Jan 1", "Order", "", "Widget"]);
    assert_eq!(join_fields(&row), b"Jan 1OrderWidget".to_vec());
    assert_eq!(join_fields(&Vec::new()), Vec::<u8>::new());
    let input = report(HEADER, &["Jan 1,Fee,,Storage,,1.50"]);
    let out = Report::parse(&input, Memory::new(&Vec::new())).unwrap();
    assert_eq!(out.memory.fingerprints(), vec![seahash::hash(b"Jan 1FeeStorage1.50")]);
}

#[test]
fn memory_holds_each_fingerprint_once() {
    let mut memory = Memory::new(&vec![3, 1, 3, 2, 1]);
    assert_eq!(memory.fingerprints(), vec![3, 1, 2]);
    assert_eq!(memory.len(), 3);
    assert!(memory.contains(1));
    assert!(!memory.contains(4));
    assert!(memory.remember(4));
    assert!(!memory.remember(4));
    assert!(memory.contains(4));
    assert!(memory.memorize(b"row"));
    assert!(!memory.memorize(b"row"));
    assert!(memory.contains(seahash::hash(b"row")));
    assert_eq!(memory.fingerprints(), vec![3, 1, 2, 4, seahash::hash(b"row")]);
}

#[test]
fn bytes_that_are_no_text_are_replaced() {
    let mut input = report(HEADER, &[]);
    input.extend_from_slice(b"Jan 1,Order,A,caf\xe9,2,3.00\n");
    let out = Report::parse(&input, Memory::new(&Vec::new())).unwrap();
    assert_eq!(out.sales.len(), 1);
    assert_eq!(out.sales[0].description, "caf\u{fffd}".as_bytes().to_vec());
    assert_eq!(out.sales[0].cents, 300);
    assert_eq!(
        out.memory.fingerprints(),
        vec![seahash::hash("Jan 1OrderAcaf\u{fffd}23.00".as_bytes())]
    );
}

#[test]
fn a_table_read_elsewhere_is_taken_as_it_is() {
    let mut table: Vec<Vec<Vec<u8>>> = Vec::new();
    for _ in 0..PREAMBLE {
        table.push(Vec::new());
    }
    table.push(fields(&["type", "sku", "description", "quantity", "total"]));
    table.push(vec![
        b"Order".to_vec(),
        b"A".to_vec(),
        b"caf\xe9".to_vec(),
        b"2".to_vec(),
        b"3.00".to_vec(),
    ]);
    table.push(fields(&["Fee", "", "Storage", "", "-0.75"]));
    let out = Report::consolidate(&table, Memory::new(&Vec::new())).unwrap();
    assert_eq!(out.sales.len(), 2);
    assert_eq!(out.sales[0].kind, b"Fee".to_vec());
    assert_eq!(out.sales[0].cents, -75);
    assert_eq!(out.sales[0].quantity, -1);
    assert_eq!(out.sales[1].description, b"caf\xe9".to_vec());
    assert_eq!(out.sales[1].quantity, 2);
    assert_eq!(out.sales[1].cents, 300);
    let short: Vec<Vec<Vec<u8>>> = vec![Vec::new(); PREAMBLE];
    let r = Report::consolidate(&short, Memory::new(&Vec::new()));
    assert_eq!(r.err(), Some(ReportError::MissingHeader));
}

#[test]
fn a_store_is_loaded_from_its_records() {
    let memory = Memory::load(Some(b"3\n18446744073709551615\n3\n0\n")).unwrap();
    assert_eq!(memory.fingerprints(), vec![3, u64::MAX, 0]);
    assert!(memory.contains(u64::MAX));
    assert!(!memory.contains(1));
    let empty = Memory::load(Some(b"")).unwrap();
    assert_eq!(empty.len(), 0);
}

#[test]
fn a_missing_store_is_an_empty_memory() {
    let memory = Memory::load(None).unwrap();
    assert_eq!(memory.len(), 0);
    assert_eq!(memory.fingerprints(), Vec::<u64>::new());
}

#[test]
fn a_store_that_cannot_be_read_is_an_error() {
    assert_eq!(Memory::load(Some(b"12\nabc\n")).err(), Some(ReportError::StoreUnreadable));
    assert_eq!(Memory::load(Some(b"-1\n")).err(), Some(ReportError::StoreUnreadable));
    assert_eq!(
        Memory::load(Some(b"18446744073709551616\n")).err(),
        Some(ReportError::StoreUnreadable)
    );
}

#[test]
fn errors_describe_themselves() {
    let all = [
        ReportError::MalformedAmount,
        ReportError::MissingHeader,
        ReportError::DecodeFailure,
        ReportError::TotalOverflow,
        ReportError::StoreUnreadable,
        ReportError::SinkWriteFailure,
    ];
    for (i, a) in all.iter().enumerate() {
        assert!(!a.message().is_empty());
        for b in all.iter().skip(i + 1) {
            assert_ne!(a.message(), b.message());
        }
    }
}

#[test]
fn a_row_is_taken_once_per_fingerprint() {
    let cols = Columns::from_header(&fields(&["type", "sku", "description", "quantity", "total"]));
    let mut memory = Memory::new(&vec![10]);
    let mut totals = Aggregator::new();
    let row = fields(&["Order", "A", "Widget", "2", "5.00"]);
    assert_eq!(Report::take_row(&cols, &row, 10, &mut memory, &mut totals), Ok(()));
    assert_eq!(totals.len(), 0);
    assert_eq!(Report::take_row(&cols, &row, 11, &mut memory, &mut totals), Ok(()));
    assert_eq!(Report::take_row(&cols, &row, 11, &mut memory, &mut totals), Ok(()));
    assert_eq!(Report::take_row(&cols, &row, 12, &mut memory, &mut totals), Ok(()));
    assert_eq!(memory.fingerprints(), vec![10, 11, 12]);
    let rows = totals.finalize().unwrap();
    assert_eq!(rows.len(), 1);
    assert_eq!(rows[0].quantity, 4);
    assert_eq!(rows[0].cents, 1000);
}

#[test]
fn a_row_that_fails_changes_nothing() {
    let cols = Columns::from_header(&fields(&["type", "sku", "description", "quantity", "total"]));
    let mut memory = Memory::new(&Vec::new());
    let mut totals = Aggregator::new();
    let bad = fields(&["Order", "A", "Widget", "2", "5.000"]);
    assert_eq!(
        Report::take_row(&cols, &bad, 1, &mut memory, &mut totals),
        Err(ReportError::MalformedAmount)
    );
    let short = fields(&["Order", "A", "Widget"]);
    assert_eq!(
        Report::take_row(&cols, &short, 2, &mut memory, &mut totals),
        Err(ReportError::DecodeFailure)
    );
    assert_eq!(memory.len(), 0);
    assert_eq!(totals.len(), 0);
    let mut known = Memory::new(&vec![1]);
    assert_eq!(Report::take_row(&cols, &bad, 1, &mut known, &mut totals), Ok(()));
}

#[test]
fn rows_with_the_same_joined_fields_count_once() {
    let input = report(
        "type,sku,description,quantity,total",
        &["Order,A,Widget,1,23.00", "Order,A,Widget,12,3.00"],
    );
    let out = Report::parse(&input, Memory::new(&Vec::new())).unwrap();
    assert_eq!(out.sales.len(), 1);
    assert_eq!(out.sales[0].quantity, 1);
    assert_eq!(out.sales[0].cents, 2300);
    assert_eq!(out.memory.len(), 1);
}
