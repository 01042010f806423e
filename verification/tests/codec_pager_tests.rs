//! Tests of the codec and the paged store: value, row, page and header
//! round trips, and flush followed by reload.
use sqlearn::codec::{decode_page, decode_row, decode_value, encode_page_into, encode_row_into,
    encode_value_into};
use sqlearn::pager::{decode_header, encode_header_into, Pager};
use sqlearn::schema::{Column, Schema};
use sqlearn::value::{DataType, TableValue};

fn sample_values() -> Vec<TableValue> {
    vec![
        TableValue::Int(-7),
        TableValue::Boolean(true),
        TableValue::Boolean(false),
        TableValue::Null,
        TableValue::Real(0x3f80_0000),
        TableValue::Char("hello".to_string()),
        TableValue::Char(String::new()),
    ]
}

#[test]
fn value_round_trip() {
    for v in sample_values() {
        let mut buf: Vec<u8> = Vec::new();
        encode_value_into(&mut buf, &v);
        let (back, end) = decode_value(&buf, 0).expect("encoded value must decode");
        assert_eq!(back, v);
        assert_eq!(end, buf.len());
    }
}

#[test]
fn row_round_trip() {
    let row = sample_values();
    let mut buf: Vec<u8> = Vec::new();
    encode_row_into(&mut buf, &row);
    let (back, end) = decode_row(&buf, 0).expect("encoded row must decode");
    assert_eq!(back, row);
    assert_eq!(end, buf.len());
}

#[test]
fn page_round_trip() {
    let page = vec![
        Some(vec![TableValue::Int(1), TableValue::Char("a".to_string())]),
        None,
        Some(vec![TableValue::Int(2), TableValue::Null]),
        None,
    ];
    let mut buf: Vec<u8> = Vec::new();
    encode_page_into(&mut buf, &page);
    let (back, end) = decode_page(&buf, 0).expect("encoded page must decode");
    assert_eq!(back, page);
    assert_eq!(end, buf.len());
}

#[test]
fn header_round_trip() {
    let schema = Schema::new(
        "fruit",
        vec![
            Column::new("id", DataType::Int, true),
            Column::new("name", DataType::Char(10), false),
            Column::new("ripe", DataType::Boolean, false),
            Column::new("weight", DataType::Real, false),
        ],
    );
    let mut pager = Pager::new(schema, 256).unwrap();
    pager.allocate_page().unwrap();
    pager
        .insert(vec![
            TableValue::Int(1),
            TableValue::Char("pear".to_string()),
            TableValue::Boolean(true),
            TableValue::Real(0),
        ])
        .unwrap();
    let mut buf: Vec<u8> = Vec::new();
    encode_header_into(&mut buf, &pager.header);
    let (back, end) = decode_header(&buf, 0).expect("encoded header must decode");
    assert_eq!(end, buf.len());
    assert_eq!(back.num_pages, pager.header.num_pages);
    assert_eq!(back.page_byte_size, pager.header.page_byte_size);
    assert_eq!(back.page_capacity, pager.header.page_capacity);
    assert_eq!(back.free_pages, pager.header.free_pages);
    assert_eq!(back.schema.table_name, pager.header.schema.table_name);
    assert_eq!(
        back.schema.columns.len(),
        pager.header.schema.columns.len()
    );
    for (a, b) in back
        .schema
        .columns
        .iter()
        .zip(pager.header.schema.columns.iter())
    {
        assert_eq!(a.name, b.name);
        assert_eq!(a.datatype, b.datatype);
        assert_eq!(a.is_primary_key, b.is_primary_key);
    }
}

#[test]
fn flush_then_reload_preserves_rows() {
    let schema = Schema::new(
        "x",
        vec![Column::new("k", DataType::Int, true)],
    );
    let mut pager = Pager::new(schema, 64).unwrap();
    pager.allocate_page().unwrap();
    pager.insert(vec![TableValue::Int(1)]).unwrap();
    pager.insert(vec![TableValue::Int(2)]).unwrap();
    let image = pager.flush().unwrap();
    let reloaded = Pager::load_from(&image).expect("a flushed image must reload");
    assert_eq!(reloaded.rows(), pager.rows());
    assert_eq!(
        reloaded.rows(),
        vec![vec![TableValue::Int(1)], vec![TableValue::Int(2)]]
    );
}

#[test]
fn corrupt_image_is_rejected() {
    let bytes = vec![9u8, 0, 0, 0, 0, 0, 0];
    assert!(Pager::load_from(&bytes).is_err());
}

#[test]
fn capacity_shrinks_with_page_size() {
    let schema = || {
        Schema::new(
            "t",
            vec![Column::new("k", DataType::Int, true)],
        )
    };
    let small = Pager::new(schema(), 40).unwrap();
    let large = Pager::new(schema(), 64).unwrap();
    assert!(small.header.page_capacity <= large.header.page_capacity);
    assert_eq!(small.header.page_capacity, 3);
    assert_eq!(large.header.page_capacity, 5);
}

#[test]
fn mixed_variants_follow_rank_order() {
    let mut tree = sqlearn::bptree::BPTree::new(10);
    tree.insert(sqlearn::bptree::Entry::new(
        TableValue::Int(1),
        vec![TableValue::Int(1)],
    ))
    .unwrap();
    tree.insert(sqlearn::bptree::Entry::new(
        TableValue::Boolean(true),
        vec![TableValue::Int(2)],
    ))
    .unwrap();
    tree.insert(sqlearn::bptree::Entry::new(
        TableValue::Char("m".to_string()),
        vec![TableValue::Int(3)],
    ))
    .unwrap();
    // Booleans rank before strings, which rank before integers.
    assert_eq!(
        tree.values(),
        vec![
            vec![TableValue::Int(2)],
            vec![TableValue::Int(3)],
            vec![TableValue::Int(1)],
        ]
    );
}
