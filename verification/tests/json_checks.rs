use tablecore::errors::TableError;
use tablecore::record::{serialize_record, Record, RecordField};
use tablecore::table::{Column, Table};
use tablecore::transpose::{materialize_column, transpose_records, transpose_to_json};
use tablecore::value::Value;

fn field(name: &str, value: Value) -> RecordField {
    RecordField { name: String::from(name), value }
}

fn sample_table() -> Table {
    Table::new(vec![
        Column {
            name: String::from("id"),
            vals: vec![Value::Int(1), Value::Int(2), Value::Int(3)],
        },
        Column {
            name: String::from("name"),
            vals: vec![
                Value::Str(String::from("foo")),
                Value::Str(String::from("bar")),
                Value::Str(String::from("baz")),
            ],
        },
        Column {
            name: String::from("data"),
            vals: vec![Value::Int(42), Value::Int(43), Value::Int(44)],
        },
    ])
    .unwrap()
}

#[test]
fn test_transpose_example() {
    let t = sample_table();
    let res = transpose_to_json(
        &t,
        &vec![String::from("name"), String::from("data")],
        Some(String::from("metadata")),
    )
    .unwrap();
    assert_eq!(res.row_count(), 3);
    assert_eq!(res.column_count(), 2);
    assert_eq!(res.cols[0].name, String::from("id"));
    assert_eq!(res.cols[1].name, String::from("metadata"));
    assert_eq!(res.cols[0].vals[0], Value::Int(1));
    assert_eq!(res.cols[0].vals[1], Value::Int(2));
    assert_eq!(res.cols[0].vals[2], Value::Int(3));
    let expected = [
        "{\"name\":\"foo\",\"data\":42}",
        "{\"name\":\"bar\",\"data\":43}",
        "{\"name\":\"baz\",\"data\":44}",
    ];
    for (row, want) in expected.iter().enumerate() {
        assert_eq!(res.cols[1].vals[row], Value::Str(String::from(*want)));
    }
}

#[test]
fn test_transpose_default_destination_name() {
    let t = sample_table();
    let res = transpose_to_json(&t, &vec![String::from("name")], None).unwrap();
    assert_eq!(res.cols[2].name, String::from("metadata"));
}

#[test]
fn test_transpose_parse_back() {
    let t = sample_table();
    let cols = vec![String::from("name"), String::from("data")];
    let res = transpose_to_json(&t, &cols, None).unwrap();
    assert_eq!(res.row_count(), t.row_count());
    // the selected columns are gone; exactly one new column was added
    assert_eq!(res.column_count(), t.column_count() - cols.len() + 1);
    let names = ["foo", "bar", "baz"];
    let data = [42i64, 43, 44];
    for row in 0..3 {
        let json = match &res.cols[1].vals[row] {
            Value::Str(s) => s.clone(),
            other => panic!("expected a string cell, got {:?}", other),
        };
        let parsed: serde_json::Value = serde_json::from_str(&json).unwrap();
        let obj = parsed.as_object().unwrap();
        assert_eq!(obj.len(), 2);
        assert_eq!(obj["name"].as_str().unwrap(), names[row]);
        assert_eq!(obj["data"].as_i64().unwrap(), data[row]);
    }
}

#[test]
fn test_transpose_missing_column() {
    let t = sample_table();
    let err = transpose_to_json(&t, &vec![String::from("nope")], None).unwrap_err();
    assert_eq!(err, TableError::ColumnNotFound);
    // the input table is untouched
    assert_eq!(t.column_count(), 3);
    assert_eq!(t.cols[1].vals[0], Value::Str(String::from("foo")));
}

#[test]
fn test_transpose_zero_rows_is_a_no_op() {
    let t = Table::new(vec![
        Column { name: String::from("id"), vals: vec![] },
        Column { name: String::from("name"), vals: vec![] },
    ])
    .unwrap();
    let res = transpose_to_json(&t, &vec![String::from("name")], None).unwrap();
    assert_eq!(res.row_count(), 0);
    assert_eq!(res.column_count(), 2);
    assert_eq!(res.cols[1].name, String::from("metadata"));
}

#[test]
fn test_transpose_records_row_order() {
    let t = sample_table();
    let recs = transpose_records(&t, &vec![String::from("data"), String::from("name")]).unwrap();
    assert_eq!(recs.len(), 3);
    assert_eq!(recs[1].fields[0].name, String::from("data"));
    assert_eq!(recs[1].fields[0].value, Value::Int(43));
    assert_eq!(recs[1].fields[1].name, String::from("name"));
    assert_eq!(recs[1].fields[1].value, Value::Str(String::from("bar")));
}

#[test]
fn test_materialize_row_count_mismatch() {
    let t = sample_table();
    let err = materialize_column(
        &t,
        &vec![String::from("name")],
        &String::from("metadata"),
        vec![String::from("{}")],
    )
    .unwrap_err();
    assert_eq!(err, TableError::RowCountMismatch);
}

#[test]
fn test_serialize_record_escapes() {
    let rec = Record {
        fields: vec![
            field("plain", Value::Str(String::from("abc"))),
            field("quoted", Value::Str(String::from("say \"hi\"\n"))),
            field("tricky", Value::Str(String::from("tab\t back\\slash \u{1}"))),
            field("flag", Value::Bool(true)),
            field("off", Value::Bool(false)),
            field("neg", Value::Int(-12)),
            field("min", Value::Int(i64::MIN)),
            field("none", Value::Null),
        ],
    };
    let s = serialize_record(&rec);
    let want = String::from("{\"plain\":\"abc\",\"quoted\":\"say \\\"hi\\\"\\n\",\"tricky\":\"tab\\t back\\\\slash \\u0001\",\"flag\":true,\"off\":false,\"neg\":-12,\"min\":-9223372036854775808,\"none\":null}");
    assert_eq!(s, want);
    // a real JSON parser reads back exactly the same values
    let parsed: serde_json::Value = serde_json::from_str(&s).unwrap();
    let obj = parsed.as_object().unwrap();
    assert_eq!(obj.len(), 8);
    assert_eq!(obj["quoted"].as_str().unwrap(), "say \"hi\"\n");
    assert_eq!(obj["tricky"].as_str().unwrap(), "tab\t back\\slash \u{1}");
    assert_eq!(obj["flag"].as_bool().unwrap(), true);
    assert_eq!(obj["min"].as_i64().unwrap(), i64::MIN);
    assert!(obj["none"].is_null());
}

#[test]
fn test_serialize_record_deterministic() {
    let make = || Record {
        fields: vec![
            field("b", Value::Int(2)),
            field("a", Value::Int(1)),
        ],
    };
    let s1 = serialize_record(&make());
    let s2 = serialize_record(&make());
    assert_eq!(s1, s2);
    // the supplied field order is kept, not sorted
    assert_eq!(s1, "{\"b\":2,\"a\":1}");
}

#[test]
fn test_serialize_bytes_as_hex() {
    let rec = Record {
        fields: vec![field("blob", Value::Bytes(vec![0x00, 0x1f, 0xab, 0xff]))],
    };
    let s = serialize_record(&rec);
    assert_eq!(s, "{\"blob\":\"001fabff\"}");
    let parsed: serde_json::Value = serde_json::from_str(&s).unwrap();
    assert_eq!(parsed["blob"].as_str().unwrap(), "001fabff");
}

#[test]
fn test_empty_record_serializes_to_empty_object() {
    let rec = Record { fields: vec![] };
    assert_eq!(serialize_record(&rec), "{}");
}
