use tablecore::combine::combine_union;
use tablecore::errors::TableError;
use tablecore::join::{combine_join, JoinMode};
use tablecore::partition::partition;
use tablecore::table::{Column, Table};
use tablecore::transpose::transpose_to_json;
use tablecore::value::Value;

fn col_ints(name: &str, vals: &[i64]) -> Column {
    Column {
        name: String::from(name),
        vals: vals.iter().map(|v| Value::Int(*v)).collect(),
    }
}

fn col_strs(name: &str, vals: &[&str]) -> Column {
    Column {
        name: String::from(name),
        vals: vals.iter().map(|v| Value::Str(String::from(*v))).collect(),
    }
}

fn table(cols: Vec<Column>) -> Table {
    Table::new(cols).expect("columns should form a well-formed table")
}

fn shape(t: &Table) -> (usize, usize) {
    (t.row_count(), t.column_count())
}

#[test]
fn test_join_dfs() {
    let t1 = table(vec![
        col_ints("id", &[1, 2, 3, 4, 5]),
        col_strs("a", &["foo", "foo", "foo", "foo", "foo"]),
        Column {
            name: String::from("b"),
            vals: vec![
                Value::Int(42),
                Value::Int(42),
                Value::Null,
                Value::Null,
                Value::Int(0),
            ],
        },
        col_ints("c", &[7, 23, 55, 1, 99]),
    ]);
    let t2 = table(vec![
        col_ints("id", &[1, 2, 3, 4, 5]),
        col_strs("d", &["bar", "bar", "bar", "bar", "bar"]),
    ]);
    let t3 = table(vec![
        col_ints("id", &[1, 2, 3, 4, 5]),
        col_strs("e", &["baz", "baz", "baz", "baz", "baz"]),
    ]);

    let res = combine_join(
        &vec![t1, t2, t3],
        &vec![String::from("id")],
        None,
    )
    .expect("should not fail");
    assert_eq!(shape(&res), (5, 6));

    let names = ["id", "a", "b", "c", "d", "e"];
    for (i, name) in names.iter().enumerate() {
        assert_eq!(res.cols[i].name, String::from(*name));
    }
    for row in 0..5 {
        assert_eq!(res.cols[0].vals[row], Value::Int(row as i64 + 1));
        assert_eq!(res.cols[1].vals[row], Value::Str(String::from("foo")));
        assert_eq!(res.cols[4].vals[row], Value::Str(String::from("bar")));
        assert_eq!(res.cols[5].vals[row], Value::Str(String::from("baz")));
    }
}

#[test]
fn test_concat_dfs() {
    let t1 = table(vec![col_ints("id", &[1, 2, 3]), col_strs("val", &["foo", "foo", "foo"])]);
    let t2 = table(vec![col_ints("id", &[4, 5]), col_strs("val", &["bar", "bar"])]);
    let t3 = table(vec![col_ints("id", &[6]), col_strs("val", &["baz"])]);

    let res = combine_union(&vec![t1, t2, t3]).unwrap();
    assert_eq!(shape(&res), (6, 2));
    assert_eq!(res.cols[0].name, String::from("id"));
    assert_eq!(res.cols[1].name, String::from("val"));
    for row in 0..6 {
        assert_eq!(res.cols[0].vals[row], Value::Int(row as i64 + 1));
    }
    let vals = ["foo", "foo", "foo", "bar", "bar", "baz"];
    for (row, v) in vals.iter().enumerate() {
        assert_eq!(res.cols[1].vals[row], Value::Str(String::from(*v)));
    }
}

#[test]
fn test_partition_df() {
    let t = table(vec![
        col_ints("id", &[1, 2, 3, 4, 5, 6, 7, 8, 9, 10]),
        col_strs(
            "val",
            &["foo", "foo", "foo", "bar", "bar", "bar", "baz", "baz", "baz", "baz"],
        ),
    ]);

    let res = partition(&t, 3).unwrap();
    assert_eq!(res.len(), 4);
    assert_eq!(shape(&res[0]), (3, 2));
    assert_eq!(shape(&res[1]), (3, 2));
    assert_eq!(shape(&res[2]), (3, 2));
    assert_eq!(shape(&res[3]), (1, 2));
}

#[test]
fn test_cols_to_json() {
    let t = table(vec![
        col_ints("id", &[1, 2, 3]),
        col_strs("name", &["foo", "bar", "baz"]),
        col_ints("data", &[43, 43, 44]),
    ]);

    let res = transpose_to_json(
        &t,
        &vec![String::from("name"), String::from("data")],
        Some(String::from("metadata")),
    )
    .unwrap();
    assert_eq!(shape(&res), (3, 2));
}

#[test]
fn test_partition_concat_roundtrip() {
    let t = table(vec![
        col_ints("id", &[1, 2, 3, 4, 5, 6, 7]),
        col_strs("val", &["a", "b", "c", "d", "e", "f", "g"]),
    ]);
    for chunk_size in 1..9usize {
        let chunks = partition(&t, chunk_size).unwrap();
        let expected_len = if chunk_size >= 7 { 1 } else { (7 + chunk_size - 1) / chunk_size };
        assert_eq!(chunks.len(), expected_len);
        let back = combine_union(&chunks).unwrap();
        assert_eq!(shape(&back), (7, 2));
        for row in 0..7 {
            assert_eq!(back.cols[0].vals[row], t.cols[0].vals[row]);
            assert_eq!(back.cols[1].vals[row], t.cols[1].vals[row]);
        }
    }
}

#[test]
fn test_partition_single_chunk() {
    let t = table(vec![col_ints("id", &[1, 2, 3])]);
    let chunks = partition(&t, 5).unwrap();
    assert_eq!(chunks.len(), 1);
    assert_eq!(shape(&chunks[0]), (3, 1));
    for row in 0..3 {
        assert_eq!(chunks[0].cols[0].vals[row], Value::Int(row as i64 + 1));
    }
}

#[test]
fn test_partition_zero_chunk_size() {
    let t = table(vec![col_ints("id", &[1, 2, 3])]);
    assert_eq!(partition(&t, 0).unwrap_err(), TableError::InvalidChunkSize);
}

#[test]
fn test_partition_exact_multiple_has_no_empty_chunk() {
    let t = table(vec![col_ints("id", &[1, 2, 3, 4, 5, 6])]);
    let chunks = partition(&t, 3).unwrap();
    assert_eq!(chunks.len(), 2);
    assert_eq!(chunks[0].row_count(), 3);
    assert_eq!(chunks[1].row_count(), 3);
}

#[test]
fn test_join_three_shared_keys() {
    let t1 = table(vec![col_ints("id", &[10, 20, 30, 40, 50]), col_ints("x1", &[1, 2, 3, 4, 5])]);
    let t2 = table(vec![
        col_ints("id", &[10, 20, 30, 40, 50]),
        col_ints("x2", &[6, 7, 8, 9, 10]),
        col_ints("x3", &[11, 12, 13, 14, 15]),
    ]);
    let t3 = table(vec![col_ints("id", &[10, 20, 30, 40, 50]), col_ints("x4", &[16, 17, 18, 19, 20])]);

    let res = combine_join(&vec![t1, t2, t3], &vec![String::from("id")], Some(JoinMode::Inner))
        .unwrap();
    // 2 + 3 + 2 columns, with the key column appearing once
    assert_eq!(shape(&res), (5, 5));
    for row in 0..5 {
        let id = res.cols[0].vals[row].clone();
        assert_eq!(id, Value::Int((row as i64 + 1) * 10));
    }
}

#[test]
fn test_union_row_counts() {
    let t1 = table(vec![col_ints("id", &[1, 2, 3])]);
    let t2 = table(vec![col_ints("id", &[4, 5])]);
    let t3 = table(vec![col_ints("id", &[6])]);
    let res = combine_union(&vec![t1, t2, t3]).unwrap();
    assert_eq!(res.row_count(), 6);
    for row in 0..6 {
        assert_eq!(res.cols[0].vals[row], Value::Int(row as i64 + 1));
    }
}

#[test]
fn test_combine_empty_inputs() {
    assert_eq!(
        combine_join(&vec![], &vec![String::from("id")], None).unwrap_err(),
        TableError::EmptyInputList
    );
    assert_eq!(combine_union(&vec![]).unwrap_err(), TableError::EmptyInputList);
}

#[test]
fn test_union_incompatible_schema() {
    let t1 = table(vec![col_ints("id", &[1])]);
    let t2 = table(vec![col_ints("other", &[2])]);
    assert_eq!(
        combine_union(&vec![t1, t2]).unwrap_err(),
        TableError::IncompatibleSchema
    );
}

#[test]
fn test_join_missing_key() {
    let t1 = table(vec![col_ints("id", &[1])]);
    let t2 = table(vec![col_ints("other", &[1])]);
    assert_eq!(
        combine_join(&vec![t1, t2], &vec![String::from("id")], None).unwrap_err(),
        TableError::KeyColumnMissing
    );
}

#[test]
fn test_join_left_mode_pads_with_nulls() {
    let t1 = table(vec![col_ints("id", &[1, 2]), col_strs("a", &["x", "y"])]);
    let t2 = table(vec![col_ints("id", &[1]), col_strs("d", &["only"])]);
    let res = combine_join(
        &vec![t1, t2],
        &vec![String::from("id")],
        Some(JoinMode::Left),
    )
    .unwrap();
    assert_eq!(shape(&res), (2, 3));
    assert_eq!(res.cols[2].vals[0], Value::Str(String::from("only")));
    assert_eq!(res.cols[2].vals[1], Value::Null);
}

#[test]
fn test_join_cross_mode_pairs_all_rows() {
    let t1 = table(vec![col_ints("id", &[1, 2]), col_strs("a", &["x", "y"])]);
    let t2 = table(vec![col_ints("id", &[7, 8, 9])]);
    let res = combine_join(
        &vec![t1, t2],
        &vec![String::from("id")],
        Some(JoinMode::Cross),
    )
    .unwrap();
    // the right key column is kept in a cross join, renamed for the clash
    assert_eq!(shape(&res), (6, 3));
    assert_eq!(res.cols[2].name, String::from("id_right"));
    assert_eq!(res.cols[0].vals[0], Value::Int(1));
    assert_eq!(res.cols[2].vals[0], Value::Int(7));
    assert_eq!(res.cols[0].vals[5], Value::Int(2));
    assert_eq!(res.cols[2].vals[5], Value::Int(9));
}

#[test]
fn test_join_renames_clashing_column() {
    let t1 = table(vec![col_ints("id", &[1]), col_strs("a", &["left"])]);
    let t2 = table(vec![col_ints("id", &[1]), col_strs("a", &["right"])]);
    let res = combine_join(&vec![t1, t2], &vec![String::from("id")], None).unwrap();
    assert_eq!(shape(&res), (1, 3));
    assert_eq!(res.cols[1].name, String::from("a"));
    assert_eq!(res.cols[2].name, String::from("a_right"));
    assert_eq!(res.cols[1].vals[0], Value::Str(String::from("left")));
    assert_eq!(res.cols[2].vals[0], Value::Str(String::from("right")));
}

#[test]
fn test_join_inner_multiplicity() {
    let t1 = table(vec![col_ints("id", &[1, 1]), col_ints("l", &[10, 11])]);
    let t2 = table(vec![col_ints("id", &[1, 1, 1]), col_ints("r", &[20, 21, 22])]);
    let res = combine_join(&vec![t1, t2], &vec![String::from("id")], None).unwrap();
    // 2 matching left rows times 3 matching right rows
    assert_eq!(res.row_count(), 6);
    assert_eq!(res.cols[1].vals[0], Value::Int(10));
    assert_eq!(res.cols[2].vals[0], Value::Int(20));
    assert_eq!(res.cols[1].vals[5], Value::Int(11));
    assert_eq!(res.cols[2].vals[5], Value::Int(22));
}

#[test]
fn test_table_new_rejects_bad_columns() {
    assert!(Table::new(vec![col_ints("a", &[1, 2]), col_ints("b", &[1])]).is_none());
    assert!(Table::new(vec![col_ints("a", &[1]), col_ints("a", &[2])]).is_none());
    assert!(Table::new(vec![]).is_some());
}

#[test]
fn test_join_unresolvable_collision() {
    // the left table already has both "a" and "a_right", so renaming the
    // right "a" cannot avoid the clash
    let t1 = table(vec![
        col_ints("id", &[1]),
        col_strs("a", &["x"]),
        col_strs("a_right", &["y"]),
    ]);
    let t2 = table(vec![col_ints("id", &[1]), col_strs("a", &["z"])]);
    assert_eq!(
        combine_join(&vec![t1, t2], &vec![String::from("id")], None).unwrap_err(),
        TableError::IncompatibleSchema
    );
}
