//! Transposing selected columns into one column of JSON records.
//!
//! `transpose_to_json` reads the selected columns row by row into records,
//! serializes each record to its canonical JSON object text, appends the
//! strings as one new column, and drops the selected source columns. The
//! input table is only borrowed: on failure it is left untouched.

use vstd::prelude::*;

use crate::errors::TableError;
use crate::record::{record_text, serialize_records, FieldModel, Record, RecordField};
use crate::table::{
    col_of, contains_str, distinct_names, has_col, lemma_idx_of_unique, names_of, nrows,
    strs_model, table_wf, ColModel, Column, Table,
};
use crate::value::{Val, Value};

verus! {

/// The record of row `i`: for each selected column name, in selection
/// order, that column's value at row `i`.
pub open spec fn record_model(m: Seq<ColModel>, cols: Seq<Seq<char>>, i: int) -> Seq<FieldModel> {
    Seq::new(cols.len(), |k: int| FieldModel { name: cols[k], value: col_of(m, cols[k]).vals[i] })
}

/// The columns that survive materialization: those named neither among the
/// source columns nor like the destination column, in their original order.
pub open spec fn survivors(m: Seq<ColModel>, cols: Seq<Seq<char>>, dest: Seq<char>) -> Seq<ColModel>
    decreases m.len(),
{
    if m.len() == 0 {
        Seq::empty()
    } else {
        let rest = survivors(m.drop_last(), cols, dest);
        if !cols.contains(m.last().name) && m.last().name != dest {
            rest.push(m.last())
        } else {
            rest
        }
    }
}

/// The destination column holding one string per row.
pub open spec fn str_col_model(name: Seq<char>, strs: Seq<Seq<char>>) -> ColModel {
    ColModel { name, vals: strs.map_values(|s: Seq<char>| Val::Str(s)) }
}

/// The destination column of `transpose_to_json`: row `i` holds the JSON
/// text of row `i`'s record.
pub open spec fn json_col_model(m: Seq<ColModel>, cols: Seq<Seq<char>>, dest: Seq<char>) -> ColModel {
    ColModel {
        name: dest,
        vals: Seq::new(nrows(m), |i: int| Val::Str(record_text(record_model(m, cols, i)))),
    }
}

/// The table produced by `transpose_to_json`: the surviving columns in
/// their original order, then the JSON column.
pub open spec fn transpose_model(m: Seq<ColModel>, cols: Seq<Seq<char>>, dest: Seq<char>) -> Seq<ColModel> {
    survivors(m, cols, dest).push(json_col_model(m, cols, dest))
}

/// The default destination column name.
pub open spec fn default_dest() -> Seq<char> {
    seq!['m', 'e', 't', 'a', 'd', 'a', 't', 'a']
}

/// The destination column name: the given one, or `"metadata"`.
pub open spec fn dest_name_of(dest: Option<String>) -> Seq<char> {
    match dest {
        Some(d) => d@,
        None => default_dest(),
    }
}

/// Every surviving column is a column of the original table whose name is
/// neither a source name nor the destination name.
pub proof fn lemma_survivors_props(m: Seq<ColModel>, cols: Seq<Seq<char>>, dest: Seq<char>)
    ensures
        forall|j: int| 0 <= j < survivors(m, cols, dest).len()
            ==> !cols.contains(#[trigger] survivors(m, cols, dest)[j].name),
        forall|j: int| 0 <= j < survivors(m, cols, dest).len()
            ==> (#[trigger] survivors(m, cols, dest)[j]).name != dest,
        forall|j: int| 0 <= j < survivors(m, cols, dest).len()
            ==> m.contains(#[trigger] survivors(m, cols, dest)[j]),
    decreases m.len(),
{
    if m.len() > 0 {
        let md = m.drop_last();
        lemma_survivors_props(md, cols, dest);
        let s = survivors(m, cols, dest);
        let sd = survivors(md, cols, dest);
        assert forall|j: int| 0 <= j < s.len() implies !cols.contains(#[trigger] s[j].name)
            && s[j].name != dest && m.contains(s[j]) by {
            if j < sd.len() {
                assert(s[j] == sd[j]);
                assert(md.contains(sd[j]));
                let q = choose|q: int| 0 <= q < md.len() && md[q] == sd[j];
                assert(m[q] == sd[j]);
            } else {
                assert(s[j] == m.last());
                assert(m[m.len() - 1] == m.last());
            }
        }
    }
}

/// Surviving columns keep pairwise distinct names.
pub proof fn lemma_survivors_distinct(m: Seq<ColModel>, cols: Seq<Seq<char>>, dest: Seq<char>)
    requires
        distinct_names(names_of(m)),
    ensures
        distinct_names(names_of(survivors(m, cols, dest))),
    decreases m.len(),
{
    if m.len() > 0 {
        let md = m.drop_last();
        assert(names_of(md) =~= names_of(m).drop_last());
        assert(distinct_names(names_of(md)));
        lemma_survivors_distinct(md, cols, dest);
        lemma_survivors_props(md, cols, dest);
        let s = survivors(m, cols, dest);
        let sd = survivors(md, cols, dest);
        if !cols.contains(m.last().name) && m.last().name != dest {
            assert forall|p: int| 0 <= p < sd.len() implies sd[p].name != m.last().name by {
                let q = choose|q: int| 0 <= q < md.len() && md[q] == sd[p];
                assert(names_of(m)[q] == m[q].name);
                assert(names_of(m)[m.len() - 1] == m.last().name);
            }
            assert forall|p: int, q: int| 0 <= p < q < names_of(s).len()
                implies names_of(s)[p] != names_of(s)[q] by {
                assert(names_of(s)[p] == s[p].name);
                assert(names_of(s)[q] == s[q].name);
                if q < s.len() - 1 {
                    assert(names_of(sd)[p] == sd[p].name);
                    assert(names_of(sd)[q] == sd[q].name);
                }
            }
        }
    }
}

/// Appending a column named `dest`, holding one value per row, to the
/// surviving columns yields a well-formed table with the same row count.
pub proof fn lemma_materialized_wf(
    m: Seq<ColModel>,
    cols: Seq<Seq<char>>,
    dest: Seq<char>,
    dvals: Seq<Val>,
)
    requires
        table_wf(m),
        dvals.len() == nrows(m),
    ensures
        ({
            let out = survivors(m, cols, dest).push(ColModel { name: dest, vals: dvals });
            &&& table_wf(out)
            &&& nrows(out) == nrows(m)
        }),
{
    let s = survivors(m, cols, dest);
    let out = s.push(ColModel { name: dest, vals: dvals });
    lemma_survivors_props(m, cols, dest);
    lemma_survivors_distinct(m, cols, dest);
    assert forall|j: int| 0 <= j < s.len() implies (#[trigger] s[j].vals).len() == nrows(m) by {
        let q = choose|q: int| 0 <= q < m.len() && m[q] == s[j];
    }
    assert(nrows(out) == nrows(m));
    assert forall|j: int| 0 <= j < out.len() implies (#[trigger] out[j].vals).len() == nrows(out) by {}
    assert forall|p: int, q: int| 0 <= p < q < names_of(out).len()
        implies names_of(out)[p] != names_of(out)[q] by {
        assert(names_of(out)[p] == out[p].name);
        assert(names_of(out)[q] == out[q].name);
        if q < s.len() {
            assert(names_of(s)[p] == s[p].name);
            assert(names_of(s)[q] == s[q].name);
        }
    }
}

/// Law: transposing keeps the row count, removes exactly the selected
/// columns (and any previous destination column), leaves every other column
/// as it stands in the source table, and adds exactly one new column, named
/// `dest`, holding row by row the JSON text of that row's record.
pub proof fn lemma_transpose_shape(m: Seq<ColModel>, cols: Seq<Seq<char>>, dest: Seq<char>)
    requires
        table_wf(m),
    ensures
        ({
            let out = transpose_model(m, cols, dest);
            &&& table_wf(out)
            &&& nrows(out) == nrows(m)
            &&& out.len() == survivors(m, cols, dest).len() + 1
            &&& out.last() == json_col_model(m, cols, dest)
            &&& out.last().name == dest
            &&& forall|j: int| 0 <= j < out.len() - 1
                ==> !cols.contains(#[trigger] out[j].name)
                    && out[j].name != dest
                    && m.contains(out[j])
        }),
{
    lemma_survivors_props(m, cols, dest);
    lemma_materialized_wf(m, cols, dest, json_col_model(m, cols, dest).vals);
    let out = transpose_model(m, cols, dest);
    let s = survivors(m, cols, dest);
    assert forall|j: int| 0 <= j < out.len() - 1 implies !cols.contains(#[trigger] out[j].name)
        && out[j].name != dest && m.contains(out[j]) by {
        assert(out[j] == s[j]);
    }
}

/// Reads the selected columns row by row into records: record `i` holds,
/// for each selected column in selection order, that column's value at row
/// `i`. A table with zero rows yields zero records. Fails with
/// `ColumnNotFound` exactly when a selected column is absent.
pub fn transpose_records(t: &Table, cols: &Vec<String>) -> (r: Result<Vec<Record>, TableError>)
    requires
        table_wf(t@),
    ensures
        r is Ok <==> (forall|k: int| 0 <= k < cols@.len()
            ==> has_col(t@, #[trigger] strs_model(cols@)[k])),
        r matches Err(e) ==> e == TableError::ColumnNotFound,
        r matches Ok(recs) ==> {
            &&& recs@.len() == nrows(t@)
            &&& forall|i: int| 0 <= i < recs@.len()
                ==> #[trigger] recs@[i]@ == record_model(t@, strs_model(cols@), i)
        },
{
    let mut idxs: Vec<usize> = Vec::new();
    let mut k: usize = 0;
    while k < cols.len()
        invariant
            k <= cols.len(),
            table_wf(t@),
            idxs@.len() == k,
            forall|p: int| 0 <= p < k ==> {
                &&& (#[trigger] idxs@[p]) < t@.len()
                &&& t@[idxs@[p] as int].name == strs_model(cols@)[p]
            },
        decreases cols.len() - k,
    {
        proof {
            assert(strs_model(cols@)[k as int] == cols@[k as int]@);
        }
        match t.find_column(&cols[k]) {
            Some(i) => {
                idxs.push(i);
            },
            None => {
                return Err(TableError::ColumnNotFound);
            },
        }
        k = k + 1;
    }
    proof {
        assert forall|p: int| 0 <= p < cols@.len()
            implies has_col(t@, #[trigger] strs_model(cols@)[p]) by {
            assert(t@[idxs@[p] as int].name == strs_model(cols@)[p]);
        }
    }
    let n = t.row_count();
    let mut recs: Vec<Record> = Vec::new();
    let mut i: usize = 0;
    while i < n
        invariant
            i <= n,
            table_wf(t@),
            n as nat == nrows(t@),
            idxs@.len() == cols@.len(),
            idxs@.len() == idxs.len(),
            cols@.len() == cols.len(),
            forall|p: int| 0 <= p < idxs@.len() ==> {
                &&& (#[trigger] idxs@[p]) < t@.len()
                &&& t@[idxs@[p] as int].name == strs_model(cols@)[p]
            },
            recs@.len() == i,
            forall|p: int| 0 <= p < i
                ==> #[trigger] recs@[p]@ == record_model(t@, strs_model(cols@), p),
        decreases n - i,
    {
        let mut fields: Vec<RecordField> = Vec::new();
        let mut j: usize = 0;
        while j < idxs.len()
            invariant
                j <= idxs.len(),
                i < n,
                table_wf(t@),
                n as nat == nrows(t@),
                idxs@.len() == cols@.len(),
                idxs@.len() == idxs.len(),
                cols@.len() == cols.len(),
                forall|p: int| 0 <= p < idxs@.len() ==> {
                    &&& (#[trigger] idxs@[p]) < t@.len()
                    &&& t@[idxs@[p] as int].name == strs_model(cols@)[p]
                },
                fields@.len() == j,
                forall|p: int| 0 <= p < j
                    ==> #[trigger] fields@[p]@ == record_model(t@, strs_model(cols@), i as int)[p],
            decreases idxs.len() - j,
        {
            let ci = idxs[j];
            proof {
                assert(t@[ci as int] == t.cols@[ci as int]@);
                assert(t@[ci as int].vals.len() == nrows(t@));
                assert(t@[ci as int].vals.len() == t.cols@[ci as int].vals@.len());
                lemma_idx_of_unique(t@, strs_model(cols@)[j as int], ci as int);
                assert(strs_model(cols@)[j as int] == cols@[j as int]@);
                assert(t@[ci as int].vals[i as int] == t.cols@[ci as int].vals@[i as int]@);
            }
            let f = RecordField {
                name: cols[j].clone(),
                value: t.cols[ci].vals[i].clone(),
            };
            fields.push(f);
            j = j + 1;
        }
        let rec = Record { fields };
        proof {
            assert(rec@ =~= record_model(t@, strs_model(cols@), i as int));
        }
        recs.push(rec);
        i = i + 1;
    }
    Ok(recs)
}

/// Appends `jsons` as a new column named `dest` (one string per row) and
/// drops the source columns, leaving every other column in its original
/// order. Fails with `ColumnNotFound` when a source column is absent, and
/// otherwise with `RowCountMismatch` when `jsons` does not hold exactly one
/// string per row. The input table is never modified.
pub fn materialize_column(
    t: &Table,
    sources: &Vec<String>,
    dest: &String,
    jsons: Vec<String>,
) -> (r: Result<Table, TableError>)
    requires
        table_wf(t@),
    ensures
        r is Ok <==> ((forall|k: int| 0 <= k < sources@.len()
            ==> has_col(t@, #[trigger] strs_model(sources@)[k]))
            && jsons@.len() == nrows(t@)),
        (exists|k: int| 0 <= k < sources@.len()
            && !has_col(t@, #[trigger] strs_model(sources@)[k]))
            ==> r == Result::<Table, TableError>::Err(TableError::ColumnNotFound),
        ((forall|k: int| 0 <= k < sources@.len()
            ==> has_col(t@, #[trigger] strs_model(sources@)[k]))
            && jsons@.len() != nrows(t@))
            ==> r == Result::<Table, TableError>::Err(TableError::RowCountMismatch),
        r matches Ok(out) ==> {
            &&& out@ == survivors(t@, strs_model(sources@), dest@)
                .push(str_col_model(dest@, strs_model(jsons@)))
            &&& table_wf(out@)
            &&& nrows(out@) == nrows(t@)
        },
{
    let mut k: usize = 0;
    while k < sources.len()
        invariant
            k <= sources.len(),
            table_wf(t@),
            forall|p: int| 0 <= p < k ==> has_col(t@, #[trigger] strs_model(sources@)[p]),
        decreases sources.len() - k,
    {
        proof {
            assert(strs_model(sources@)[k as int] == sources@[k as int]@);
        }
        if !t.has_column(&sources[k]) {
            return Err(TableError::ColumnNotFound);
        }
        k = k + 1;
    }
    if jsons.len() != t.row_count() {
        return Err(TableError::RowCountMismatch);
    }
    let ghost srcs = strs_model(sources@);
    let mut cols: Vec<Column> = Vec::new();
    proof {
        assert(cols@.map_values(|c: Column| c@) =~= survivors(t@.take(0), srcs, dest@));
    }
    let mut i: usize = 0;
    while i < t.cols.len()
        invariant
            i <= t.cols.len(),
            table_wf(t@),
            srcs == strs_model(sources@),
            cols_prefix_ok(cols@.map_values(|c: Column| c@), t@, srcs, dest@, i as int),
        decreases t.cols.len() - i,
    {
        proof {
            assert(t@[i as int] == t.cols@[i as int]@);
            assert(t@.take(i + 1 as int).drop_last() =~= t@.take(i as int));
            assert(t@.take(i + 1 as int).last() == t@[i as int]);
        }
        let keep = !contains_str(sources, &t.cols[i].name) && !(t.cols[i].name == *dest);
        if keep {
            cols.push(t.cols[i].clone());
        }
        proof {
            assert(cols@.map_values(|c: Column| c@)
                =~= survivors(t@.take(i + 1 as int), srcs, dest@));
        }
        i = i + 1;
    }
    proof {
        assert(t@.take(t@.len() as int) =~= t@);
    }
    let mut dvals: Vec<Value> = Vec::new();
    let mut j: usize = 0;
    while j < jsons.len()
        invariant
            j <= jsons.len(),
            dvals@.len() == j,
            forall|p: int| 0 <= p < j ==> #[trigger] dvals@[p]@ == Val::Str(jsons@[p]@),
        decreases jsons.len() - j,
    {
        dvals.push(Value::Str(jsons[j].clone()));
        j = j + 1;
    }
    let dcol = Column { name: dest.clone(), vals: dvals };
    proof {
        assert(dcol@.vals =~= str_col_model(dest@, strs_model(jsons@)).vals);
    }
    cols.push(dcol);
    let out = Table { cols };
    proof {
        assert(out@ =~= survivors(t@, srcs, dest@).push(str_col_model(dest@, strs_model(jsons@))));
        lemma_materialized_wf(t@, srcs, dest@, str_col_model(dest@, strs_model(jsons@)).vals);
    }
    Ok(out)
}

/// The built prefix of surviving columns matches the model of the first `i`
/// table columns.
pub open spec fn cols_prefix_ok(
    built: Seq<ColModel>,
    m: Seq<ColModel>,
    cols: Seq<Seq<char>>,
    dest: Seq<char>,
    i: int,
) -> bool {
    built == survivors(m.take(i), cols, dest)
}

/// Transposes the selected columns into one new column of JSON strings:
/// record `i` holds the selected values of row `i`, serialized in selection
/// order; the source columns are dropped. The destination column is named
/// `dest`, or `"metadata"` when none is given. Fails with `ColumnNotFound`
/// exactly when a selected column is absent; the input table is only
/// borrowed and is never modified.
pub fn transpose_to_json(
    t: &Table,
    cols: &Vec<String>,
    dest: Option<String>,
) -> (r: Result<Table, TableError>)
    requires
        table_wf(t@),
    ensures
        r is Ok <==> (forall|k: int| 0 <= k < cols@.len()
            ==> has_col(t@, #[trigger] strs_model(cols@)[k])),
        r matches Err(e) ==> e == TableError::ColumnNotFound,
        r matches Ok(out) ==> {
            &&& out@ == transpose_model(t@, strs_model(cols@), dest_name_of(dest))
            &&& table_wf(out@)
            &&& nrows(out@) == nrows(t@)
        },
{
    let dname: String = match dest {
        Some(d) => d,
        None => {
            let s = String::from_str("metadata");
            proof {
                reveal_strlit("metadata");
                assert(s@ =~= default_dest());
            }
            s
        },
    };
    let recs = match transpose_records(t, cols) {
        Ok(recs) => recs,
        Err(e) => {
            return Err(e);
        },
    };
    let jsons = serialize_records(&recs);
    match materialize_column(t, cols, &dname, jsons) {
        Ok(out) => {
            proof {
                let m = t@;
                let scols = strs_model(cols@);
                assert(str_col_model(dname@, strs_model(jsons@)).vals
                    =~= json_col_model(m, scols, dname@).vals);
                assert(out@ =~= transpose_model(m, scols, dname@));
            }
            Ok(out)
        },
        Err(e) => {
            proof {
                assert(false);
            }
            Err(e)
        },
    }
}

} // verus!
