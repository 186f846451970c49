//! Row-wise union of tables.
//!
//! `combine_union` stacks the rows of a non-empty list of tables, in list
//! order, into one new table. The tables must share the same column schema
//! (same names, same order); no input table is modified.

use vstd::prelude::*;

use crate::errors::TableError;
use crate::partition::{vstack, vstack_all};
use crate::table::{names_of, nrows, table_wf, vals_model, ColModel, Column, Table};
use crate::value::Value;

verus! {

/// The models of a sequence of tables.
pub open spec fn models_of(ts: Seq<Table>) -> Seq<Seq<ColModel>> {
    ts.map_values(|t: Table| t@)
}

/// Whether every table has the column names of the first, in the same order.
pub open spec fn schemas_match(ms: Seq<Seq<ColModel>>) -> bool {
    forall|i: int| 0 <= i < ms.len() ==> names_of(#[trigger] ms[i]) == names_of(ms[0])
}

/// The total number of rows of a sequence of tables.
pub open spec fn total_rows(ms: Seq<Seq<ColModel>>) -> int
    decreases ms.len(),
{
    if ms.len() == 0 {
        0
    } else {
        total_rows(ms.drop_last()) + nrows(ms.last())
    }
}

/// The stacked values of column `c`: every table's values for that column,
/// in table order.
pub open spec fn stacked_vals(ms: Seq<Seq<ColModel>>, c: int) -> Seq<crate::value::Val>
    decreases ms.len(),
{
    if ms.len() == 0 {
        Seq::empty()
    } else {
        stacked_vals(ms.drop_last(), c) + ms.last()[c].vals
    }
}

/// Stacking tables of one schema keeps the column names of the first table
/// and stacks each column's values in table order.
pub proof fn lemma_vstack_all_cols(ms: Seq<Seq<ColModel>>)
    requires
        ms.len() >= 1,
        forall|i: int| 0 <= i < ms.len() ==> (#[trigger] ms[i]).len() == ms[0].len(),
        forall|i: int, c: int| 0 <= i < ms.len() && 0 <= c < ms[0].len()
            ==> (#[trigger] ms[i][c]).name == ms[0][c].name,
    ensures
        vstack_all(ms).len() == ms[0].len(),
        forall|c: int| 0 <= c < ms[0].len() ==> #[trigger] vstack_all(ms)[c]
            == (ColModel { name: ms[0][c].name, vals: stacked_vals(ms, c) }),
    decreases ms.len(),
{
    if ms.len() == 1 {
        assert forall|c: int| 0 <= c < ms[0].len() implies #[trigger] vstack_all(ms)[c]
            == (ColModel { name: ms[0][c].name, vals: stacked_vals(ms, c) }) by {
            assert(stacked_vals(ms, c) == stacked_vals(ms.drop_last(), c) + ms[0][c].vals);
            assert(stacked_vals(ms, c) =~= ms[0][c].vals);
        }
    } else {
        let md = ms.drop_last();
        assert(md[0] == ms[0]);
        lemma_vstack_all_cols(md);
        assert(vstack_all(ms) == vstack(vstack_all(md), ms.last()));
        assert forall|c: int| 0 <= c < ms[0].len() implies #[trigger] vstack_all(ms)[c]
            == (ColModel { name: ms[0][c].name, vals: stacked_vals(ms, c) }) by {
            assert(vstack_all(md)[c]
                == (ColModel { name: ms[0][c].name, vals: stacked_vals(md, c) }));
            assert(ms.last()[c].name == ms[0][c].name);
        }
    }
}

/// Law: the union of same-schema tables is well formed, keeps the schema of
/// the first table, and holds exactly the sum of the input row counts.
pub proof fn lemma_union_shape(ms: Seq<Seq<ColModel>>)
    requires
        ms.len() >= 1,
        forall|i: int| 0 <= i < ms.len() ==> table_wf(#[trigger] ms[i]),
        schemas_match(ms),
    ensures
        table_wf(vstack_all(ms)),
        names_of(vstack_all(ms)) == names_of(ms[0]),
        nrows(vstack_all(ms)) == total_rows(ms),
        vstack_all(ms).len() == ms[0].len(),
        forall|c: int| 0 <= c < ms[0].len() ==> #[trigger] vstack_all(ms)[c]
            == (ColModel { name: ms[0][c].name, vals: stacked_vals(ms, c) }),
    decreases ms.len(),
{
    assert forall|i: int| 0 <= i < ms.len() implies (#[trigger] ms[i]).len() == ms[0].len() by {
        assert(names_of(ms[i]) == names_of(ms[0]));
        assert(names_of(ms[i]).len() == ms[i].len());
    }
    assert forall|i: int, c: int| 0 <= i < ms.len() && 0 <= c < ms[0].len()
        implies (#[trigger] ms[i][c]).name == ms[0][c].name by {
        assert(names_of(ms[i])[c] == ms[i][c].name);
        assert(names_of(ms[0])[c] == ms[0][c].name);
    }
    lemma_vstack_all_cols(ms);
    let out = vstack_all(ms);
    assert(names_of(out) =~= names_of(ms[0]));
    lemma_stacked_total(ms);
    if ms[0].len() == 0 {
        assert(out.len() == 0);
        assert(total_rows(ms) == 0);
    } else {
        assert(out[0].vals == stacked_vals(ms, 0));
        assert forall|c: int| 0 <= c < out.len()
            implies (#[trigger] out[c].vals).len() == nrows(out) by {
            assert(out[c].vals == stacked_vals(ms, c));
        }
    }
}

/// Each column stacks to the same total length: the sum of the row counts.
proof fn lemma_stacked_total(ms: Seq<Seq<ColModel>>)
    requires
        forall|i: int| 0 <= i < ms.len() ==> table_wf(#[trigger] ms[i]),
        forall|i: int| 0 <= i < ms.len() && ms.len() >= 1 ==> (#[trigger] ms[i]).len() == ms[0].len(),
    ensures
        forall|c: int| ms.len() >= 1 && 0 <= c < ms[0].len()
            ==> (#[trigger] stacked_vals(ms, c)).len() == total_rows(ms),
        ms.len() >= 1 && ms[0].len() == 0 ==> total_rows(ms) == 0,
    decreases ms.len(),
{
    if ms.len() >= 1 {
        let md = ms.drop_last();
        assert(forall|i: int| 0 <= i < md.len() ==> (#[trigger] md[i]) == ms[i]);
        if ms.len() >= 2 {
            assert(md[0] == ms[0]);
        }
        lemma_stacked_total(md);
        assert(ms.last() == ms[ms.len() - 1]);
        assert(ms.last().len() == ms[0].len());
        assert forall|c: int| 0 <= c < ms[0].len()
            implies (#[trigger] stacked_vals(ms, c)).len() == total_rows(ms) by {
            assert(ms.last()[c].vals.len() == nrows(ms.last()));
            if ms.len() >= 2 {
                assert(stacked_vals(md, c).len() == total_rows(md));
            } else {
                assert(stacked_vals(md, c).len() == 0);
                assert(total_rows(md) == 0);
            }
        }
        if ms[0].len() == 0 {
            assert(nrows(ms.last()) == 0);
            if ms.len() >= 2 {
                assert(total_rows(md) == 0);
            } else {
                assert(total_rows(md) == 0);
            }
            assert(total_rows(ms) == total_rows(md) + nrows(ms.last()));
            assert(total_rows(ms) == 0);
        }
    }
}

/// Checks that `b` has exactly the column names of `a`, in the same order.
fn same_schema(a: &Table, b: &Table) -> (r: bool)
    ensures
        r == (names_of(a@) == names_of(b@)),
{
    if a.cols.len() != b.cols.len() {
        proof {
            assert(names_of(a@).len() == a@.len());
            assert(names_of(b@).len() == b@.len());
        }
        return false;
    }
    let mut i: usize = 0;
    while i < a.cols.len()
        invariant
            i <= a.cols.len(),
            a.cols@.len() == b.cols@.len(),
            forall|k: int| 0 <= k < i ==> names_of(a@)[k] == names_of(b@)[k],
        decreases a.cols.len() - i,
    {
        proof {
            assert(a@[i as int] == a.cols@[i as int]@);
            assert(b@[i as int] == b.cols@[i as int]@);
            assert(names_of(a@)[i as int] == a@[i as int].name);
            assert(names_of(b@)[i as int] == b@[i as int].name);
        }
        if !(a.cols[i].name == b.cols[i].name) {
            return false;
        }
        i = i + 1;
    }
    proof {
        assert(names_of(a@) =~= names_of(b@));
    }
    true
}

/// Stacks the rows of the given tables, in list order, into one new table;
/// the tables must share one column schema. Fails with `EmptyInputList` on
/// an empty list and with `IncompatibleSchema` when a table's column names
/// differ from the first table's. No input table is modified.
pub fn combine_union(tables: &Vec<Table>) -> (r: Result<Table, TableError>)
    requires
        forall|i: int| 0 <= i < tables@.len() ==> table_wf(#[trigger] tables@[i]@),
    ensures
        r is Ok <==> (tables@.len() > 0 && schemas_match(models_of(tables@))),
        tables@.len() == 0 ==> r == Result::<Table, TableError>::Err(TableError::EmptyInputList),
        (tables@.len() > 0 && !schemas_match(models_of(tables@)))
            ==> r == Result::<Table, TableError>::Err(TableError::IncompatibleSchema),
        r matches Ok(out) ==> {
            &&& out@ == vstack_all(models_of(tables@))
            &&& table_wf(out@)
            &&& nrows(out@) == total_rows(models_of(tables@))
        },
{
    let ghost ms = models_of(tables@);
    if tables.len() == 0 {
        return Err(TableError::EmptyInputList);
    }
    let mut i: usize = 1;
    while i < tables.len()
        invariant
            1 <= i <= tables@.len(),
            ms == models_of(tables@),
            forall|k: int| 0 <= k < i ==> names_of(#[trigger] ms[k]) == names_of(ms[0]),
        decreases tables.len() - i,
    {
        proof {
            assert(ms[i as int] == tables@[i as int]@);
            assert(ms[0] == tables@[0]@);
        }
        if !same_schema(&tables[0], &tables[i]) {
            return Err(TableError::IncompatibleSchema);
        }
        i = i + 1;
    }
    proof {
        assert(schemas_match(ms));
        assert forall|k: int| 0 <= k < ms.len() implies table_wf(#[trigger] ms[k]) by {
            assert(ms[k] == tables@[k]@);
        }
        lemma_union_shape(ms);
    }
    let first = &tables[0];
    let mut cols: Vec<Column> = Vec::new();
    let mut c: usize = 0;
    while c < first.cols.len()
        invariant
            c <= first.cols.len(),
            ms == models_of(tables@),
            ms.len() == tables@.len(),
            tables@.len() >= 1,
            first == &tables@[0],
            schemas_match(ms),
            forall|k: int| 0 <= k < ms.len() ==> table_wf(#[trigger] ms[k]),
            vstack_all(ms).len() == ms[0].len(),
            forall|k: int| 0 <= k < ms[0].len() ==> #[trigger] vstack_all(ms)[k]
                == (ColModel { name: ms[0][k].name, vals: stacked_vals(ms, k) }),
            cols@.len() == c,
            forall|k: int| 0 <= k < c ==> cols@[k]@ == vstack_all(ms)[k],
        decreases first.cols.len() - c,
    {
        proof {
            assert(ms[0] == tables@[0]@);
            assert(ms[0][c as int] == first.cols@[c as int]@);
        }
        let mut vals: Vec<Value> = Vec::new();
        proof {
            assert(vals_model(vals@) =~~= stacked_vals(ms.take(0), c as int));
        }
        let mut r: usize = 0;
        while r < tables.len()
            invariant
                r <= tables@.len(),
                c < ms[0].len(),
                ms == models_of(tables@),
                ms.len() == tables@.len(),
                schemas_match(ms),
                forall|k: int| 0 <= k < ms.len() ==> table_wf(#[trigger] ms[k]),
                vals_model(vals@) == stacked_vals(ms.take(r as int), c as int),
            decreases tables.len() - r,
        {
            proof {
                assert(ms[r as int] == tables@[r as int]@);
                assert(names_of(ms[r as int]) == names_of(ms[0]));
                assert(names_of(ms[r as int]).len() == ms[r as int].len());
                assert(ms[r as int][c as int] == tables@[r as int].cols@[c as int]@);
                assert(ms[r as int][c as int].vals.len() == nrows(ms[r as int]));
            }
            let src = &tables[r].cols[c];
            proof {
                assert(vals_model(vals@) =~~= stacked_vals(ms.take(r as int), c as int)
                    + tables@[r as int].cols@[c as int]@.vals.take(0));
            }
            let mut k: usize = 0;
            while k < src.vals.len()
                invariant
                    k <= src.vals.len(),
                    src@ == ms[r as int][c as int],
                    src.vals@.len() == src@.vals.len(),
                    vals_model(vals@)
                        == stacked_vals(ms.take(r as int), c as int) + src@.vals.take(k as int),
                decreases src.vals.len() - k,
            {
                proof {
                    assert(src@.vals[k as int] == src.vals@[k as int]@);
                }
                let v = src.vals[k].clone();
                proof {
                    assert(v@ == src@.vals[k as int]);
                }
                let ghost prev = vals@;
                vals.push(v);
                proof {
                    let g = stacked_vals(ms.take(r as int), c as int);
                    assert(vals@ == prev.push(v));
                    assert(vals_model(prev) == g + src@.vals.take(k as int));
                    assert(vals_model(prev).len() == g.len() + k);
                    assert(vals_model(vals@).len() == prev.len() + 1);
                    assert forall|i: int| 0 <= i < prev.len()
                        implies vals_model(vals@)[i] == vals_model(prev)[i] by {
                        assert(vals@[i] == prev[i]);
                    }
                    assert(vals_model(vals@)[prev.len() as int] == v@);
                    let rhs = g + src@.vals.take(k + 1 as int);
                    assert(src@.vals.take(k + 1 as int).len() == k + 1);
                    assert(rhs.len() == g.len() + k + 1);
                    assert forall|i: int| 0 <= i < vals_model(vals@).len()
                        implies vals_model(vals@)[i] == rhs[i] by {
                        if i < g.len() {
                            assert(vals_model(vals@)[i] == (g + src@.vals.take(k as int))[i]);
                            assert((g + src@.vals.take(k as int))[i] == g[i]);
                            assert(rhs[i] == g[i]);
                        } else if i < g.len() + k {
                            assert(vals_model(vals@)[i] == (g + src@.vals.take(k as int))[i]);
                            assert((g + src@.vals.take(k as int))[i]
                                == src@.vals.take(k as int)[i - g.len()]);
                            assert(src@.vals.take(k as int)[i - g.len()]
                                == src@.vals[i - g.len()]);
                            assert(rhs[i] == src@.vals.take(k + 1 as int)[i - g.len()]);
                            assert(src@.vals.take(k + 1 as int)[i - g.len()]
                                == src@.vals[i - g.len()]);
                        } else {
                            assert(i == g.len() + k);
                            assert(vals_model(vals@)[i] == v@);
                            assert(rhs[i] == src@.vals.take(k + 1 as int)[k as int]);
                            assert(src@.vals.take(k + 1 as int)[k as int] == src@.vals[k as int]);
                        }
                    }
                    assert(vals_model(vals@) =~~= rhs);
                }
                k = k + 1;
            }
            proof {
                assert(src@.vals.take(src@.vals.len() as int) =~= src@.vals);
                assert(ms.take(r + 1 as int).last()[c as int] == ms[r as int][c as int]);
                assert(ms.take(r + 1 as int).drop_last() =~= ms.take(r as int));
                assert(ms.take(r + 1 as int).last() == ms[r as int]);
                assert(vals_model(vals@)
                    =~~= stacked_vals(ms.take(r + 1 as int), c as int));
            }
            r = r + 1;
        }
        proof {
            assert(ms.take(ms.len() as int) =~= ms);
        }
        let col = Column { name: first.cols[c].name.clone(), vals };
        proof {
            assert(col@.name == ms[0][c as int].name);
            assert(col@ == vstack_all(ms)[c as int]);
        }
        cols.push(col);
        c = c + 1;
    }
    let out = Table { cols };
    proof {
        assert(out@ =~= vstack_all(ms));
    }
    Ok(out)
}

} // verus!
