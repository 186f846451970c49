//! Partitioning a table into fixed-size row chunks.
//!
//! The chunks cover all rows in ascending row order, with no gaps and no
//! overlaps; only the final chunk may be shorter than the requested size. A
//! table with zero rows yields one chunk equal to the table itself, so that
//! concatenating the chunks always reproduces the source table.

use vstd::arithmetic::div_mod::lemma_fundamental_div_mod_converse;
use vstd::math::min;
use vstd::prelude::*;

use crate::errors::TableError;
use crate::table::{nrows, table_wf, ColModel, Table};

verus! {

/// How many chunks a partition of `n` rows into chunks of `c` produces:
/// one per started chunk, and a single empty chunk when there are no rows.
pub open spec fn chunk_count(n: int, c: int) -> int {
    if n == 0 {
        1
    } else {
        (n + c - 1) / c
    }
}

/// The row count of chunk `j`: `c`, except for a shorter final chunk.
pub open spec fn chunk_len(n: int, c: int, j: int) -> int {
    min(c, n - j * c)
}

/// The model of chunk `j`: the rows `[j * c, j * c + chunk_len)`.
pub open spec fn chunk_model(m: Seq<ColModel>, c: int, j: int) -> Seq<ColModel> {
    Table::slice_model(m, j * c, chunk_len(nrows(m) as int, c, j))
}

/// Stacks the rows of two tables with equal column names: each column keeps
/// its name and holds `a`'s values followed by `b`'s.
pub open spec fn vstack(a: Seq<ColModel>, b: Seq<ColModel>) -> Seq<ColModel> {
    Seq::new(a.len(), |i: int| ColModel { name: a[i].name, vals: a[i].vals + b[i].vals })
}

/// Stacks the rows of a sequence of tables, in order; no tables stack to
/// the table without columns.
pub open spec fn vstack_all(ts: Seq<Seq<ColModel>>) -> Seq<ColModel>
    decreases ts.len(),
{
    if ts.len() == 0 {
        Seq::empty()
    } else if ts.len() == 1 {
        ts[0]
    } else {
        vstack(vstack_all(ts.drop_last()), ts.last())
    }
}

/// Splits the table into chunks of `chunk_size` rows, in ascending row
/// order; the final chunk may be shorter, and a table with zero rows gives
/// one chunk equal to the table. Fails with `InvalidChunkSize` exactly when
/// `chunk_size` is zero. The input table is only borrowed; chunks are
/// independent copies.
pub fn partition(t: &Table, chunk_size: usize) -> (r: Result<Vec<Table>, TableError>)
    requires
        table_wf(t@),
    ensures
        chunk_size == 0 <==> r is Err,
        r matches Err(e) ==> e == TableError::InvalidChunkSize,
        r matches Ok(chunks) ==> {
            &&& chunks@.len() == chunk_count(nrows(t@) as int, chunk_size as int)
            &&& forall|j: int| 0 <= j < chunks@.len()
                ==> #[trigger] chunks@[j]@ == chunk_model(t@, chunk_size as int, j)
            &&& forall|j: int| 0 <= j < chunks@.len() ==> table_wf(#[trigger] chunks@[j]@)
        },
{
    if chunk_size == 0 {
        return Err(TableError::InvalidChunkSize);
    }
    let ghost m = t@;
    let ghost c = chunk_size as int;
    let n = t.row_count();
    let mut chunks: Vec<Table> = Vec::new();
    if n == 0 {
        let chunk = t.slice_rows(0, 0);
        proof {
            assert(chunk@ == chunk_model(m, c, 0));
        }
        chunks.push(chunk);
        return Ok(chunks);
    }
    let mut off: usize = 0;
    while off < n
        invariant
            table_wf(m),
            m == t@,
            n as nat == nrows(m),
            n >= 1,
            c == chunk_size as int,
            c >= 1,
            off as int == min(chunks@.len() * c, n as int),
            chunks@.len() * c < n + c,
            forall|j: int| 0 <= j < chunks@.len()
                ==> #[trigger] chunks@[j]@ == chunk_model(m, c, j),
            forall|j: int| 0 <= j < chunks@.len() ==> table_wf(#[trigger] chunks@[j]@),
        decreases n - off,
    {
        let ghost j = chunks@.len() as int;
        proof {
            assert(j * c <= n as int) by (nonlinear_arith)
                requires
                    off as int == min(j * c, n as int),
                    off < n,
                    c >= 1,
                    j >= 0,
            {
            }
            assert(off as int == j * c);
            assert((j + 1) * c == j * c + c) by (nonlinear_arith);
        }
        let len = if n - off < chunk_size {
            n - off
        } else {
            chunk_size
        };
        proof {
            assert(len as int == chunk_len(n as int, c, j));
        }
        let chunk = t.slice_rows(off, len);
        proof {
            assert(chunk@ == chunk_model(m, c, j));
        }
        chunks.push(chunk);
        off = off + len;
        proof {
            assert(off as int == min((j + 1) * c, n as int));
        }
    }
    proof {
        let j = chunks@.len() as int;
        assert(j * c >= n as int);
        assert(j >= 1) by (nonlinear_arith)
            requires
                j * c >= n,
                n >= 1,
                c >= 1,
                j >= 0,
        {
        }
        let r = n + c - 1 - j * c;
        assert(0 <= r < c);
        lemma_fundamental_div_mod_converse(n as int + c - 1, c, j, r);
        assert(j == chunk_count(n as int, c));
    }
    Ok(chunks)
}

/// Law: with a chunk size of at least the (nonzero) row count, the
/// partition has exactly one chunk, and that chunk is the whole table.
pub proof fn lemma_partition_single_chunk(m: Seq<ColModel>, c: int)
    requires
        table_wf(m),
        c >= nrows(m),
        c >= 1,
    ensures
        chunk_count(nrows(m) as int, c) == 1,
        chunk_model(m, c, 0) == m,
{
    let n = nrows(m) as int;
    if n > 0 {
        lemma_fundamental_div_mod_converse(n + c - 1, c, 1, n - 1);
    }
    assert forall|i: int| 0 <= i < m.len() implies chunk_model(m, c, 0)[i] == m[i] by {
        assert(m[i].vals.len() == nrows(m));
        assert(m[i].vals.subrange(0, chunk_len(n, c, 0)) =~= m[i].vals);
    }
    assert(chunk_model(m, c, 0) =~= m);
}

/// The rows `[0, k)` of a table, one shortened column at a time.
pub open spec fn rows_prefix(m: Seq<ColModel>, k: int) -> Seq<ColModel> {
    Table::slice_model(m, 0, k)
}

/// Stacking one more chunk onto a prefix of the rows covers the longer
/// prefix.
proof fn lemma_vstack_prefix(m: Seq<ColModel>, a: int, b: int)
    requires
        table_wf(m),
        0 <= a <= a + b <= nrows(m),
    ensures
        vstack(rows_prefix(m, a), Table::slice_model(m, a, b)) == rows_prefix(m, a + b),
{
    assert forall|i: int| 0 <= i < m.len()
        implies vstack(rows_prefix(m, a), Table::slice_model(m, a, b))[i]
            == rows_prefix(m, a + b)[i] by {
        assert(m[i].vals.len() == nrows(m));
        assert(m[i].vals.subrange(0, a) + m[i].vals.subrange(a, a + b)
            =~= m[i].vals.subrange(0, a + b));
    }
    assert(vstack(rows_prefix(m, a), Table::slice_model(m, a, b)) =~= rows_prefix(m, a + b));
}

/// Law: concatenating the chunks of a partition, in order, reproduces the
/// source table exactly — same columns, same values, same row order.
pub proof fn lemma_partition_concat(m: Seq<ColModel>, c: int, chunks: Seq<Seq<ColModel>>)
    requires
        table_wf(m),
        c >= 1,
        chunks.len() == chunk_count(nrows(m) as int, c),
        forall|j: int| 0 <= j < chunks.len() ==> #[trigger] chunks[j] == chunk_model(m, c, j),
    ensures
        vstack_all(chunks) == m,
{
    let n = nrows(m) as int;
    assert(chunks.len() >= 1 && min(chunks.len() as int * c, n) == n) by {
        if n == 0 {
            assert(chunks.len() == 1);
            assert(1 * c == c) by (nonlinear_arith);
        } else {
            let q = (n + c - 1) / c;
            vstd::arithmetic::div_mod::lemma_fundamental_div_mod(n + c - 1, c);
            vstd::arithmetic::div_mod::lemma_mod_bound(n + c - 1, c);
            assert(c * q == n + c - 1 - (n + c - 1) % c);
            assert(c * q >= n);
            assert(q >= 1 && q * c >= n) by (nonlinear_arith)
                requires
                    c * q >= n,
                    n >= 1,
                    c >= 1,
            {
            }
        }
    }
    lemma_partition_concat_aux(m, c, chunks, chunks.len() as int);
    assert(chunks.take(chunks.len() as int) =~= chunks);
    assert forall|i: int| 0 <= i < m.len() implies rows_prefix(m, n)[i] == m[i] by {
        assert(m[i].vals.len() == nrows(m));
        assert(m[i].vals.subrange(0, n) =~= m[i].vals);
    }
    assert(rows_prefix(m, n) =~= m);
}

/// The first `j` chunks cover exactly the first `min(j * c, n)` rows.
proof fn lemma_partition_concat_aux(m: Seq<ColModel>, c: int, chunks: Seq<Seq<ColModel>>, j: int)
    requires
        table_wf(m),
        c >= 1,
        1 <= j <= chunks.len(),
        chunks.len() == chunk_count(nrows(m) as int, c),
        forall|jj: int| 0 <= jj < chunks.len() ==> #[trigger] chunks[jj] == chunk_model(m, c, jj),
    ensures
        vstack_all(chunks.take(j)) == rows_prefix(m, min(j * c, nrows(m) as int)),
    decreases j,
{
    let n = nrows(m) as int;
    assert(j * c <= chunks.len() * c) by (nonlinear_arith)
        requires
            j <= chunks.len(),
            c >= 1,
    {
    }
    if j == 1 {
        assert(0 * c == 0 && 1 * c == c) by (nonlinear_arith);
        assert(vstack_all(chunks.take(1)) == chunks[0]);
        assert(chunk_len(n, c, 0) == min(c, n));
        assert(chunk_model(m, c, 0) == rows_prefix(m, min(c, n)));
    } else {
        lemma_partition_concat_aux(m, c, chunks, j - 1);
        let prev = min((j - 1) * c, n);
        assert((j - 1) * c >= 0 && j * c == (j - 1) * c + c) by (nonlinear_arith)
            requires
                j >= 1,
                c >= 1,
        {
        }
        assert(chunks.take(j).drop_last() =~= chunks.take(j - 1));
        assert(chunks.take(j).last() == chunks[j - 1]);
        assert(vstack_all(chunks.take(j)) == vstack(vstack_all(chunks.take(j - 1)), chunks[j - 1]));
        // chunk j - 1 starts where the previous chunks end
        assert((j - 1) * c < n) by {
            if n == 0 {
                assert(chunks.len() == 1);
                assert(false);
            } else {
                let q = (n + c - 1) / c;
                assert(j <= q);
                vstd::arithmetic::div_mod::lemma_fundamental_div_mod(n + c - 1, c);
                vstd::arithmetic::div_mod::lemma_mod_bound(n + c - 1, c);
                assert(c * q <= n + c - 1);
                assert((j - 1) * c < n) by (nonlinear_arith)
                    requires
                        j <= q,
                        c * q <= n + c - 1,
                        c >= 1,
                        j >= 2,
                {
                }
            }
        }
        assert(prev == (j - 1) * c);
        assert(chunks[j - 1] == Table::slice_model(m, prev, chunk_len(n, c, j - 1)));
        lemma_vstack_prefix(m, prev, chunk_len(n, c, j - 1));
        assert(prev + chunk_len(n, c, j - 1) == min(j * c, n));
    }
}

} // verus!
