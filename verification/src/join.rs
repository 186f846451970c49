//! Equi-joins of tables on shared key columns.
//!
//! `combine_join` reduces a non-empty list of tables pairwise, left to
//! right, joining each accumulated table with the next on the key columns.
//! A pairwise join pairs each left row with the matching right rows in row
//! order (all right rows for a cross join; one null-padded row for a left
//! join without a match). Key columns appear once in the output; any other
//! right column whose name clashes with a left column is renamed with the
//! suffix `_right`. No input table is modified.

use vstd::prelude::*;

use crate::errors::TableError;
use crate::table::{
    col_of, distinct_names, has_col, lemma_idx_of_unique, names_of, nrows, strs_model, table_wf,
    vals_model, ColModel, Column, Table,
};
use crate::value::{Val, Value};

verus! {

/// How two tables are joined.
#[derive(Debug, Clone, Copy, PartialEq, Eq, Structural)]
pub enum JoinMode {
    /// Keep exactly the key-matched row pairs.
    Inner,
    /// Keep every left row; pad unmatched ones with nulls on the right.
    Left,
    /// Keep every row pair, ignoring the keys.
    Cross,
}

/// The suffix given to a kept right column whose name clashes with a left
/// column name.
pub open spec fn right_suffix() -> Seq<char> {
    seq!['_', 'r', 'i', 'g', 'h', 't']
}

/// The join mode to use: the given one, or an inner join.
pub open spec fn mode_of(mode: Option<JoinMode>) -> JoinMode {
    match mode {
        Some(m) => m,
        None => JoinMode::Inner,
    }
}

/// Whether left row `i` and right row `j` agree on every key column.
pub open spec fn rows_match(
    a: Seq<ColModel>,
    b: Seq<ColModel>,
    keys: Seq<Seq<char>>,
    i: int,
    j: int,
) -> bool {
    forall|k: int| 0 <= k < keys.len()
        ==> col_of(a, #[trigger] keys[k]).vals[i] == col_of(b, keys[k]).vals[j]
}

/// The right rows among `0..jn` that match left row `i`, in row order.
pub open spec fn matches_upto(
    a: Seq<ColModel>,
    b: Seq<ColModel>,
    keys: Seq<Seq<char>>,
    i: int,
    jn: int,
) -> Seq<int>
    decreases jn,
{
    if jn <= 0 {
        Seq::empty()
    } else if rows_match(a, b, keys, i, jn - 1) {
        matches_upto(a, b, keys, i, jn - 1).push(jn - 1)
    } else {
        matches_upto(a, b, keys, i, jn - 1)
    }
}

/// Row `i` paired with each right row index of `js`, in order.
pub open spec fn pair_with(i: int, js: Seq<int>) -> Seq<(int, int)> {
    js.map_values(|j: int| (i, j))
}

/// Row `i` paired with every right row index in `0..n`.
pub open spec fn cross_pairs(i: int, n: int) -> Seq<(int, int)> {
    Seq::new(n as nat, |j: int| (i, j))
}

/// The row pairs contributed by left row `i`: `(i, j)` for each matching
/// right row `j`, in right row order. A cross join pairs `i` with every
/// right row; a left join without a match contributes one pair whose right
/// index is `nrows(b)`, standing for the null-padded row.
pub open spec fn pairs_for_row(
    a: Seq<ColModel>,
    b: Seq<ColModel>,
    keys: Seq<Seq<char>>,
    mode: JoinMode,
    i: int,
) -> Seq<(int, int)> {
    match mode {
        JoinMode::Inner => pair_with(i, matches_upto(a, b, keys, i, nrows(b) as int)),
        JoinMode::Left => {
            let ms = matches_upto(a, b, keys, i, nrows(b) as int);
            if ms.len() == 0 {
                seq![(i, nrows(b) as int)]
            } else {
                pair_with(i, ms)
            }
        },
        JoinMode::Cross => cross_pairs(i, nrows(b) as int),
    }
}

/// Pushing one more pair onto a built pair list extends its model by that
/// pair.
proof fn lemma_pairs_push(
    prev: Seq<(usize, usize)>,
    p: (usize, usize),
    base: Seq<(int, int)>,
    x: Seq<(int, int)>,
)
    requires
        pairs_model(prev) == base + x,
    ensures
        pairs_model(prev.push(p)) == base + x.push((p.0 as int, p.1 as int)),
{
    let l = pairs_model(prev.push(p));
    let r = base + x.push((p.0 as int, p.1 as int));
    assert(pairs_model(prev).len() == prev.len());
    assert forall|t: int| 0 <= t < l.len() implies l[t] == r[t] by {
        if t < prev.len() {
            assert(prev.push(p)[t] == prev[t]);
            assert(l[t] == pairs_model(prev)[t]);
            assert(pairs_model(prev)[t] == (base + x)[t]);
            if t < base.len() {
                assert((base + x)[t] == base[t]);
                assert(r[t] == base[t]);
            } else {
                assert((base + x)[t] == x[t - base.len()]);
                assert(x.push((p.0 as int, p.1 as int))[t - base.len()] == x[t - base.len()]);
            }
        } else {
            assert(prev.push(p)[t] == p);
            assert(x.push((p.0 as int, p.1 as int))[t - base.len()] == (p.0 as int, p.1 as int));
        }
    }
    assert(l =~~= r);
}

/// Pairing distributes over pushing one more right row index.
proof fn lemma_pair_with_push(i: int, js: Seq<int>, j: int)
    ensures
        pair_with(i, js.push(j)) == pair_with(i, js).push((i, j)),
{
    assert forall|t: int| 0 <= t < pair_with(i, js.push(j)).len()
        implies pair_with(i, js.push(j))[t] == pair_with(i, js).push((i, j))[t] by {
        if t < js.len() {
            assert(js.push(j)[t] == js[t]);
        } else {
            assert(js.push(j)[t] == j);
        }
    }
    assert(pair_with(i, js.push(j)) =~~= pair_with(i, js).push((i, j)));
}

/// One more cross pair extends the cross row.
proof fn lemma_cross_push(i: int, j: int)
    requires
        j >= 0,
    ensures
        cross_pairs(i, j).push((i, j)) == cross_pairs(i, j + 1),
{
    assert(cross_pairs(i, j).push((i, j)) =~~= cross_pairs(i, j + 1));
}

/// The row pairs of the join, for the left rows `0..i`, in left row order.
pub open spec fn join_pairs_upto(
    a: Seq<ColModel>,
    b: Seq<ColModel>,
    keys: Seq<Seq<char>>,
    mode: JoinMode,
    i: int,
) -> Seq<(int, int)>
    decreases i,
{
    if i <= 0 {
        Seq::empty()
    } else {
        join_pairs_upto(a, b, keys, mode, i - 1) + pairs_for_row(a, b, keys, mode, i - 1)
    }
}

/// The row pairs of the join of `a` and `b`.
pub open spec fn join_pairs(
    a: Seq<ColModel>,
    b: Seq<ColModel>,
    keys: Seq<Seq<char>>,
    mode: JoinMode,
) -> Seq<(int, int)> {
    join_pairs_upto(a, b, keys, mode, nrows(a) as int)
}

/// Every pair holds a left row index and a right row index, where the
/// right index `nrows(b)` stands for the null-padded row of a left join.
pub proof fn lemma_pairs_bounds(
    a: Seq<ColModel>,
    b: Seq<ColModel>,
    keys: Seq<Seq<char>>,
    mode: JoinMode,
    i: int,
)
    requires
        0 <= i <= nrows(a),
    ensures
        forall|t: int| 0 <= t < join_pairs_upto(a, b, keys, mode, i).len() ==> {
            let p = #[trigger] join_pairs_upto(a, b, keys, mode, i)[t];
            &&& 0 <= p.0 < i
            &&& 0 <= p.1 <= nrows(b)
        },
    decreases i,
{
    if i > 0 {
        lemma_pairs_bounds(a, b, keys, mode, i - 1);
        lemma_matches_bounds(a, b, keys, i - 1, nrows(b) as int);
        let pr = pairs_for_row(a, b, keys, mode, i - 1);
        let prev = join_pairs_upto(a, b, keys, mode, i - 1);
        let cur = join_pairs_upto(a, b, keys, mode, i);
        assert forall|t: int| 0 <= t < pr.len()
            implies 0 <= (#[trigger] pr[t]).0 < i && 0 <= pr[t].1 <= nrows(b) by {
            let ms = matches_upto(a, b, keys, i - 1, nrows(b) as int);
            match mode {
                JoinMode::Inner => {
                    assert(pr[t] == (i - 1, ms[t]));
                },
                JoinMode::Left => {
                    if ms.len() != 0 {
                        assert(pr[t] == (i - 1, ms[t]));
                    } else {
                        assert(pr[t] == (i - 1, nrows(b) as int));
                    }
                },
                JoinMode::Cross => {
                    assert(pr[t] == (i - 1, t));
                },
            }
        }
        assert forall|t: int| 0 <= t < cur.len() implies {
            let p = #[trigger] cur[t];
            &&& 0 <= p.0 < i
            &&& 0 <= p.1 <= nrows(b)
        } by {
            if t < prev.len() {
                assert(cur[t] == prev[t]);
            } else {
                assert(cur[t] == pr[t - prev.len()]);
            }
        }
    }
}

/// Every matched right row index lies in `0..jn`.
pub proof fn lemma_matches_bounds(
    a: Seq<ColModel>,
    b: Seq<ColModel>,
    keys: Seq<Seq<char>>,
    i: int,
    jn: int,
)
    ensures
        forall|t: int| 0 <= t < matches_upto(a, b, keys, i, jn).len()
            ==> 0 <= #[trigger] matches_upto(a, b, keys, i, jn)[t] < jn,
    decreases jn,
{
    if jn > 0 {
        lemma_matches_bounds(a, b, keys, i, jn - 1);
        let m1 = matches_upto(a, b, keys, i, jn - 1);
        let m = matches_upto(a, b, keys, i, jn);
        assert forall|t: int| 0 <= t < m.len() implies 0 <= #[trigger] m[t] < jn by {
            if rows_match(a, b, keys, i, jn - 1) {
                assert(m == m1.push(jn - 1));
                if t < m1.len() {
                    assert(m[t] == m1[t]);
                } else {
                    assert(m[t] == jn - 1);
                }
            } else {
                assert(m == m1);
            }
        }
    }
}

/// The view of the built pair list.
pub open spec fn pairs_model(ps: Seq<(usize, usize)>) -> Seq<(int, int)> {
    ps.map_values(|p: (usize, usize)| (p.0 as int, p.1 as int))
}

/// Checks whether left row `i` of `a` and right row `j` of `b` agree on
/// every key column; the keys must be columns of both tables.
fn rows_match_exec(a: &Table, b: &Table, keys: &Vec<String>, i: usize, j: usize) -> (r: bool)
    requires
        table_wf(a@),
        table_wf(b@),
        forall|k: int| 0 <= k < keys@.len() ==> has_col(a@, #[trigger] strs_model(keys@)[k])
            && has_col(b@, strs_model(keys@)[k]),
        i < nrows(a@),
        j < nrows(b@),
    ensures
        r == rows_match(a@, b@, strs_model(keys@), i as int, j as int),
{
    let ghost ks = strs_model(keys@);
    let mut k: usize = 0;
    while k < keys.len()
        invariant
            k <= keys.len(),
            ks == strs_model(keys@),
            table_wf(a@),
            table_wf(b@),
            forall|p: int| 0 <= p < keys@.len() ==> has_col(a@, #[trigger] ks[p])
                && has_col(b@, ks[p]),
            i < nrows(a@),
            j < nrows(b@),
            forall|p: int| 0 <= p < k
                ==> col_of(a@, #[trigger] ks[p]).vals[i as int] == col_of(b@, ks[p]).vals[j as int],
        decreases keys.len() - k,
    {
        proof {
            assert(ks[k as int] == keys@[k as int]@);
        }
        let ai = match a.find_column(&keys[k]) {
            Some(x) => x,
            None => {
                proof {
                    assert(false);
                }
                0
            },
        };
        let bi = match b.find_column(&keys[k]) {
            Some(x) => x,
            None => {
                proof {
                    assert(false);
                }
                0
            },
        };
        proof {
            lemma_idx_of_unique(a@, ks[k as int], ai as int);
            lemma_idx_of_unique(b@, ks[k as int], bi as int);
            assert(a@[ai as int] == a.cols@[ai as int]@);
            assert(b@[bi as int] == b.cols@[bi as int]@);
            assert(a@[ai as int].vals.len() == nrows(a@));
            assert(b@[bi as int].vals.len() == nrows(b@));
            assert(a@[ai as int].vals[i as int] == a.cols@[ai as int].vals@[i as int]@);
            assert(b@[bi as int].vals[j as int] == b.cols@[bi as int].vals@[j as int]@);
        }
        if !(a.cols[ai].vals[i] == b.cols[bi].vals[j]) {
            proof {
                assert(col_of(a@, ks[k as int]).vals[i as int]
                    != col_of(b@, ks[k as int]).vals[j as int]);
            }
            return false;
        }
        k = k + 1;
    }
    true
}

/// Builds the row pairs of the join of `a` and `b`, in output row order.
fn build_pairs(a: &Table, b: &Table, keys: &Vec<String>, mode: JoinMode) -> (ps: Vec<(usize, usize)>)
    requires
        table_wf(a@),
        table_wf(b@),
        forall|k: int| 0 <= k < keys@.len() ==> has_col(a@, #[trigger] strs_model(keys@)[k])
            && has_col(b@, strs_model(keys@)[k]),
    ensures
        pairs_model(ps@) == join_pairs(a@, b@, strs_model(keys@), mode),
{
    let ghost ks = strs_model(keys@);
    let an = a.row_count();
    let bn = b.row_count();
    let mut ps: Vec<(usize, usize)> = Vec::new();
    proof {
        assert(pairs_model(ps@) =~~= join_pairs_upto(a@, b@, ks, mode, 0));
    }
    let mut i: usize = 0;
    while i < an
        invariant
            i <= an,
            ks == strs_model(keys@),
            table_wf(a@),
            table_wf(b@),
            forall|k: int| 0 <= k < keys@.len() ==> has_col(a@, #[trigger] ks[k])
                && has_col(b@, ks[k]),
            an as nat == nrows(a@),
            bn as nat == nrows(b@),
            pairs_model(ps@) == join_pairs_upto(a@, b@, ks, mode, i as int),
        decreases an - i,
    {
        let ghost base = pairs_model(ps@);
        match mode {
            JoinMode::Cross => {
                proof {
                    assert(base + cross_pairs(i as int, 0) =~~= base);
                }
                let mut j: usize = 0;
                while j < bn
                    invariant
                        j <= bn,
                        i < an,
                        bn as nat == nrows(b@),
                        pairs_model(ps@) == base + cross_pairs(i as int, j as int),
                    decreases bn - j,
                {
                    let ghost prev = ps@;
                    ps.push((i, j));
                    proof {
                        lemma_pairs_push(prev, (i, j), base, cross_pairs(i as int, j as int));
                        lemma_cross_push(i as int, j as int);
                    }
                    j = j + 1;
                }
            },
            _ => {
                let is_left = match mode {
                    JoinMode::Left => true,
                    _ => false,
                };
                proof {
                    assert(base + pair_with(i as int, matches_upto(a@, b@, ks, i as int, 0))
                        =~~= base);
                }
                let mut found = false;
                let mut j: usize = 0;
                while j < bn
                    invariant
                        j <= bn,
                        i < an,
                        ks == strs_model(keys@),
                        table_wf(a@),
                        table_wf(b@),
                        forall|k: int| 0 <= k < keys@.len() ==> has_col(a@, #[trigger] ks[k])
                            && has_col(b@, ks[k]),
                        an as nat == nrows(a@),
                        bn as nat == nrows(b@),
                        found == (matches_upto(a@, b@, ks, i as int, j as int).len() != 0),
                        pairs_model(ps@) == base
                            + pair_with(i as int, matches_upto(a@, b@, ks, i as int, j as int)),
                    decreases bn - j,
                {
                    if rows_match_exec(a, b, keys, i, j) {
                        let ghost prev = ps@;
                        ps.push((i, j));
                        found = true;
                        proof {
                            let ms = matches_upto(a@, b@, ks, i as int, j as int);
                            assert(matches_upto(a@, b@, ks, i as int, j + 1 as int)
                                == ms.push(j as int));
                            lemma_pairs_push(prev, (i, j), base, pair_with(i as int, ms));
                            lemma_pair_with_push(i as int, ms, j as int);
                        }
                    } else {
                        proof {
                            assert(matches_upto(a@, b@, ks, i as int, j + 1 as int)
                                == matches_upto(a@, b@, ks, i as int, j as int));
                        }
                    }
                    j = j + 1;
                }
                if is_left && !found {
                    let ghost prev = ps@;
                    ps.push((i, bn));
                    proof {
                        let ms = matches_upto(a@, b@, ks, i as int, bn as int);
                        lemma_pairs_push(prev, (i, bn), base, pair_with(i as int, ms));
                        assert(pair_with(i as int, ms).push((i as int, bn as int))
                            =~~= seq![(i as int, bn as int)]);
                        assert(pairs_model(ps@)
                            == base + pairs_for_row(a@, b@, ks, mode, i as int));
                    }
                }
                proof {
                    if !(is_left && !found) {
                        assert(pairs_model(ps@)
                            == base + pairs_for_row(a@, b@, ks, mode, i as int));
                    }
                }
            },
        }
        proof {
            assert(pairs_model(ps@)
                == join_pairs_upto(a@, b@, ks, mode, i as int)
                    + pairs_for_row(a@, b@, ks, mode, i as int));
            assert(pairs_model(ps@)
                == join_pairs_upto(a@, b@, ks, mode, i + 1 as int));
        }
        i = i + 1;
    }
    ps
}

/// The output name of a kept right column: its own name, or with the
/// suffix `_right` when a left column already bears it.
pub open spec fn out_name(a: Seq<ColModel>, n: Seq<char>) -> Seq<char> {
    if has_col(a, n) {
        n + right_suffix()
    } else {
        n
    }
}

/// The right columns kept by the join: all of them for a cross join, and
/// the non-key ones otherwise, in their original order.
pub open spec fn kept_right(
    b: Seq<ColModel>,
    keys: Seq<Seq<char>>,
    mode: JoinMode,
) -> Seq<ColModel>
    decreases b.len(),
{
    if b.len() == 0 {
        Seq::empty()
    } else {
        let rest = kept_right(b.drop_last(), keys, mode);
        if mode is Cross || !keys.contains(b.last().name) {
            rest.push(b.last())
        } else {
            rest
        }
    }
}

/// A left column's output values: its value at each pair's left row.
pub open spec fn left_vals(c: ColModel, pairs: Seq<(int, int)>) -> Seq<Val> {
    pairs.map_values(|p: (int, int)| c.vals[p.0])
}

/// A kept right column's output values: its value at each pair's right
/// row, or null for the null-padded row index `bn`.
pub open spec fn right_vals(c: ColModel, pairs: Seq<(int, int)>, bn: int) -> Seq<Val> {
    pairs.map_values(|p: (int, int)| if p.1 == bn { Val::Null } else { c.vals[p.1] })
}

/// The left part of the join output: every left column, values taken pair
/// by pair.
pub open spec fn left_out(a: Seq<ColModel>, pairs: Seq<(int, int)>) -> Seq<ColModel> {
    a.map_values(|c: ColModel| ColModel { name: c.name, vals: left_vals(c, pairs) })
}

/// The right part of the join output: the kept right columns, renamed
/// where they clash with a left column, values taken pair by pair.
pub open spec fn right_out(
    a: Seq<ColModel>,
    kept: Seq<ColModel>,
    pairs: Seq<(int, int)>,
    bn: int,
) -> Seq<ColModel> {
    kept.map_values(
        |c: ColModel| ColModel { name: out_name(a, c.name), vals: right_vals(c, pairs, bn) },
    )
}

/// The join of `a` and `b` on `keys`: the left columns, then the kept
/// right columns, one output row per row pair.
pub open spec fn join2_model(
    a: Seq<ColModel>,
    b: Seq<ColModel>,
    keys: Seq<Seq<char>>,
    mode: JoinMode,
) -> Seq<ColModel> {
    let pairs = join_pairs(a, b, keys, mode);
    left_out(a, pairs) + right_out(a, kept_right(b, keys, mode), pairs, nrows(b) as int)
}

/// Taking one more pair extends a left column's output values by that
/// pair's left value.
proof fn lemma_left_vals_push(c: ColModel, s: Seq<(int, int)>, p: (int, int))
    ensures
        left_vals(c, s.push(p)) == left_vals(c, s).push(c.vals[p.0]),
{
    assert forall|t: int| 0 <= t < left_vals(c, s.push(p)).len()
        implies left_vals(c, s.push(p))[t] == left_vals(c, s).push(c.vals[p.0])[t] by {
        if t < s.len() {
            assert(s.push(p)[t] == s[t]);
        } else {
            assert(s.push(p)[t] == p);
        }
    }
    assert(left_vals(c, s.push(p)) =~~= left_vals(c, s).push(c.vals[p.0]));
}

/// Taking one more pair extends a right column's output values by that
/// pair's right value (or null for the null-padded row).
proof fn lemma_right_vals_push(c: ColModel, s: Seq<(int, int)>, p: (int, int), bn: int)
    ensures
        right_vals(c, s.push(p), bn) == right_vals(c, s, bn).push(
            if p.1 == bn {
                Val::Null
            } else {
                c.vals[p.1]
            },
        ),
{
    let v = if p.1 == bn {
        Val::Null
    } else {
        c.vals[p.1]
    };
    assert forall|t: int| 0 <= t < right_vals(c, s.push(p), bn).len()
        implies right_vals(c, s.push(p), bn)[t] == right_vals(c, s, bn).push(v)[t] by {
        if t < s.len() {
            assert(s.push(p)[t] == s[t]);
        } else {
            assert(s.push(p)[t] == p);
        }
    }
    assert(right_vals(c, s.push(p), bn) =~~= right_vals(c, s, bn).push(v));
}

/// Every column of the join output holds one value per row pair.
proof fn lemma_join2_lens(a: Seq<ColModel>, b: Seq<ColModel>, keys: Seq<Seq<char>>, mode: JoinMode)
    ensures
        ({
            let out = join2_model(a, b, keys, mode);
            let pairs = join_pairs(a, b, keys, mode);
            &&& out.len() == a.len() + kept_right(b, keys, mode).len()
            &&& forall|k: int| 0 <= k < out.len()
                ==> (#[trigger] out[k].vals).len() == pairs.len()
        }),
{
    let out = join2_model(a, b, keys, mode);
    let pairs = join_pairs(a, b, keys, mode);
    let kept = kept_right(b, keys, mode);
    assert forall|k: int| 0 <= k < out.len()
        implies (#[trigger] out[k].vals).len() == pairs.len() by {
        if k < a.len() {
            assert(out[k] == left_out(a, pairs)[k]);
            assert(out[k].vals == left_vals(a[k], pairs));
        } else {
            assert(out[k] == right_out(a, kept, pairs, nrows(b) as int)[k - a.len()]);
            assert(out[k].vals == right_vals(kept[k - a.len()], pairs, nrows(b) as int));
        }
    }
}

/// Builds the output name of a kept right column.
fn make_out_name(a: &Table, name: &String) -> (r: String)
    ensures
        r@ == out_name(a@, name@),
{
    if a.has_column(name) {
        let mut s = name.clone();
        s.append("_right");
        proof {
            reveal_strlit("_right");
            assert("_right"@ =~= right_suffix());
        }
        s
    } else {
        name.clone()
    }
}

/// Joins two tables on the key columns, which must be columns of both.
/// The output holds the left columns and then the kept right columns,
/// renamed with `_right` where they clash; one row per row pair, in pair
/// order. Fails with `IncompatibleSchema` exactly when the output names
/// would collide even after renaming.
pub fn join_two(a: &Table, b: &Table, keys: &Vec<String>, mode: JoinMode) -> (r: Result<
    Table,
    TableError,
>)
    requires
        table_wf(a@),
        table_wf(b@),
        forall|k: int| 0 <= k < keys@.len() ==> has_col(a@, #[trigger] strs_model(keys@)[k])
            && has_col(b@, strs_model(keys@)[k]),
    ensures
        r is Ok <==> distinct_names(names_of(join2_model(a@, b@, strs_model(keys@), mode))),
        r matches Err(e) ==> e == TableError::IncompatibleSchema,
        r matches Ok(out) ==> {
            &&& out@ == join2_model(a@, b@, strs_model(keys@), mode)
            &&& table_wf(out@)
            &&& nrows(out@) == join_pairs(a@, b@, strs_model(keys@), mode).len()
                || a@.len() + kept_right(b@, strs_model(keys@), mode).len() == 0
            &&& forall|k: int| 0 <= k < keys@.len()
                ==> has_col(out@, #[trigger] strs_model(keys@)[k])
        },
{
    let ghost ks = strs_model(keys@);
    let ghost pairs = join_pairs(a@, b@, ks, mode);
    let ps = build_pairs(a, b, keys, mode);
    let bn = b.row_count();
    proof {
        lemma_pairs_bounds(a@, b@, ks, mode, nrows(a@) as int);
        assert(pairs_model(ps@).len() == ps@.len());
    }
    let mut cols: Vec<Column> = Vec::new();
    let mut ci: usize = 0;
    while ci < a.cols.len()
        invariant
            ci <= a.cols.len(),
            ks == strs_model(keys@),
            pairs == join_pairs(a@, b@, ks, mode),
            pairs_model(ps@) == pairs,
            forall|t: int| 0 <= t < pairs.len() ==> {
                let p = #[trigger] pairs[t];
                &&& 0 <= p.0 < nrows(a@)
                &&& 0 <= p.1 <= nrows(b@)
            },
            table_wf(a@),
            cols@.len() == ci,
            forall|k: int| 0 <= k < ci ==> cols@[k]@ == left_out(a@, pairs)[k],
        decreases a.cols.len() - ci,
    {
        proof {
            assert(a@[ci as int] == a.cols@[ci as int]@);
            assert(a@[ci as int].vals.len() == nrows(a@));
        }
        let src = &a.cols[ci];
        let mut vals: Vec<Value> = Vec::new();
        proof {
            assert(vals_model(vals@) =~~= left_vals(a@[ci as int], pairs.take(0)));
        }
        let mut t: usize = 0;
        while t < ps.len()
            invariant
                t <= ps.len(),
                pairs_model(ps@) == pairs,
                ps@.len() == pairs.len(),
                forall|q: int| 0 <= q < pairs.len() ==> {
                    let p = #[trigger] pairs[q];
                    &&& 0 <= p.0 < nrows(a@)
                    &&& 0 <= p.1 <= nrows(b@)
                },
                table_wf(a@),
                ci < a@.len(),
                src@ == a@[ci as int],
                src.vals@.len() == src@.vals.len(),
                src@.vals.len() == nrows(a@),
                vals_model(vals@) == left_vals(a@[ci as int], pairs.take(t as int)),
            decreases ps.len() - t,
        {
            proof {
                assert(pairs[t as int] == (ps@[t as int].0 as int, ps@[t as int].1 as int));
                assert(src@.vals[ps@[t as int].0 as int] == src.vals@[ps@[t as int].0 as int]@);
            }
            let li = ps[t].0;
            let ghost prev = vals@;
            vals.push(src.vals[li].clone());
            proof {
                assert(pairs.take(t + 1 as int) =~~= pairs.take(t as int).push(pairs[t as int]));
                lemma_left_vals_push(a@[ci as int], pairs.take(t as int), pairs[t as int]);
                assert(vals_model(vals@)
                    =~~= vals_model(prev).push(a@[ci as int].vals[pairs[t as int].0]));
            }
            t = t + 1;
        }
        proof {
            assert(pairs.take(pairs.len() as int) =~= pairs);
        }
        let col = Column { name: src.name.clone(), vals };
        proof {
            assert(col@ == left_out(a@, pairs)[ci as int]);
        }
        cols.push(col);
        ci = ci + 1;
    }
    let ghost bnn = nrows(b@) as int;
    let mut bi: usize = 0;
    while bi < b.cols.len()
        invariant
            bi <= b.cols.len(),
            ks == strs_model(keys@),
            pairs == join_pairs(a@, b@, ks, mode),
            pairs_model(ps@) == pairs,
            ps@.len() == pairs.len(),
            bn as nat == nrows(b@),
            bnn == nrows(b@) as int,
            forall|t: int| 0 <= t < pairs.len() ==> {
                let p = #[trigger] pairs[t];
                &&& 0 <= p.0 < nrows(a@)
                &&& 0 <= p.1 <= nrows(b@)
            },
            table_wf(a@),
            table_wf(b@),
            cols@.len() == a@.len() + kept_right(b@.take(bi as int), ks, mode).len(),
            forall|k: int| 0 <= k < a@.len() ==> cols@[k]@ == left_out(a@, pairs)[k],
            forall|k: int| 0 <= k < kept_right(b@.take(bi as int), ks, mode).len()
                ==> cols@[a@.len() + k]@ == (ColModel {
                    name: out_name(a@, kept_right(b@.take(bi as int), ks, mode)[k].name),
                    vals: right_vals(kept_right(b@.take(bi as int), ks, mode)[k], pairs, bnn),
                }),
        decreases b.cols.len() - bi,
    {
        proof {
            assert(b@[bi as int] == b.cols@[bi as int]@);
            assert(b@[bi as int].vals.len() == nrows(b@));
            assert(b@.take(bi + 1 as int).drop_last() =~= b@.take(bi as int));
            assert(b@.take(bi + 1 as int).last() == b@[bi as int]);
        }
        let is_cross = match mode {
            JoinMode::Cross => true,
            _ => false,
        };
        let keep = is_cross || !crate::table::contains_str(keys, &b.cols[bi].name);
        if keep {
            let src = &b.cols[bi];
            let mut vals: Vec<Value> = Vec::new();
            proof {
                assert(vals_model(vals@) =~~= right_vals(b@[bi as int], pairs.take(0), bnn));
            }
            let mut t: usize = 0;
            while t < ps.len()
                invariant
                    t <= ps.len(),
                    pairs_model(ps@) == pairs,
                    ps@.len() == pairs.len(),
                    bn as nat == nrows(b@),
                    bnn == nrows(b@) as int,
                    forall|q: int| 0 <= q < pairs.len() ==> {
                        let p = #[trigger] pairs[q];
                        &&& 0 <= p.0 < nrows(a@)
                        &&& 0 <= p.1 <= nrows(b@)
                    },
                    table_wf(b@),
                    bi < b@.len(),
                    src@ == b@[bi as int],
                    src.vals@.len() == src@.vals.len(),
                    src@.vals.len() == nrows(b@),
                    vals_model(vals@) == right_vals(b@[bi as int], pairs.take(t as int), bnn),
                decreases ps.len() - t,
            {
                proof {
                    assert(pairs[t as int] == (ps@[t as int].0 as int, ps@[t as int].1 as int));
                }
                let ri = ps[t].1;
                let ghost prev = vals@;
                if ri == bn {
                    vals.push(Value::Null);
                } else {
                    proof {
                        assert(src@.vals[ps@[t as int].1 as int]
                            == src.vals@[ps@[t as int].1 as int]@);
                    }
                    vals.push(src.vals[ri].clone());
                }
                proof {
                    assert(pairs.take(t + 1 as int)
                        =~~= pairs.take(t as int).push(pairs[t as int]));
                    lemma_right_vals_push(
                        b@[bi as int],
                        pairs.take(t as int),
                        pairs[t as int],
                        bnn,
                    );
                    assert(vals_model(vals@) =~~= vals_model(prev).push(
                        if pairs[t as int].1 == bnn {
                            Val::Null
                        } else {
                            b@[bi as int].vals[pairs[t as int].1]
                        },
                    ));
                }
                t = t + 1;
            }
            proof {
                assert(pairs.take(pairs.len() as int) =~= pairs);
            }
            let oname = make_out_name(a, &src.name);
            let col = Column { name: oname, vals };
            cols.push(col);
            proof {
                let kept1 = kept_right(b@.take(bi + 1 as int), ks, mode);
                let kept0 = kept_right(b@.take(bi as int), ks, mode);
                assert(kept1 == kept0.push(b@[bi as int]));
                assert(forall|k: int| 0 <= k < kept0.len() ==> kept1[k] == kept0[k]);
                assert(kept1[kept0.len() as int] == b@[bi as int]);
            }
        } else {
            proof {
                assert(kept_right(b@.take(bi + 1 as int), ks, mode)
                    == kept_right(b@.take(bi as int), ks, mode));
            }
        }
        bi = bi + 1;
    }
    proof {
        assert(b@.take(b@.len() as int) =~= b@);
    }
    let ghost model = join2_model(a@, b@, ks, mode);
    proof {
        let kept = kept_right(b@, ks, mode);
        assert(cols_ok(cols@.map_values(|c: Column| c@), a@, b@, ks, mode, pairs, bnn));
        assert forall|k: int| 0 <= k < model.len()
            implies cols@.map_values(|c: Column| c@)[k] == model[k] by {
            if k < a@.len() {
                assert(model[k] == left_out(a@, pairs)[k]);
            } else {
                assert(model[k] == right_out(a@, kept, pairs, bnn)[k - a@.len()]);
                assert(cols@[k]@ == (ColModel {
                    name: out_name(a@, kept[k - a@.len()].name),
                    vals: right_vals(kept[k - a@.len()], pairs, bnn),
                }));
            }
        }
        assert(cols@.map_values(|c: Column| c@) =~~= model);
        lemma_join2_lens(a@, b@, ks, mode);
    }
    match Table::new(cols) {
        Some(out) => {
            proof {
                assert(table_wf(model));
                assert forall|k: int| 0 <= k < keys@.len()
                    implies has_col(out@, #[trigger] ks[k]) by {
                    let i = choose|i: int| 0 <= i < a@.len() && a@[i].name == ks[k];
                    assert(model[i] == left_out(a@, pairs)[i]);
                    assert(model[i].name == a@[i].name);
                }
                if model.len() > 0 {
                    assert(model[0].vals.len() == pairs.len());
                }
            }
            Ok(out)
        },
        None => {
            proof {
                assert(!table_wf(model));
                lemma_join2_lens(a@, b@, ks, mode);
                if distinct_names(names_of(model)) {
                    if model.len() > 0 {
                        assert(nrows(model) == model[0].vals.len());
                        assert(forall|k: int| 0 <= k < model.len()
                            ==> (#[trigger] model[k].vals).len() == nrows(model));
                    }
                    assert(table_wf(model));
                    assert(false);
                }
            }
            Err(TableError::IncompatibleSchema)
        },
    }
}

/// Whether the built columns match the join output, column by column.
pub open spec fn cols_ok(
    built: Seq<ColModel>,
    a: Seq<ColModel>,
    b: Seq<ColModel>,
    keys: Seq<Seq<char>>,
    mode: JoinMode,
    pairs: Seq<(int, int)>,
    bn: int,
) -> bool {
    let kept = kept_right(b, keys, mode);
    &&& built.len() == a.len() + kept.len()
    &&& forall|k: int| 0 <= k < a.len() ==> built[k] == left_out(a, pairs)[k]
    &&& forall|k: int| 0 <= k < kept.len() ==> built[a.len() + k] == (ColModel {
        name: out_name(a, kept[k].name),
        vals: right_vals(kept[k], pairs, bn),
    })
}


/// Whether every key is a column of the table.
pub open spec fn keys_present(m: Seq<ColModel>, keys: Seq<Seq<char>>) -> bool {
    forall|k: int| 0 <= k < keys.len() ==> has_col(m, #[trigger] keys[k])
}

/// Whether every key is a column of every table.
pub open spec fn keys_present_all(ms: Seq<Seq<ColModel>>, keys: Seq<Seq<char>>) -> bool {
    forall|i: int| 0 <= i < ms.len() ==> keys_present(#[trigger] ms[i], keys)
}

/// The left-to-right pairwise join of a list of tables.
pub open spec fn join_reduce(
    ms: Seq<Seq<ColModel>>,
    keys: Seq<Seq<char>>,
    mode: JoinMode,
) -> Seq<ColModel>
    decreases ms.len(),
{
    if ms.len() == 0 {
        Seq::empty()
    } else if ms.len() == 1 {
        ms[0]
    } else {
        join2_model(join_reduce(ms.drop_last(), keys, mode), ms.last(), keys, mode)
    }
}

/// Whether every pairwise join of the reduction keeps its output column
/// names distinct.
pub open spec fn join_reduce_ok(
    ms: Seq<Seq<ColModel>>,
    keys: Seq<Seq<char>>,
    mode: JoinMode,
) -> bool
    decreases ms.len(),
{
    if ms.len() <= 1 {
        true
    } else {
        &&& join_reduce_ok(ms.drop_last(), keys, mode)
        &&& distinct_names(names_of(join2_model(
            join_reduce(ms.drop_last(), keys, mode),
            ms.last(),
            keys,
            mode,
        )))
    }
}

/// A reduction that succeeds succeeds on every prefix.
proof fn lemma_reduce_ok_prefix(
    ms: Seq<Seq<ColModel>>,
    keys: Seq<Seq<char>>,
    mode: JoinMode,
    r: int,
)
    requires
        join_reduce_ok(ms, keys, mode),
        0 <= r <= ms.len(),
    ensures
        join_reduce_ok(ms.take(r), keys, mode),
    decreases ms.len(),
{
    if r == ms.len() {
        assert(ms.take(r) =~= ms);
    } else if ms.len() >= 1 {
        assert(ms.drop_last().take(r) =~= ms.take(r));
        lemma_reduce_ok_prefix(ms.drop_last(), keys, mode, r);
    }
}

/// Joins the given tables pairwise, left to right, on the key columns,
/// with the given mode (an inner join when none is given). Fails with
/// `EmptyInputList` on an empty list; with `KeyColumnMissing` when a key
/// column is absent from any table; and with `IncompatibleSchema` when a
/// pairwise join's output names would collide even after renaming. No
/// input table is modified.
pub fn combine_join(
    tables: &Vec<Table>,
    keys: &Vec<String>,
    mode: Option<JoinMode>,
) -> (r: Result<Table, TableError>)
    requires
        forall|i: int| 0 <= i < tables@.len() ==> table_wf(#[trigger] tables@[i]@),
    ensures
        r is Ok <==> (tables@.len() > 0
            && keys_present_all(crate::combine::models_of(tables@), strs_model(keys@))
            && join_reduce_ok(crate::combine::models_of(tables@), strs_model(keys@), mode_of(mode))),
        tables@.len() == 0 ==> r == Result::<Table, TableError>::Err(TableError::EmptyInputList),
        (tables@.len() > 0
            && !keys_present_all(crate::combine::models_of(tables@), strs_model(keys@)))
            ==> r == Result::<Table, TableError>::Err(TableError::KeyColumnMissing),
        (tables@.len() > 0
            && keys_present_all(crate::combine::models_of(tables@), strs_model(keys@))
            && !join_reduce_ok(crate::combine::models_of(tables@), strs_model(keys@), mode_of(mode)))
            ==> r == Result::<Table, TableError>::Err(TableError::IncompatibleSchema),
        r matches Ok(out) ==> {
            &&& out@ == join_reduce(crate::combine::models_of(tables@), strs_model(keys@), mode_of(mode))
            &&& table_wf(out@)
        },
{
    let ghost ms = crate::combine::models_of(tables@);
    let ghost ks = strs_model(keys@);
    let ghost md = mode_of(mode);
    if tables.len() == 0 {
        return Err(TableError::EmptyInputList);
    }
    let mut i: usize = 0;
    while i < tables.len()
        invariant
            i <= tables@.len(),
            ms == crate::combine::models_of(tables@),
            ks == strs_model(keys@),
            forall|p: int| 0 <= p < i ==> keys_present(#[trigger] ms[p], ks),
        decreases tables.len() - i,
    {
        proof {
            assert(ms[i as int] == tables@[i as int]@);
        }
        let mut k: usize = 0;
        while k < keys.len()
            invariant
                k <= keys@.len(),
                i < tables@.len(),
                ms == crate::combine::models_of(tables@),
                ks == strs_model(keys@),
                ms[i as int] == tables@[i as int]@,
                forall|q: int| 0 <= q < k ==> has_col(ms[i as int], #[trigger] ks[q]),
            decreases keys.len() - k,
        {
            proof {
                assert(ks[k as int] == keys@[k as int]@);
            }
            if !tables[i].has_column(&keys[k]) {
                proof {
                    assert(!keys_present(ms[i as int], ks));
                }
                return Err(TableError::KeyColumnMissing);
            }
            k = k + 1;
        }
        proof {
            assert(keys_present(ms[i as int], ks));
        }
        i = i + 1;
    }
    proof {
        assert(keys_present_all(ms, ks));
    }
    let mode_v = match mode {
        Some(m) => m,
        None => JoinMode::Inner,
    };
    let mut acc = tables[0].clone();
    proof {
        assert(ms.take(1).len() == 1);
        assert(ms.take(1)[0] == ms[0]);
        assert(ms[0] == tables@[0]@);
        assert(acc@ == join_reduce(ms.take(1), ks, md));
        assert(keys_present(acc@, ks));
    }
    let mut r: usize = 1;
    while r < tables.len()
        invariant
            1 <= r <= tables@.len(),
            ms == crate::combine::models_of(tables@),
            ks == strs_model(keys@),
            md == mode_of(mode),
            mode_v == md,
            forall|p: int| 0 <= p < tables@.len() ==> table_wf(#[trigger] tables@[p]@),
            keys_present_all(ms, ks),
            acc@ == join_reduce(ms.take(r as int), ks, md),
            join_reduce_ok(ms.take(r as int), ks, md),
            table_wf(acc@),
            keys_present(acc@, ks),
        decreases tables.len() - r,
    {
        proof {
            assert(ms[r as int] == tables@[r as int]@);
            assert(keys_present(ms[r as int], ks));
            assert(ms.take(r + 1 as int).drop_last() =~= ms.take(r as int));
            assert(ms.take(r + 1 as int).last() == ms[r as int]);
        }
        match join_two(&acc, &tables[r], keys, mode_v) {
            Ok(next) => {
                proof {
                    assert(next@ == join_reduce(ms.take(r + 1 as int), ks, md));
                    assert(join_reduce_ok(ms.take(r + 1 as int), ks, md));
                }
                acc = next;
            },
            Err(_) => {
                proof {
                    assert(!join_reduce_ok(ms.take(r + 1 as int), ks, md));
                    if join_reduce_ok(ms, ks, md) {
                        lemma_reduce_ok_prefix(ms, ks, md, r + 1 as int);
                        assert(false);
                    }
                }
                return Err(TableError::IncompatibleSchema);
            },
        }
        r = r + 1;
    }
    proof {
        assert(ms.take(ms.len() as int) =~= ms);
        lemma_reduce_ok_prefix(ms, ks, md, ms.len() as int);
    }
    Ok(acc)
}

} // verus!
