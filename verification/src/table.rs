//! Columnar tables: an ordered sequence of named, equal-length columns.
//!
//! The mathematical model of a table is a sequence of [`ColModel`]s; a table
//! is well formed ([`table_wf`]) when every column holds one value per row
//! and the column names are pairwise distinct. Constructors establish well
//! formedness and every transform preserves it.

use vstd::prelude::*;

use crate::value::{clone_values, Val, Value};

verus! {

/// The mathematical model of one column: its name and its cell values.
#[verifier::ext_equal]
pub struct ColModel {
    pub name: Seq<char>,
    pub vals: Seq<Val>,
}

/// A named, ordered sequence of cell values.
#[derive(Debug)]
pub struct Column {
    pub name: String,
    pub vals: Vec<Value>,
}

/// The model of a sequence of cell values.
pub open spec fn vals_model(vals: Seq<Value>) -> Seq<Val> {
    vals.map_values(|v: Value| v@)
}

/// The model of a sequence of strings.
pub open spec fn strs_model(strs: Seq<String>) -> Seq<Seq<char>> {
    strs.map_values(|s: String| s@)
}

impl View for Column {
    type V = ColModel;

    open spec fn view(&self) -> ColModel {
        ColModel { name: self.name@, vals: vals_model(self.vals@) }
    }
}

impl Clone for Column {
    fn clone(&self) -> (r: Self)
        ensures
            r@ == self@,
    {
        let r = Column { name: self.name.clone(), vals: clone_values(&self.vals) };
        proof {
            assert(r@.vals =~~= self@.vals);
        }
        r
    }
}

/// A table: an ordered sequence of named columns, all of equal length.
#[derive(Debug)]
pub struct Table {
    pub cols: Vec<Column>,
}

/// The model of a sequence of columns.
pub open spec fn cols_model(cols: Seq<Column>) -> Seq<ColModel> {
    cols.map_values(|c: Column| c@)
}

impl View for Table {
    type V = Seq<ColModel>;

    open spec fn view(&self) -> Seq<ColModel> {
        cols_model(self.cols@)
    }
}

impl Clone for Table {
    fn clone(&self) -> (r: Self)
        ensures
            r@ == self@,
    {
        let mut cols: Vec<Column> = Vec::new();
        let mut i: usize = 0;
        while i < self.cols.len()
            invariant
                i <= self.cols.len(),
                cols@.len() == i,
                forall|k: int| 0 <= k < i ==> cols@[k]@ == self.cols@[k]@,
            decreases self.cols.len() - i,
        {
            cols.push(self.cols[i].clone());
            i = i + 1;
        }
        let r = Table { cols };
        proof {
            assert(r@ =~= self@);
        }
        r
    }
}

/// The number of rows of a table model: the length of its first column,
/// or zero for a table without columns.
pub open spec fn nrows(m: Seq<ColModel>) -> nat {
    if m.len() == 0 {
        0
    } else {
        m[0].vals.len()
    }
}

/// The column names of a table model, in column order.
pub open spec fn names_of(m: Seq<ColModel>) -> Seq<Seq<char>> {
    m.map_values(|c: ColModel| c.name)
}

/// Whether a sequence of names is pairwise distinct.
pub open spec fn distinct_names(names: Seq<Seq<char>>) -> bool {
    forall|i: int, j: int| 0 <= i < j < names.len() ==> names[i] != names[j]
}

/// Well-formedness of a table model: every column holds one value per row
/// and the column names are pairwise distinct.
pub open spec fn table_wf(m: Seq<ColModel>) -> bool {
    &&& forall|i: int| 0 <= i < m.len() ==> (#[trigger] m[i].vals).len() == nrows(m)
    &&& distinct_names(names_of(m))
}

/// Whether the table model has a column of the given name.
pub open spec fn has_col(m: Seq<ColModel>, name: Seq<char>) -> bool {
    exists|i: int| 0 <= i < m.len() && m[i].name == name
}

/// The index of the column of the given name (unique in a well-formed table).
pub open spec fn idx_of(m: Seq<ColModel>, name: Seq<char>) -> int {
    choose|i: int| 0 <= i < m.len() && m[i].name == name
}

/// The column of the given name.
pub open spec fn col_of(m: Seq<ColModel>, name: Seq<char>) -> ColModel {
    m[idx_of(m, name)]
}

/// In a table with distinct column names, any position holding the name is
/// the position `idx_of` denotes.
pub proof fn lemma_idx_of_unique(m: Seq<ColModel>, name: Seq<char>, i: int)
    requires
        distinct_names(names_of(m)),
        0 <= i < m.len(),
        m[i].name == name,
    ensures
        has_col(m, name),
        idx_of(m, name) == i,
        col_of(m, name) == m[i],
{
    assert(has_col(m, name));
    let j = idx_of(m, name);
    assert(names_of(m)[i] == m[i].name);
    assert(names_of(m)[j] == m[j].name);
    if i != j {
        assert(false);
    }
}

/// Whether `s` occurs in `list`, by string contents.
pub fn contains_str(list: &Vec<String>, s: &String) -> (r: bool)
    ensures
        r == strs_model(list@).contains(s@),
{
    let mut i: usize = 0;
    while i < list.len()
        invariant
            i <= list.len(),
            forall|k: int| 0 <= k < i ==> strs_model(list@)[k] != s@,
        decreases list.len() - i,
    {
        proof {
            assert(strs_model(list@)[i as int] == list@[i as int]@);
        }
        if list[i] == *s {
            return true;
        }
        i = i + 1;
    }
    proof {
        assert(forall|k: int| 0 <= k < strs_model(list@).len() ==> strs_model(list@)[k] != s@);
    }
    false
}

impl Table {
    /// The number of rows: the length of the first column, or zero when the
    /// table has no columns.
    pub fn row_count(&self) -> (n: usize)
        ensures
            n as nat == nrows(self@),
    {
        if self.cols.len() == 0 {
            0
        } else {
            proof {
                assert(self@[0] == self.cols@[0]@);
            }
            self.cols[0].vals.len()
        }
    }

    /// The number of columns.
    pub fn column_count(&self) -> (n: usize)
        ensures
            n as nat == self@.len(),
    {
        self.cols.len()
    }

    /// The position of the column of the given name, if any.
    pub fn find_column(&self, name: &String) -> (r: Option<usize>)
        ensures
            match r {
                Some(i) => i < self@.len() && self@[i as int].name == name@,
                None => !has_col(self@, name@),
            },
    {
        let mut i: usize = 0;
        while i < self.cols.len()
            invariant
                i <= self.cols.len(),
                forall|k: int| 0 <= k < i ==> self@[k].name != name@,
            decreases self.cols.len() - i,
        {
            proof {
                assert(self@[i as int] == self.cols@[i as int]@);
            }
            if self.cols[i].name == *name {
                return Some(i);
            }
            i = i + 1;
        }
        None
    }

    /// Whether the table has a column of the given name.
    pub fn has_column(&self, name: &String) -> (r: bool)
        ensures
            r == has_col(self@, name@),
    {
        match self.find_column(name) {
            Some(_) => true,
            None => false,
        }
    }

    /// Builds a table from columns, accepting exactly the well-formed ones:
    /// all columns of equal length, names pairwise distinct.
    pub fn new(cols: Vec<Column>) -> (r: Option<Table>)
        ensures
            r is Some <==> table_wf(cols_model(cols@)),
            r matches Some(t) ==> t@ == cols_model(cols@),
    {
        let ghost m = cols_model(cols@);
        let n = if cols.len() == 0 { 0 } else { cols[0].vals.len() };
        proof {
            if cols@.len() > 0 {
                assert(m[0] == cols@[0]@);
            }
        }
        let mut i: usize = 0;
        while i < cols.len()
            invariant
                i <= cols.len(),
                m == cols_model(cols@),
                n as nat == nrows(m),
                forall|k: int| 0 <= k < i ==> (#[trigger] m[k].vals).len() == nrows(m),
            decreases cols.len() - i,
        {
            proof {
                assert(m[i as int] == cols@[i as int]@);
                assert(m[i as int].vals.len() == cols@[i as int].vals@.len());
            }
            if cols[i].vals.len() != n {
                return None;
            }
            i = i + 1;
        }
        i = 0;
        while i < cols.len()
            invariant
                i <= cols.len(),
                m == cols_model(cols@),
                forall|k: int| 0 <= k < m.len() ==> (#[trigger] m[k].vals).len() == nrows(m),
                forall|p: int, q: int| 0 <= p < i && p < q < m.len() ==> names_of(m)[p] != names_of(m)[q],
            decreases cols.len() - i,
        {
            let mut j: usize = i + 1;
            while j < cols.len()
                invariant
                    i < j <= cols.len(),
                    m == cols_model(cols@),
                    forall|q: int| i < q < j ==> names_of(m)[i as int] != names_of(m)[q],
                decreases cols.len() - j,
            {
                proof {
                    assert(m[i as int] == cols@[i as int]@);
                    assert(m[j as int] == cols@[j as int]@);
                    assert(names_of(m)[i as int] == m[i as int].name);
                    assert(names_of(m)[j as int] == m[j as int].name);
                }
                if cols[i].name == cols[j].name {
                    return None;
                }
                j = j + 1;
            }
            i = i + 1;
        }
        proof {
            assert(forall|p: int, q: int|
                0 <= p < q < names_of(m).len() ==> names_of(m)[p] != names_of(m)[q]);
        }
        Some(Table { cols })
    }

    /// The model of the contiguous row range `[start, start + len)`.
    pub open spec fn slice_model(m: Seq<ColModel>, start: int, len: int) -> Seq<ColModel> {
        m.map_values(|c: ColModel| ColModel { name: c.name, vals: c.vals.subrange(start, start + len) })
    }

    /// Copies the contiguous row range `[start, start + len)` into a new,
    /// independent table with the same columns.
    pub fn slice_rows(&self, start: usize, len: usize) -> (r: Table)
        requires
            table_wf(self@),
            start + len <= nrows(self@),
        ensures
            r@ == Self::slice_model(self@, start as int, len as int),
            table_wf(r@),
            nrows(r@) == len || self@.len() == 0,
    {
        let ghost m = Self::slice_model(self@, start as int, len as int);
        let mut cols: Vec<Column> = Vec::new();
        let mut i: usize = 0;
        while i < self.cols.len()
            invariant
                i <= self.cols.len(),
                table_wf(self@),
                start + len <= nrows(self@),
                m == Self::slice_model(self@, start as int, len as int),
                cols@.len() == i,
                forall|k: int| 0 <= k < i ==> cols@[k]@ == m[k],
            decreases self.cols.len() - i,
        {
            proof {
                assert(self@[i as int] == self.cols@[i as int]@);
            }
            let src = &self.cols[i];
            proof {
                assert(src@.vals.len() == src.vals@.len());
                assert(self@[i as int].vals.len() == nrows(self@));
            }
            let mut vals: Vec<Value> = Vec::new();
            let mut k: usize = 0;
            while k < len
                invariant
                    k <= len,
                    src.vals@.len() == src@.vals.len(),
                    start + len <= src.vals.len(),
                    vals@.len() == k,
                    forall|p: int| 0 <= p < k ==> vals@[p]@ == src@.vals[start + p],
                decreases len - k,
            {
                proof {
                    assert(src@.vals[start + k as int] == src.vals@[start + k as int]@);
                }
                vals.push(src.vals[start + k].clone());
                k = k + 1;
            }
            let col = Column { name: src.name.clone(), vals };
            proof {
                assert(col@.vals =~= src@.vals.subrange(start as int, start as int + len as int));
            }
            cols.push(col);
            i = i + 1;
        }
        let r = Table { cols };
        proof {
            assert(r@ =~= m);
            assert(names_of(r@) =~= names_of(self@));
            assert(forall|k: int| 0 <= k < r@.len() ==> (#[trigger] r@[k].vals).len() == len);
        }
        r
    }
}

} // verus!
