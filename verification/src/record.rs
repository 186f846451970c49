//! Row-keyed records and their canonical JSON object text.
//!
//! A record is one row's selected fields, as an ordered mapping from column
//! name to value. Serialization keeps the field order, so identical records
//! always serialize to identical strings.

use vstd::prelude::*;

use crate::json::{esc_str, push_char, push_escaped, push_value, val_text};
use crate::value::{Val, Value};

verus! {

/// The mathematical model of one record field.
#[verifier::ext_equal]
pub struct FieldModel {
    pub name: Seq<char>,
    pub value: Val,
}

/// One named field of a record.
#[derive(Debug, Clone)]
pub struct RecordField {
    pub name: String,
    pub value: Value,
}

impl View for RecordField {
    type V = FieldModel;

    open spec fn view(&self) -> FieldModel {
        FieldModel { name: self.name@, value: self.value@ }
    }
}

/// One row's selected fields, in the order the columns were selected.
#[derive(Debug, Clone)]
pub struct Record {
    pub fields: Vec<RecordField>,
}

impl View for Record {
    type V = Seq<FieldModel>;

    open spec fn view(&self) -> Seq<FieldModel> {
        self.fields@.map_values(|f: RecordField| f@)
    }
}

/// The JSON text of one `"name":value` member of a record object.
pub open spec fn field_text(f: FieldModel) -> Seq<char> {
    seq!['"'] + esc_str(f.name) + seq!['"', ':'] + val_text(f.value)
}

/// The comma-separated members of a record object, in field order.
pub open spec fn fields_text(fs: Seq<FieldModel>) -> Seq<char>
    decreases fs.len(),
{
    if fs.len() == 0 {
        Seq::empty()
    } else if fs.len() == 1 {
        field_text(fs[0])
    } else {
        fields_text(fs.drop_last()) + seq![','] + field_text(fs.last())
    }
}

/// The canonical JSON object text of a record.
pub open spec fn record_text(fs: Seq<FieldModel>) -> Seq<char> {
    seq!['{'] + fields_text(fs) + seq!['}']
}

/// Serializes one record to its canonical JSON object text.
pub fn serialize_record(rec: &Record) -> (s: String)
    ensures
        s@ == record_text(rec@),
{
    let mut out = String::new();
    push_char(&mut out, '{');
    let mut k: usize = 0;
    while k < rec.fields.len()
        invariant
            k <= rec.fields.len(),
            out@ == seq!['{'] + fields_text(rec@.take(k as int)),
        decreases rec.fields.len() - k,
    {
        if k > 0 {
            push_char(&mut out, ',');
        }
        let f = &rec.fields[k];
        proof {
            assert(rec@[k as int] == rec.fields@[k as int]@);
        }
        push_char(&mut out, '"');
        push_escaped(&mut out, &f.name);
        push_char(&mut out, '"');
        push_char(&mut out, ':');
        push_value(&mut out, &f.value);
        proof {
            let t = rec@.take(k + 1 as int);
            assert(t.drop_last() =~= rec@.take(k as int));
            assert(t.last() == rec@[k as int]);
            assert(out@ =~= seq!['{'] + fields_text(t));
        }
        k = k + 1;
    }
    push_char(&mut out, '}');
    proof {
        assert(rec@.take(rec@.len() as int) =~= rec@);
        assert(out@ =~= record_text(rec@));
    }
    out
}

/// Serializes each record of a sequence, preserving row order.
pub fn serialize_records(recs: &Vec<Record>) -> (r: Vec<String>)
    ensures
        r@.len() == recs@.len(),
        forall|i: int| 0 <= i < recs@.len() ==> r@[i]@ == record_text(recs@[i]@),
{
    let mut out: Vec<String> = Vec::new();
    let mut k: usize = 0;
    while k < recs.len()
        invariant
            k <= recs.len(),
            out@.len() == k,
            forall|i: int| 0 <= i < k ==> out@[i]@ == record_text(recs@[i]@),
        decreases recs.len() - k,
    {
        let s = serialize_record(&recs[k]);
        out.push(s);
        k = k + 1;
    }
    out
}

} // verus!
