use crate::btree::{Cell, CellView};
use crate::error::DbError;
use crate::record::{integer_of, scalars, Record, RecordSerial, SerialView};
use vstd::prelude::*;

verus! {

/// One row of the schema table: an object's kind, its name, the table it
/// belongs to, its root page and the statement that created it.
#[derive(Debug, Clone)]
pub struct Schema {
    pub kind: String,
    pub name: String,
    pub table_name: String,
    pub root_page: i64,
    pub sql: String,
}

/// The five fields of a schema row, with text as scalar values.
pub struct SchemaView {
    pub kind: Seq<u32>,
    pub name: Seq<u32>,
    pub table_name: Seq<u32>,
    pub root_page: int,
    pub sql: Seq<u32>,
}

impl View for Schema {
    type V = SchemaView;

    open spec fn view(&self) -> SchemaView {
        SchemaView {
            kind: scalars(self.kind@),
            name: scalars(self.name@),
            table_name: scalars(self.table_name@),
            root_page: self.root_page as int,
            sql: scalars(self.sql@),
        }
    }
}

/// The schema entry that a row's values describe: five columns, text in
/// all but the fourth, which holds an integer of any width.
pub open spec fn schema_entry(v: Seq<SerialView>) -> Option<SchemaView> {
    if v.len() == 5 && v[0] is Text && v[1] is Text && v[2] is Text && integer_of(v[3]) is Some
        && v[4] is Text {
        Some(
            SchemaView {
                kind: v[0]->Text_0,
                name: v[1]->Text_0,
                table_name: v[2]->Text_0,
                root_page: integer_of(v[3])->Some_0,
                sql: v[4]->Text_0,
            },
        )
    } else {
        None
    }
}

/// The schema entry of a cell: only leaf table cells hold one.
pub open spec fn schema_of_cell(c: CellView) -> Option<SchemaView> {
    match c {
        CellView::LeafTable { payload, .. } => schema_entry(payload),
        _ => None,
    }
}

/// The text of a column value, if it is text.
fn text_of(v: &RecordSerial) -> (r: Option<String>)
    ensures
        r is Some <==> v@ is Text,
        r is Some ==> scalars(r->Some_0@) == v@->Text_0,
{
    match v {
        RecordSerial::String(s) => Some(s.clone()),
        _ => None,
    }
}

/// The number an integer column value holds, widened to 64 bits.
pub fn integer_value(v: &RecordSerial) -> (r: Option<i64>)
    ensures
        r is Some <==> integer_of(v@) is Some,
        r is Some ==> r->Some_0 as int == integer_of(v@)->Some_0,
{
    match v {
        RecordSerial::I8(i) => Some(*i as i64),
        RecordSerial::I16(i) => Some(*i as i64),
        RecordSerial::I24(i) => Some(*i as i64),
        RecordSerial::I32(i) => Some(*i as i64),
        RecordSerial::I48(i) => Some(*i),
        RecordSerial::I64(i) => Some(*i),
        _ => None,
    }
}

impl Schema {
    /// Reads a schema entry from a cell of the schema table.
    pub fn from_cell(cell: &Cell) -> (r: Result<Self, DbError>)
        ensures
            match schema_of_cell(cell@) {
                Some(e) => r is Ok && r->Ok_0@ == e,
                None => r == Err::<Schema, DbError>(DbError::Schema),
            },
    {
        match cell {
            Cell::LeafTable { payload, .. } => Schema::from_record(payload),
            _ => Err(DbError::Schema),
        }
    }

    /// Reads a schema entry from the values of a schema-table row.
    pub fn from_record(record: &Record) -> (r: Result<Self, DbError>)
        ensures
            match schema_entry(record@) {
                Some(e) => r is Ok && r->Ok_0@ == e,
                None => r == Err::<Schema, DbError>(DbError::Schema),
            },
    {
        let c = &record.content;
        if c.len() != 5 {
            return Err(DbError::Schema);
        }
        assert(record@[0] == c@[0]@ && record@[1] == c@[1]@ && record@[2] == c@[2]@);
        assert(record@[3] == c@[3]@ && record@[4] == c@[4]@);
        let kind = match text_of(&c[0]) {
            Some(s) => s,
            None => {
                return Err(DbError::Schema);
            },
        };
        let name = match text_of(&c[1]) {
            Some(s) => s,
            None => {
                return Err(DbError::Schema);
            },
        };
        let table_name = match text_of(&c[2]) {
            Some(s) => s,
            None => {
                return Err(DbError::Schema);
            },
        };
        let root_page = match integer_value(&c[3]) {
            Some(n) => n,
            None => {
                return Err(DbError::Schema);
            },
        };
        let sql = match text_of(&c[4]) {
            Some(s) => s,
            None => {
                return Err(DbError::Schema);
            },
        };
        Ok(Schema { kind, name, table_name, root_page, sql })
    }
}

} // verus!
