use crate::btree::Cell;
use crate::error::DbError;
use crate::page::Page;
use crate::record::{Record, SerialView};
use crate::schema_table::{schema_entry, schema_of_cell, Schema, SchemaView};
use vstd::prelude::*;

verus! {

/// A schema object as the catalog lists it.
#[derive(Debug, Clone)]
pub struct Table {
    pub kind: String,
    pub name: String,
    pub table_name: String,
    pub root_page: i64,
    pub sql: String,
}

impl View for Table {
    type V = SchemaView;

    open spec fn view(&self) -> SchemaView {
        SchemaView {
            kind: crate::record::scalars(self.kind@),
            name: crate::record::scalars(self.name@),
            table_name: crate::record::scalars(self.table_name@),
            root_page: self.root_page as int,
            sql: crate::record::scalars(self.sql@),
        }
    }
}

/// Whether every row describes a schema object.
pub open spec fn all_entries(rows: Seq<Seq<SerialView>>) -> bool {
    forall|i: int| 0 <= i < rows.len() ==> (#[trigger] schema_entry(rows[i])) is Some
}

impl Table {
    fn from_schema(s: Schema) -> (r: Table)
        ensures
            r@ == s@,
    {
        Table {
            kind: s.kind,
            name: s.name,
            table_name: s.table_name,
            root_page: s.root_page,
            sql: s.sql,
        }
    }

    /// The schema objects that the cells of one schema-table page list.
    pub fn from_page(page: &Page) -> (r: Result<Vec<Self>, DbError>)
        ensures
            (forall|i: int| 0 <= i < page@.cells.len() ==> (#[trigger] schema_of_cell(page@.cells[i])) is Some)
                ==> r is Ok && r->Ok_0@.len() == page@.cells.len() && forall|i: int|
                0 <= i < page@.cells.len() ==> (#[trigger] r->Ok_0@[i])@ == schema_of_cell(page@.cells[i])->Some_0,
            !(forall|i: int| 0 <= i < page@.cells.len() ==> (#[trigger] schema_of_cell(page@.cells[i])) is Some)
                ==> r == Err::<Vec<Table>, DbError>(DbError::Schema),
    {
        let mut out: Vec<Table> = Vec::new();
        let mut i: usize = 0;
        while i < page.cells.len()
            invariant
                i <= page@.cells.len(),
                out@.len() == i,
                forall|j: int| 0 <= j < i ==> (#[trigger] schema_of_cell(page@.cells[j])) is Some,
                forall|j: int| 0 <= j < i ==> (#[trigger] out@[j])@ == schema_of_cell(page@.cells[j])->Some_0,
            decreases page@.cells.len() - i,
        {
            assert(page@.cells[i as int] == page.cells@[i as int]@);
            match Table::from_schema_cell(&page.cells[i]) {
                Ok(t) => {
                    out.push(t);
                },
                Err(e) => {
                    return Err(e);
                },
            }
            i += 1;
        }
        Ok(out)
    }

    /// Reads a schema object from a cell of the schema table.
    pub fn from_schema_cell(cell: &Cell) -> (r: Result<Self, DbError>)
        ensures
            match schema_of_cell(cell@) {
                Some(e) => r is Ok && r->Ok_0@ == e,
                None => r == Err::<Table, DbError>(DbError::Schema),
            },
    {
        match Schema::from_cell(cell) {
            Ok(s) => Ok(Table::from_schema(s)),
            Err(e) => Err(e),
        }
    }

    /// Reads a schema object from the values of a schema-table row.
    pub fn from_schema_record(record: &Record) -> (r: Result<Self, DbError>)
        ensures
            match schema_entry(record@) {
                Some(e) => r is Ok && r->Ok_0@ == e,
                None => r == Err::<Table, DbError>(DbError::Schema),
            },
    {
        match Schema::from_record(record) {
            Ok(s) => Ok(Table::from_schema(s)),
            Err(e) => Err(e),
        }
    }

    /// The schema objects that the rows of the schema table describe, in
    /// row order.
    pub fn from_records(rows: &Vec<Record>) -> (r: Result<Vec<Self>, DbError>)
        ensures
            all_entries(rows@.map_values(|x: Record| x@)) ==> r is Ok && r->Ok_0@.len()
                == rows@.len() && forall|i: int|
                0 <= i < rows@.len() ==> (#[trigger] r->Ok_0@[i])@ == schema_entry(rows@[i]@)->Some_0,
            !all_entries(rows@.map_values(|x: Record| x@)) ==> r == Err::<Vec<Table>, DbError>(
                DbError::Schema,
            ),
    {
        let ghost rv = rows@.map_values(|x: Record| x@);
        let mut out: Vec<Table> = Vec::new();
        let mut i: usize = 0;
        while i < rows.len()
            invariant
                rv == rows@.map_values(|x: Record| x@),
                i <= rows@.len(),
                out@.len() == i,
                forall|j: int| 0 <= j < i ==> (#[trigger] schema_entry(rv[j])) is Some,
                forall|j: int| 0 <= j < i ==> (#[trigger] out@[j])@ == schema_entry(rows@[j]@)->Some_0,
            decreases rows@.len() - i,
        {
            assert(rv[i as int] == rows@[i as int]@);
            match Table::from_schema_record(&rows[i]) {
                Ok(t) => {
                    out.push(t);
                },
                Err(e) => {
                    return Err(e);
                },
            }
            i += 1;
        }
        Ok(out)
    }
}

} // verus!
