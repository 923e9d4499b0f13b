use crate::error::DbError;
use crate::header::{header_spec, DatabaseHeader};
use crate::schema_table::schema_entry;
use crate::table::{all_entries, Table};
use crate::page::{page_spec, PageType};
use crate::traversal::{
    leaf_payload, lemma_leaf_page_rows, page_padding, pages_view, tree_records, tree_rows,
};
use vstd::prelude::*;
use vstd::slice::{slice_subrange, slice_to_vec};

verus! {

/// An open database file: its header, its pages, and the schema objects
/// that its schema table lists.
#[derive(Debug)]
pub struct Database {
    pub header: DatabaseHeader,
    /// The bytes of each page, page 1 first.
    pub pages: Vec<Vec<u8>>,
    pub tables: Vec<Table>,
}

/// The whole pages of a file whose pages are `ps` bytes long.
pub open spec fn split_pages(b: Seq<u8>, ps: nat) -> Seq<Seq<u8>> {
    Seq::new(b.len() / ps, |i: int| b.subrange(i * ps, (i + 1) * ps))
}

/// Splits `bytes` into pages of `ps` bytes; bytes after the last whole page
/// are left out.
fn split(bytes: &[u8], ps: usize) -> (r: Vec<Vec<u8>>)
    requires
        ps > 0,
    ensures
        pages_view(&r) == split_pages(bytes@, ps as nat),
{
    let len = bytes.len();
    let n = len / ps;
    let mut out: Vec<Vec<u8>> = Vec::new();
    let mut i: usize = 0;
    while i < n
        invariant
            len == bytes@.len(),
            n == len / ps,
            ps > 0,
            i <= n,
            out@.len() == i,
            forall|j: int| 0 <= j < i ==> (#[trigger] out@[j])@ == split_pages(bytes@, ps as nat)[j],
        decreases n - i,
    {
        assert((i + 1) * ps <= len) by (nonlinear_arith)
            requires
                i < n,
                n == len / ps,
                ps > 0,
        {
            assert(n * ps <= len);
        }
        assert(i * ps + ps == (i + 1) * ps) by (nonlinear_arith);
        let start = i * ps;
        out.push(slice_to_vec(slice_subrange(bytes, start, start + ps)));
        i += 1;
    }
    assert(pages_view(&out) == split_pages(bytes@, ps as nat));
    out
}

/// When page 1 of a file is a single leaf page, the schema rows that
/// `Database::from_bytes` reads are the records of its cells, in
/// cell-pointer order, so table `i` of the catalog is the entry of cell `i`.
pub proof fn lemma_single_page_catalog(b: Seq<u8>)
    requires
        b.len() >= 100,
        header_spec(b).page_size > 0,
        b.len() >= header_spec(b).page_size,
        ({
            let pages = split_pages(b, header_spec(b).page_size as nat);
            let p = page_spec(pages[0], 100, header_spec(b));
            p is Ok && p->Ok_0.header.kind == PageType::LeafTable
        }),
    ensures
        ({
            let h = header_spec(b);
            let pages = split_pages(b, h.page_size as nat);
            let p = page_spec(pages[0], 100, h)->Ok_0;
            let rows = tree_rows(pages, h, 1, pages.len());
            &&& rows is Ok
            &&& rows->Ok_0.len() == p.header.number_of_cells
            &&& forall|i: int|
                0 <= i < rows->Ok_0.len() ==> #[trigger] rows->Ok_0[i] == leaf_payload(p.cells[i])
        }),
{
    let h = header_spec(b);
    let ps = h.page_size as nat;
    let pages = split_pages(b, ps);
    assert(b.len() / ps >= 1) by (nonlinear_arith)
        requires
            b.len() >= ps,
            ps > 0,
    ;
    assert(page_padding(1) == 100);
    lemma_leaf_page_rows(pages, h, 1, pages.len());
}

impl Database {
    /// Opens a database held in memory: reads the header, splits the file
    /// into whole pages and reads the schema table (the tree rooted at
    /// page 1).
    pub fn from_bytes(bytes: &[u8]) -> (r: Result<Database, DbError>)
        ensures
            bytes@.len() < 100 ==> r == Err::<Database, DbError>(DbError::Format),
            bytes@.len() >= 100 ==> ({
                let h = header_spec(bytes@);
                let ps = h.page_size as nat;
                if ps == 0 {
                    r == Err::<Database, DbError>(DbError::Format)
                } else {
                    let pages = split_pages(bytes@, ps);
                    match tree_rows(pages, h, 1, pages.len()) {
                        Err(e) => r == Err::<Database, DbError>(e),
                        Ok(rows) => if all_entries(rows) {
                            r is Ok && r->Ok_0.header == h && pages_view(&r->Ok_0.pages) == pages
                                && r->Ok_0.tables@.len() == rows.len() && forall|i: int|
                                0 <= i < rows.len() ==> (#[trigger] r->Ok_0.tables@[i])@
                                    == schema_entry(rows[i])->Some_0
                        } else {
                            r == Err::<Database, DbError>(DbError::Schema)
                        },
                    }
                }
            }),
    {
        if bytes.len() < 100 {
            return Err(DbError::Format);
        }
        let header = DatabaseHeader::from_slice(bytes);
        let ps = header.page_size as usize;
        if ps == 0 {
            return Err(DbError::Format);
        }
        let pages = split(bytes, ps);
        let rows = match tree_records(&pages, &header, 1) {
            Ok(rows) => rows,
            Err(e) => {
                return Err(e);
            },
        };
        let tables = match Table::from_records(&rows) {
            Ok(t) => t,
            Err(e) => {
                return Err(e);
            },
        };
        Ok(Database { header, pages, tables })
    }
}

} // verus!
